use bfc::bfir::Instruction::{Increment, Loop, PointerIncrement, Read, SetCell, Write};
use bfc::bounds::highest_cell_index;
use bfc::driver::compile_source;
use bfc::execution::{execute, execute_inner, ExecutionState, Outcome, MAX_STEPS};
use bfc::parser::{parse, ParseError};
use bfc::peephole::optimize;

#[test]
fn plus_is_one_increment_and_runs() {
    let instrs = parse("+").unwrap();
    assert_eq!(instrs, vec![Increment(1)]);
    for steps in [1, 2, MAX_STEPS] {
        assert_eq!(
            execute(&instrs, steps),
            ExecutionState { instr_ptr: 1, cells: vec![1], cell_ptr: 0, outputs: vec![] }
        );
    }
}

#[test]
fn minus_wraps_to_255() {
    let instrs = parse("-").unwrap();
    assert_eq!(
        execute(&instrs, MAX_STEPS),
        ExecutionState { instr_ptr: 1, cells: vec![255], cell_ptr: 0, outputs: vec![] }
    );
}

#[test]
fn zeroing_loop_is_folded_and_runs_to_the_end() {
    let optimised = optimize(parse("++[-]").unwrap());
    assert_eq!(optimised, vec![Increment(2), SetCell(0)]);
    let state = execute(&optimised, MAX_STEPS);
    assert_eq!(
        state,
        ExecutionState { instr_ptr: optimised.len(), cells: vec![0], cell_ptr: 0, outputs: vec![] }
    );
}

#[test]
fn read_stops_speculation_at_once() {
    let instrs = parse(",.").unwrap();
    assert_eq!(instrs, vec![Read, Write]);
    let state = execute(&instrs, MAX_STEPS);
    assert_eq!(state.instr_ptr, 0);
    assert_eq!(state.outputs, vec![]);
}

#[test]
fn moving_left_of_the_tape_stops_speculation() {
    let instrs = parse("<").unwrap();
    let state = execute(&instrs, MAX_STEPS);
    assert_eq!(
        state,
        ExecutionState { instr_ptr: 0, cells: vec![0], cell_ptr: 0, outputs: vec![] }
    );
}

#[test]
fn nested_loops_with_long_moves_compile() {
    let source = "+[[>>>>>>>>>]+>>>>>>>>>-]";
    let instrs = parse(source).unwrap();
    assert!(highest_cell_index(&instrs) >= 9);
    let optimised = optimize(instrs);
    assert!(highest_cell_index(&optimised) >= 9);
    let state = execute(&optimised, MAX_STEPS);
    assert!(state.instr_ptr <= optimised.len());
    assert!(compile_source(source, "2").is_ok());
}

#[test]
fn output_is_computed_ahead_and_nothing_is_left() {
    let (rest, state) = compile_source("+++.>++.", "2").unwrap();
    assert_eq!(state.outputs, vec![3, 2]);
    assert_eq!(rest, vec![]);
    let optimised = optimize(parse("+++.>++.").unwrap());
    assert_eq!(state.instr_ptr, optimised.len());
}

#[test]
fn zero_steps_run_nothing() {
    let instrs = parse("+").unwrap();
    assert_eq!(
        execute(&instrs, 0),
        ExecutionState { instr_ptr: 0, cells: vec![0], cell_ptr: 0, outputs: vec![] }
    );
}

#[test]
fn outcomes_of_a_run() {
    let start = || ExecutionState { instr_ptr: 0, cells: vec![0, 0], cell_ptr: 0, outputs: vec![] };
    let (_, outcome) = execute_inner(&parse("+").unwrap(), start(), 5);
    assert_eq!(outcome, Outcome::Completed(4));
    let (_, outcome) = execute_inner(&parse("+").unwrap(), start(), 1);
    assert_eq!(outcome, Outcome::OutOfSteps);
    let (_, outcome) = execute_inner(&parse(",").unwrap(), start(), 5);
    assert_eq!(outcome, Outcome::ReachedRuntimeValue);
    let (_, outcome) = execute_inner(&parse(">>").unwrap(), start(), 5);
    assert_eq!(outcome, Outcome::RuntimeError);
    let (state, outcome) = execute_inner(&parse("+[>+<-]").unwrap(), start(), 50);
    assert_eq!(outcome, Outcome::Completed(43));
    assert_eq!(state.cells, vec![0, 1]);
}

#[test]
fn pointer_beyond_the_right_end_stops_speculation() {
    // The first turn of the loop ends on the last cell; the second would
    // leave the tape, so it is undone and the loop is left to run later.
    let instrs = vec![Increment(1), Loop(vec![PointerIncrement(1), Increment(1)]), Write];
    let state = execute(&instrs, MAX_STEPS);
    assert_eq!(
        state,
        ExecutionState { instr_ptr: 1, cells: vec![1, 1], cell_ptr: 1, outputs: vec![] }
    );
}

#[test]
fn speculation_stays_in_bounds_on_examples() {
    let sources = ["", "+", "<", ">>>", "+[>+]", "+[<]", ",[.,]", "++[->+<]>.", "+[[-]]", "+[]"];
    for source in sources.iter() {
        for steps in [0u64, 1, 2, 3, 5, 8, 100] {
            let instrs = parse(source).unwrap();
            let state = execute(&instrs, steps);
            assert!(state.instr_ptr <= instrs.len());
            assert!(state.cell_ptr >= 0);
            assert!(state.cell_ptr as usize <= state.cells.len());
            assert_eq!(state.cells.len(), highest_cell_index(&instrs) + 1);
            let optimised = optimize(instrs);
            let state = execute(&optimised, steps);
            assert!(state.instr_ptr <= optimised.len());
            assert!(state.cell_ptr >= 0);
            assert!(state.cell_ptr as usize <= state.cells.len());
        }
    }
}

#[test]
fn optimised_program_prints_the_same() {
    let sources = ["++[->+++<]>.", "+++[->++<]>[-<+>]<.", "++>+++[-<+>]<.[-].", "+[-]+."];
    for source in sources.iter() {
        let plain = parse(source).unwrap();
        let optimised = optimize(parse(source).unwrap());
        let before = execute(&plain, MAX_STEPS);
        let after = execute(&optimised, MAX_STEPS);
        assert_eq!(before.instr_ptr, plain.len());
        assert_eq!(after.instr_ptr, optimised.len());
        assert_eq!(before.outputs, after.outputs);
        assert_eq!(before.cells, after.cells);
        assert_eq!(before.cell_ptr, after.cell_ptr);
    }
}

#[test]
fn parse_ignores_comments() {
    assert_eq!(
        parse("add one: + then loop [ minus - ] done").unwrap(),
        parse("+[-]").unwrap()
    );
    assert_eq!(parse("né+é").unwrap(), vec![Increment(1)]);
}

#[test]
fn parse_succeeds_on_balanced_brackets() {
    for source in ["", "[]", "[[]]", "[][]", "[+[-]>[<]]", "a[b[c]d]e"].iter() {
        assert!(parse(source).is_ok());
    }
    for source in ["[", "]", "][", "[[]", "[]]", "[]][", "+[+[+]"].iter() {
        assert!(parse(source).is_err());
    }
}

#[test]
fn parse_error_names_the_character_index() {
    assert_eq!(parse("]"), Err(String::from("Unmatched ] at index 0.")));
    assert_eq!(parse("[]]["), Err(String::from("Unmatched ] at index 2.")));
    assert_eq!(parse("["), Err(String::from("Could not find matching ] for [ at index 0.")));
    assert_eq!(parse("[[]"), Err(String::from("Could not find matching ] for [ at index 0.")));
    assert_eq!(parse("[][[]"), Err(String::from("Could not find matching ] for [ at index 2.")));
    assert_eq!(parse("éé]"), Err(String::from("Unmatched ] at index 2.")));
    assert_eq!(ParseError::UnmatchedClose(1234567890).message(), "Unmatched ] at index 1234567890.");
    assert_eq!(ParseError::UnmatchedOpen(7).index(), 7);
}

#[test]
fn multiply_move_runs() {
    let optimised = optimize(parse("+++[->++>>+<<<]").unwrap());
    let state = execute(&optimised, MAX_STEPS);
    assert_eq!(
        state,
        ExecutionState { instr_ptr: 2, cells: vec![0, 6, 0, 3], cell_ptr: 0, outputs: vec![] }
    );
}

#[test]
fn multiply_move_wraps() {
    let optimised = optimize(parse("++++++++[->++++++++<]>[-<++++>>+++<]").unwrap());
    let state = execute(&optimised, MAX_STEPS);
    assert_eq!(state.cells, vec![0, 0, 192]);
    assert_eq!(state.instr_ptr, optimised.len());
}

#[test]
fn multiply_move_off_the_tape_stops_speculation() {
    let optimised = optimize(parse("+>+[-<<+>>]").unwrap());
    let state = execute(&optimised, MAX_STEPS);
    assert_eq!(state.instr_ptr, 3);
    assert_eq!(state.cells, vec![1, 1]);
    assert_eq!(state.cell_ptr, 1);
}

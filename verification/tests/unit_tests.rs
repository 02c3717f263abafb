use bfc::bfir::Instruction::{Increment, Loop, MultiplyMove, PointerIncrement, Read, SetCell, Write};
use bfc::bfir::{add_cells, multiply_cells, table_entries, Instruction};
use bfc::bounds::table_reach_of;
use bfc::driver::remaining_instrs;
use bfc::execution::{execute_inner, initial_state, multiply_move, ExecutionState, Outcome};
use bfc::parser::{characters, find_close, parse_between, ParseError};
use bfc::peephole::{
    append_instr, is_zeroing_body, multiply_table_of, same_instruction, same_table,
};
use bfc::printer::{append_entries, append_signed, insert_rising};
use bfc::text::append_decimal;
use std::collections::HashMap;

fn table(entries: &[(isize, u8)]) -> HashMap<isize, u8> {
    let mut m = HashMap::new();
    for (k, v) in entries {
        m.insert(*k, *v);
    }
    m
}

#[test]
fn cells_add_and_multiply_wrapping() {
    assert_eq!(add_cells(1, 2), 3);
    assert_eq!(add_cells(255, 1), 0);
    assert_eq!(add_cells(200, 100), 44);
    assert_eq!(multiply_cells(3, 4), 12);
    assert_eq!(multiply_cells(16, 16), 0);
    assert_eq!(multiply_cells(255, 255), 1);
    assert_eq!(multiply_cells(100, 3), 44);
}

#[test]
fn decimal_digits() {
    for n in [0usize, 1, 9, 10, 11, 99, 100, 255, 1000, 65535, usize::MAX] {
        let mut out = String::from("n=");
        append_decimal(&mut out, n);
        assert_eq!(out, format!("n={}", n));
    }
}

#[test]
fn signed_decimal_digits() {
    for n in [0isize, 1, -1, 10, -10, 127, -128, isize::MAX, isize::MIN] {
        let mut out = String::new();
        append_signed(&mut out, n);
        assert_eq!(out, format!("{}", n));
    }
}

#[test]
fn entries_are_separated_by_commas() {
    let mut out = String::from("{");
    append_entries(&mut out, &vec![]);
    assert_eq!(out, "{");
    append_entries(&mut out, &vec![(-1, 2)]);
    assert_eq!(out, "{-1: 2");
    let mut out = String::new();
    append_entries(&mut out, &vec![(1, 2), (3, 4), (5, 6)]);
    assert_eq!(out, "1: 2, 3: 4, 5: 6");
}

#[test]
fn insert_keeps_offsets_rising() {
    let mut sorted = vec![(1, 1), (5, 5)];
    insert_rising(&mut sorted, (3, 3));
    insert_rising(&mut sorted, (-2, 2));
    insert_rising(&mut sorted, (9, 9));
    assert_eq!(sorted, vec![(-2, 2), (1, 1), (3, 3), (5, 5), (9, 9)]);
}

#[test]
fn table_entries_lists_each_entry_once() {
    let mut entries = table_entries(&table(&[(1, 2), (-3, 4), (7, 0)]));
    entries.sort();
    assert_eq!(entries, vec![(-3, 4), (1, 2), (7, 0)]);
    assert_eq!(table_entries(&HashMap::new()), vec![]);
}

#[test]
fn table_reach_is_largest_positive_offset() {
    assert_eq!(table_reach_of(&HashMap::new()), 0);
    assert_eq!(table_reach_of(&table(&[(-1, 1), (-5, 1)])), 0);
    assert_eq!(table_reach_of(&table(&[(2, 1), (-5, 1), (4, 1), (3, 1)])), 4);
    assert_eq!(table_reach_of(&table(&[(isize::MAX, 1)])), isize::MAX as usize);
}

#[test]
fn clone_copies_the_tree() {
    let instr = Loop(vec![
        Increment(1),
        Loop(vec![Read, Write, SetCell(3)]),
        MultiplyMove(table(&[(1, 2)])),
        PointerIncrement(-4),
    ]);
    assert_eq!(instr.clone(), instr);
}

#[test]
fn characters_and_brackets() {
    let chars = characters("a[é[]]b]");
    assert_eq!(chars, vec!['a', '[', 'é', '[', ']', ']', 'b', ']']);
    assert_eq!(find_close(&chars, 1, chars.len()), 5);
    assert_eq!(find_close(&chars, 3, chars.len()), 4);
    assert_eq!(find_close(&chars, 1, 5), 5);
    assert_eq!(find_close(&chars, 1, 4), 4);
    let open = characters("[[]");
    assert_eq!(find_close(&open, 0, 3), 3);
}

#[test]
fn parse_between_parses_a_stretch() {
    let chars = characters("+[->+<]]");
    assert_eq!(parse_between(&chars, 2, 6), Ok(vec![Increment(255), PointerIncrement(1), Increment(1), PointerIncrement(-1)]));
    assert_eq!(parse_between(&chars, 0, 0), Ok(vec![]));
    assert_eq!(parse_between(&chars, 0, 8), Err(ParseError::UnmatchedClose(7)));
    assert_eq!(parse_between(&chars, 1, 6), Err(ParseError::UnmatchedOpen(1)));
    assert_eq!(parse_between(&chars, 6, 7), Err(ParseError::UnmatchedClose(6)));
}

#[test]
fn append_merges_with_the_last_instruction() {
    let mut out: Vec<Instruction> = vec![];
    append_instr(&mut out, Increment(1));
    append_instr(&mut out, Increment(2));
    assert_eq!(out, vec![Increment(3)]);
    append_instr(&mut out, Write);
    append_instr(&mut out, Increment(253));
    assert_eq!(out, vec![Increment(3), Write, Increment(253)]);
    append_instr(&mut out, Increment(3));
    assert_eq!(out, vec![Increment(3), Write]);
    append_instr(&mut out, PointerIncrement(-2));
    append_instr(&mut out, PointerIncrement(-3));
    assert_eq!(out, vec![Increment(3), Write, PointerIncrement(-5)]);
    append_instr(&mut out, PointerIncrement(5));
    assert_eq!(out, vec![Increment(3), Write]);
    append_instr(&mut out, SetCell(7));
    append_instr(&mut out, Increment(250));
    assert_eq!(out, vec![Increment(3), Write, SetCell(1)]);
    append_instr(&mut out, SetCell(9));
    assert_eq!(out, vec![Increment(3), Write, SetCell(9)]);
    append_instr(&mut out, Read);
    assert_eq!(out, vec![Increment(3), Write, Read]);
    append_instr(&mut out, Loop(vec![]));
    append_instr(&mut out, Loop(vec![]));
    assert_eq!(out, vec![Increment(3), Write, Read, Loop(vec![]), Loop(vec![])]);
}

#[test]
fn zeroing_bodies() {
    assert!(is_zeroing_body(&vec![Increment(1)]));
    assert!(is_zeroing_body(&vec![Increment(255)]));
    assert!(!is_zeroing_body(&vec![Increment(2)]));
    assert!(!is_zeroing_body(&vec![]));
    assert!(!is_zeroing_body(&vec![Increment(1), Increment(1)]));
    assert!(!is_zeroing_body(&vec![SetCell(0)]));
}

#[test]
fn multiply_tables() {
    let body = vec![
        PointerIncrement(2),
        Increment(3),
        PointerIncrement(-2),
        Increment(255),
        PointerIncrement(-1),
        Increment(250),
        Increment(5),
        PointerIncrement(1),
    ];
    assert_eq!(multiply_table_of(&body), Some(table(&[(2, 3), (-1, 255)])));
    assert_eq!(multiply_table_of(&vec![Increment(255)]), Some(HashMap::new()));
    assert_eq!(multiply_table_of(&vec![]), None);
    assert_eq!(multiply_table_of(&vec![Increment(254)]), None);
    assert_eq!(multiply_table_of(&vec![Increment(255), PointerIncrement(1)]), None);
    assert_eq!(multiply_table_of(&vec![Increment(255), SetCell(1)]), None);
    assert_eq!(multiply_table_of(&vec![Increment(255), Loop(vec![])]), None);
    // The start cell may be touched more than once if one is taken in all.
    assert_eq!(
        multiply_table_of(&vec![Increment(1), PointerIncrement(1), Increment(1), PointerIncrement(-1), Increment(254)]),
        Some(table(&[(1, 1)]))
    );
    // A pointer that leaves the machine's range is no multiply-move.
    assert_eq!(
        multiply_table_of(&vec![
            Increment(255),
            PointerIncrement(isize::MAX),
            PointerIncrement(1),
            PointerIncrement(isize::MIN),
        ]),
        None
    );
}

#[test]
fn same_instruction_compares_trees() {
    let a = Loop(vec![Increment(1), Loop(vec![MultiplyMove(table(&[(1, 2)]))])]);
    let b = Loop(vec![Increment(1), Loop(vec![MultiplyMove(table(&[(1, 2)]))])]);
    let c = Loop(vec![Increment(1), Loop(vec![MultiplyMove(table(&[(1, 3)]))])]);
    let d = Loop(vec![Increment(1), Loop(vec![])]);
    assert!(same_instruction(&a, &b));
    assert!(!same_instruction(&a, &c));
    assert!(!same_instruction(&a, &d));
    assert!(!same_instruction(&Read, &Write));
    assert!(!same_instruction(&SetCell(1), &Increment(1)));
    assert!(same_instruction(&PointerIncrement(-1), &PointerIncrement(-1)));
    assert!(!same_instruction(&PointerIncrement(-1), &PointerIncrement(1)));
    assert!(same_table(&table(&[(1, 2), (3, 4)]), &table(&[(3, 4), (1, 2)])));
    assert!(!same_table(&table(&[(1, 2)]), &table(&[(1, 2), (3, 4)])));
    assert!(!same_table(&table(&[(1, 2), (3, 4)]), &table(&[(1, 2)])));
    assert!(!same_table(&table(&[(1, 2)]), &table(&[(2, 2)])));
}

#[test]
fn multiply_move_on_a_tape() {
    let mut cells = vec![1, 2, 3, 4, 5];
    assert!(multiply_move(&mut cells, 2, &table(&[(-2, 2), (1, 100), (2, 1)])));
    assert_eq!(cells, vec![7, 2, 0, 48, 8]);
    let mut cells = vec![1, 2, 3];
    assert!(!multiply_move(&mut cells, 1, &table(&[(1, 1), (2, 1)])));
    assert_eq!(cells, vec![1, 2, 3]);
    assert!(!multiply_move(&mut cells, 1, &table(&[(1, 1), (-2, 1)])));
    assert_eq!(cells, vec![1, 2, 3]);
    assert!(multiply_move(&mut cells, 1, &HashMap::new()));
    assert_eq!(cells, vec![1, 0, 3]);
}

#[test]
fn initial_state_is_zeroed() {
    let instrs = vec![PointerIncrement(3), PointerIncrement(-1)];
    assert_eq!(
        initial_state(&instrs),
        ExecutionState { instr_ptr: 0, cells: vec![0, 0, 0, 0], cell_ptr: 0, outputs: vec![] }
    );
}

#[test]
fn execute_inner_goes_on_from_a_state() {
    let instrs = vec![Increment(1), Write, PointerIncrement(1), Write];
    let state = ExecutionState { instr_ptr: 1, cells: vec![7, 9], cell_ptr: 0, outputs: vec![1] };
    let (after, outcome) = execute_inner(&instrs, state, 10);
    assert_eq!(outcome, Outcome::Completed(7));
    assert_eq!(
        after,
        ExecutionState { instr_ptr: 4, cells: vec![7, 9], cell_ptr: 1, outputs: vec![1, 7, 9] }
    );
}

#[test]
fn unfinished_loop_turn_is_undone() {
    // Two turns fit the budget; the third is cut short and leaves no trace.
    let instrs = vec![Increment(3), Loop(vec![Write, Increment(255)])];
    let state = ExecutionState { instr_ptr: 0, cells: vec![0], cell_ptr: 0, outputs: vec![] };
    let (after, outcome) = execute_inner(&instrs, state, 9);
    assert_eq!(outcome, Outcome::OutOfSteps);
    assert_eq!(
        after,
        ExecutionState { instr_ptr: 1, cells: vec![1], cell_ptr: 0, outputs: vec![3, 2] }
    );
}

#[test]
fn remaining_instrs_is_the_suffix() {
    let instrs = vec![Increment(1), Read, Write];
    assert_eq!(remaining_instrs(&instrs, 0), instrs);
    assert_eq!(remaining_instrs(&instrs, 1), vec![Read, Write]);
    assert_eq!(remaining_instrs(&instrs, 3), vec![]);
}

#[test]
fn settled_programs_stay_on_their_tape() {
    // No loop ends a turn further right than it began, so the tape that
    // the sizing gives is never left to the right.
    let sources = ["+>++>+++<<[->>+<<]>>.", "+++[>++[>+<-]<-]>>.", ">>+>+[<]", ">>+>+[<]>>>."];
    for source in sources.iter() {
        let instrs = bfc::parser::parse(source).unwrap();
        let state = bfc::execution::execute(&instrs, bfc::execution::MAX_STEPS);
        assert_eq!(state.instr_ptr, instrs.len());
    }
}

use bfc::bfir::Instruction;
use bfc::bfir::Instruction::{Increment, Loop, MultiplyMove, PointerIncrement, Read, SetCell, Write};
use std::collections::HashMap;
use bfc::execution::{execute, ExecutionState, MAX_STEPS};
use bfc::parser::parse;

/// Outputs of runtime values cannot be evaluated at compile time.
#[test]
fn cant_evaluate_inputs() {
    let instrs = parse(",.").unwrap();
    let final_state = execute(&instrs, MAX_STEPS);

    assert_eq!(
        final_state,
        ExecutionState { instr_ptr: 0, cells: vec![0], cell_ptr: 0, outputs: vec![] }
    );
}

#[test]
fn increment_executed() {
    let instrs = parse("+").unwrap();
    let final_state = execute(&instrs, MAX_STEPS);

    assert_eq!(
        final_state,
        ExecutionState { instr_ptr: 1, cells: vec![1], cell_ptr: 0, outputs: vec![] }
    );
}

#[test]
fn set_executed() {
    let instrs = vec![SetCell(2)];
    let final_state = execute(&instrs, MAX_STEPS);

    assert_eq!(
        final_state,
        ExecutionState { instr_ptr: 1, cells: vec![2], cell_ptr: 0, outputs: vec![] }
    );
}

#[test]
fn set_wraps() {
    let instrs = vec![SetCell(255)];
    let final_state = execute(&instrs, MAX_STEPS);

    assert_eq!(
        final_state,
        ExecutionState { instr_ptr: 1, cells: vec![255], cell_ptr: 0, outputs: vec![] }
    );
}

#[test]
fn decrement_executed() {
    let instrs = parse("-").unwrap();
    let final_state = execute(&instrs, MAX_STEPS);

    assert_eq!(
        final_state,
        ExecutionState { instr_ptr: 1, cells: vec![255], cell_ptr: 0, outputs: vec![] }
    );
}

#[test]
fn increment_wraps() {
    let instrs = vec![Increment(255), Increment(1)];
    let final_state = execute(&instrs, MAX_STEPS);

    assert_eq!(
        final_state,
        ExecutionState { instr_ptr: 2, cells: vec![0], cell_ptr: 0, outputs: vec![] }
    );
}

#[test]
fn ptr_increment_executed() {
    let instrs = parse(">").unwrap();
    let final_state = execute(&instrs, MAX_STEPS);

    assert_eq!(
        final_state,
        ExecutionState { instr_ptr: 1, cells: vec![0, 0], cell_ptr: 1, outputs: vec![] }
    );
}

#[test]
fn ptr_out_of_range() {
    let instrs = parse("<").unwrap();
    let final_state = execute(&instrs, MAX_STEPS);

    assert_eq!(
        final_state,
        ExecutionState { instr_ptr: 0, cells: vec![0], cell_ptr: 0, outputs: vec![] }
    );
}

#[test]
fn limit_to_steps_specified() {
    let instrs = parse("++++").unwrap();
    let final_state = execute(&instrs, 2);

    assert_eq!(
        final_state,
        ExecutionState { instr_ptr: 2, cells: vec![2], cell_ptr: 0, outputs: vec![] }
    );
}

#[test]
fn write_executed() {
    let instrs = parse("+.").unwrap();
    let final_state = execute(&instrs, MAX_STEPS);

    assert_eq!(
        final_state,
        ExecutionState { instr_ptr: 2, cells: vec![1], cell_ptr: 0, outputs: vec![1] }
    );
}

#[test]
fn loop_executed() {
    let instrs = parse("++[-]").unwrap();
    let final_state = execute(&instrs, MAX_STEPS);

    assert_eq!(
        final_state,
        ExecutionState { instr_ptr: 3, cells: vec![0], cell_ptr: 0, outputs: vec![] }
    );
}

#[test]
fn loop_up_to_step_limit() {
    let instrs = parse("++[-]").unwrap();
    // One step enters the loop, so the body runs once.
    let final_state = execute(&instrs, 4);

    assert_eq!(
        final_state,
        ExecutionState { instr_ptr: 2, cells: vec![1], cell_ptr: 0, outputs: vec![] }
    );
}

#[test]
fn loop_with_read_body() {
    // The state before the loop comes back, since the whole loop cannot run.
    let instrs = parse("+[+,]").unwrap();
    let final_state = execute(&instrs, 4);

    assert_eq!(
        final_state,
        ExecutionState { instr_ptr: 1, cells: vec![1], cell_ptr: 0, outputs: vec![] }
    );
}

#[test]
fn up_to_infinite_loop_executed() {
    let instrs = parse("++[]").unwrap();
    let final_state = execute(&instrs, 20);

    assert_eq!(
        final_state,
        ExecutionState { instr_ptr: 2, cells: vec![2], cell_ptr: 0, outputs: vec![] }
    );
}

#[test]
fn arithmetic_error_nested_loops() {
    // If the first element in a loop is another loop, no counter may overflow.
    let instrs = parse("+[[>>>>>>>>>]+>>>>>>>>>-]").unwrap();
    execute(&instrs, MAX_STEPS);
}

fn sample_programs() -> Vec<Vec<Instruction>> {
    let mut right = HashMap::new();
    right.insert(2, 3u8);
    let mut left = HashMap::new();
    left.insert(-1, 1u8);
    vec![
        vec![],
        vec![Increment(7), Write, Read],
        vec![PointerIncrement(3), PointerIncrement(-5), Write],
        vec![PointerIncrement(-1)],
        vec![SetCell(9), Loop(vec![Increment(255), PointerIncrement(1), Increment(2), PointerIncrement(-1)])],
        vec![SetCell(1), Loop(vec![PointerIncrement(1), SetCell(1)])],
        vec![SetCell(1), Loop(vec![Loop(vec![]), Read])],
        vec![SetCell(4), MultiplyMove(right), PointerIncrement(2), Write],
        vec![SetCell(4), MultiplyMove(left), Write],
        vec![Increment(1), Loop(vec![Loop(vec![Increment(255)]), Write])],
        vec![Loop(vec![Read]), Increment(200), Increment(100), Write],
    ]
}

#[test]
fn instr_ptr_in_bounds() {
    for instrs in sample_programs() {
        let state = execute(&instrs, 100);
        assert!(state.instr_ptr <= instrs.len());
    }
}

#[test]
fn cell_ptr_in_bounds() {
    for instrs in sample_programs() {
        let state = execute(&instrs, 100);
        assert!((state.cell_ptr >= 0) && (state.cell_ptr <= state.cells.len() as isize));
    }
}

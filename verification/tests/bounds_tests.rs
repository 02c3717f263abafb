use bfc::bfir::Instruction::{Loop, MultiplyMove, PointerIncrement};
use bfc::bounds::{checked_highest_cell_index, highest_cell_index};
use bfc::execution::{execute, MAX_STEPS};
use bfc::parser::parse;
use std::collections::HashMap;

#[test]
fn bounds_of_empty_program() {
    assert_eq!(highest_cell_index(&vec![]), 0);
}

#[test]
fn bounds_of_one_cell_program() {
    assert_eq!(highest_cell_index(&parse("+-.").unwrap()), 0);
}

#[test]
fn bounds_of_pointer_moves() {
    assert_eq!(highest_cell_index(&parse(">>").unwrap()), 2);
    assert_eq!(highest_cell_index(&parse(">><").unwrap()), 2);
    assert_eq!(highest_cell_index(&parse("><>>").unwrap()), 2);
}

#[test]
fn bounds_clamped_at_zero() {
    assert_eq!(highest_cell_index(&parse("<").unwrap()), 0);
    assert_eq!(highest_cell_index(&parse("<<<>>>>").unwrap()), 1);
}

#[test]
fn bounds_of_loop_body() {
    assert_eq!(highest_cell_index(&parse("[>]").unwrap()), 1);
    assert_eq!(highest_cell_index(&parse(">[>>]").unwrap()), 3);
    assert_eq!(highest_cell_index(&parse(">>[<]").unwrap()), 2);
    assert_eq!(highest_cell_index(&parse(">[>>]>").unwrap()), 3);
    assert_eq!(highest_cell_index(&parse(">[>>]>>>").unwrap()), 4);
}

#[test]
fn bounds_of_nested_loops() {
    assert_eq!(highest_cell_index(&parse("+[[>>>>>>>>>]+>>>>>>>>>-]").unwrap()), 9);
}

#[test]
fn bounds_of_multiply_move() {
    let mut table = HashMap::new();
    table.insert(2, 1u8);
    table.insert(-4, 1u8);
    let instrs = vec![PointerIncrement(1), MultiplyMove(table)];
    assert_eq!(highest_cell_index(&instrs), 3);
    let mut left = HashMap::new();
    left.insert(-1, 1u8);
    assert_eq!(highest_cell_index(&vec![MultiplyMove(left)]), 0);
}

#[test]
fn bounds_beyond_machine_range() {
    let far = vec![
        PointerIncrement(isize::MAX),
        PointerIncrement(isize::MAX),
        PointerIncrement(isize::MAX),
    ];
    assert_eq!(checked_highest_cell_index(&far), None);
    assert_eq!(highest_cell_index(&far), usize::MAX);
    let back = vec![PointerIncrement(isize::MIN), Loop(far)];
    assert_eq!(highest_cell_index(&back), usize::MAX);
    let two = vec![PointerIncrement(isize::MAX), PointerIncrement(isize::MAX)];
    assert_eq!(checked_highest_cell_index(&two), Some(usize::MAX - 1));
}

#[test]
fn bounds_with_largest_moves() {
    let instrs = vec![PointerIncrement(isize::MIN), PointerIncrement(isize::MAX)];
    assert_eq!(highest_cell_index(&instrs), 0);
    let instrs = vec![PointerIncrement(isize::MAX), PointerIncrement(isize::MIN)];
    assert_eq!(highest_cell_index(&instrs), isize::MAX as usize);
}

#[test]
fn loop_that_drifts_right_leaves_the_sized_tape() {
    // The loop walks right over three cells that are not zero and ends on
    // index 3, one beyond what the sizing counts for it.
    let instrs = parse("+>+>+<<[>]+").unwrap();
    assert_eq!(highest_cell_index(&instrs), 2);
    let state = execute(&instrs, MAX_STEPS);
    assert_eq!(state.instr_ptr, 7);
    assert_eq!(state.cells, vec![1, 1, 1]);
    assert_eq!(state.cell_ptr, 2);
}

use bfc::bfir::Instruction::{Increment, Loop, MultiplyMove, PointerIncrement, Read, SetCell, Write};
use bfc::parser::parse;
use bfc::printer::{dump_ir, fmt_with_indent, sorted_entries};
use std::collections::HashMap;

#[test]
fn listing_of_leaves() {
    assert_eq!(Increment(1).to_string(), "Increment(1)");
    assert_eq!(Increment(255).to_string(), "Increment(255)");
    assert_eq!(PointerIncrement(1).to_string(), "PointerIncrement(1)");
    assert_eq!(PointerIncrement(-12).to_string(), "PointerIncrement(-12)");
    assert_eq!(Read.to_string(), "Read");
    assert_eq!(Write.to_string(), "Write");
    assert_eq!(SetCell(0).to_string(), "Set(0)");
    assert_eq!(SetCell(100).to_string(), "Set(100)");
}

#[test]
fn listing_of_extreme_pointer_moves() {
    assert_eq!(
        PointerIncrement(isize::MIN).to_string(),
        format!("PointerIncrement({})", isize::MIN)
    );
    assert_eq!(
        PointerIncrement(isize::MAX).to_string(),
        format!("PointerIncrement({})", isize::MAX)
    );
}

#[test]
fn listing_of_empty_loop() {
    assert_eq!(Loop(vec![]).to_string(), "Loop");
}

#[test]
fn listing_of_loop_indents_body() {
    let instr = Loop(vec![Increment(1), Loop(vec![Read, Write]), PointerIncrement(-1)]);
    assert_eq!(
        instr.to_string(),
        "Loop\n  Increment(1)\n  Loop\n    Read\n    Write\n  PointerIncrement(-1)"
    );
}

#[test]
fn listing_with_indent() {
    let mut out = String::from(">");
    fmt_with_indent(&Loop(vec![Read]), 2, &mut out);
    assert_eq!(out, ">    Loop\n      Read");
}

#[test]
fn listing_of_multiply_move_by_rising_offset() {
    let mut table = HashMap::new();
    table.insert(3, 4u8);
    table.insert(-2, 255u8);
    table.insert(1, 2u8);
    table.insert(10, 0u8);
    assert_eq!(sorted_entries(&table), vec![(-2, 255), (1, 2), (3, 4), (10, 0)]);
    assert_eq!(
        MultiplyMove(table).to_string(),
        "MultiplyMove({-2: 255, 1: 2, 3: 4, 10: 0})"
    );
    assert_eq!(MultiplyMove(HashMap::new()).to_string(), "MultiplyMove({})");
    let mut one = HashMap::new();
    one.insert(1, 1u8);
    assert_eq!(MultiplyMove(one).to_string(), "MultiplyMove({1: 1})");
}

#[test]
fn dump_of_empty_program() {
    assert_eq!(dump_ir(&vec![]), "(optimized out)\n");
}

#[test]
fn dump_of_program() {
    let instrs = parse("+[-.]>").unwrap();
    assert_eq!(
        dump_ir(&instrs),
        "Increment(1)\nLoop\n  Increment(255)\n  Write\nPointerIncrement(1)\n"
    );
}

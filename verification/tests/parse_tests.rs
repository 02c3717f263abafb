use bfc::bfir::Instruction::{Increment, Loop, PointerIncrement, Read, Write};
use bfc::parser::parse;

#[test]
fn parse_increment() {
    assert_eq!(parse("+").unwrap(), [Increment(1)]);
    assert_eq!(parse("++").unwrap(), [Increment(1), Increment(1)]);
}

#[test]
fn parse_decrement() {
    assert_eq!(parse("-").unwrap(), [Increment(255)]);
}

#[test]
fn parse_pointer_increment() {
    assert_eq!(parse(">").unwrap(), [PointerIncrement(1)]);
}

#[test]
fn parse_pointer_decrement() {
    assert_eq!(parse("<").unwrap(), [PointerIncrement(-1)]);
}

#[test]
fn parse_read() {
    assert_eq!(parse(",").unwrap(), [Read]);
}

#[test]
fn parse_write() {
    assert_eq!(parse(".").unwrap(), [Write]);
}

#[test]
fn parse_empty_loop() {
    let expected = [Loop(vec![])];
    assert_eq!(parse("[]").unwrap(), expected);
}

#[test]
fn parse_simple_loop() {
    let loop_body = vec![Increment(1)];
    let expected = [Loop(loop_body)];
    assert_eq!(parse("[+]").unwrap(), expected);
}

#[test]
fn parse_complex_loop() {
    let loop_body = vec![Read, Increment(1)];
    let expected = [Write, Loop(loop_body), Increment(255)];
    assert_eq!(parse(".[,+]-").unwrap(), expected);
}

#[test]
fn parse_unbalanced_loop() {
    assert!(parse("[").is_err());
    assert!(parse("]").is_err());
}

#[test]
fn parse_comment() {
    assert_eq!(parse("foo! ").unwrap(), []);
}

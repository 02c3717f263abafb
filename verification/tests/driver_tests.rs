use bfc::bfir::Instruction::{Increment, Loop, PointerIncrement, Read, SetCell, Write};
use bfc::driver::{
    compile_program, compile_source, convert_io_error, executable_name, same_text,
};
use bfc::execution::ExecutionState;
use std::io::{Error, ErrorKind};

#[test]
fn executable_name_bf() {
    assert_eq!(executable_name("foo.bf"), "foo");
}

#[test]
fn executable_name_b() {
    assert_eq!(executable_name("foo_bar.b"), "foo_bar");
}

#[test]
fn executable_name_without_extension() {
    assert_eq!(executable_name("foo"), "foo");
}

#[test]
fn executable_name_with_several_dots() {
    assert_eq!(executable_name("a.b.c"), "a.b");
    assert_eq!(executable_name("foo."), "foo");
    assert_eq!(executable_name(".bf"), "");
    assert_eq!(executable_name(""), "");
    assert_eq!(executable_name("é.ü.bf"), "é.ü");
}

#[test]
fn convert_io_error_keeps_success() {
    let ok: Result<u8, Error> = Ok(3);
    assert_eq!(convert_io_error(ok), Ok(3));
}

#[test]
fn convert_io_error_gives_text() {
    let failed: Result<u8, Error> = Err(Error::new(ErrorKind::Other, "disk on fire"));
    assert_eq!(convert_io_error(failed), Err(String::from("disk on fire")));
}

#[test]
fn same_text_compares_characters() {
    assert!(same_text("2", "2"));
    assert!(!same_text("2", "0"));
    assert!(!same_text("2", "22"));
    assert!(same_text("", ""));
}

#[test]
fn compile_reports_parse_errors() {
    assert_eq!(compile_source("+]", "2"), Err(String::from("Unmatched ] at index 1.")));
    assert_eq!(
        compile_source("+ [", "0"),
        Err(String::from("Could not find matching ] for [ at index 2."))
    );
    assert_eq!(
        compile_source("0123456789[]]", "1"),
        Err(String::from("Unmatched ] at index 12."))
    );
}

#[test]
fn compile_level_zero_keeps_program() {
    let (rest, state) = compile_source("++>[-]", "0").unwrap();
    assert_eq!(
        rest,
        vec![Increment(1), Increment(1), PointerIncrement(1), Loop(vec![Increment(255)])]
    );
    assert_eq!(
        state,
        ExecutionState { instr_ptr: 0, cells: vec![0, 0], cell_ptr: 0, outputs: vec![] }
    );
}

#[test]
fn compile_level_one_optimises_only() {
    let (rest, state) = compile_source("++>+[-]", "1").unwrap();
    assert_eq!(rest, vec![Increment(2), PointerIncrement(1), Increment(1), SetCell(0)]);
    assert_eq!(
        state,
        ExecutionState { instr_ptr: 0, cells: vec![0, 0], cell_ptr: 0, outputs: vec![] }
    );
}

#[test]
fn compile_level_two_runs_ahead() {
    let (rest, state) = compile_source("+++.>++.", "2").unwrap();
    assert_eq!(rest, vec![]);
    assert_eq!(
        state,
        ExecutionState { instr_ptr: 5, cells: vec![3, 2], cell_ptr: 1, outputs: vec![3, 2] }
    );
}

#[test]
fn compile_level_two_stops_at_input() {
    let (rest, state) = compile_source("+.,.", "2").unwrap();
    assert_eq!(rest, vec![Read, Write]);
    assert_eq!(
        state,
        ExecutionState { instr_ptr: 2, cells: vec![1], cell_ptr: 0, outputs: vec![1] }
    );
}

#[test]
fn compile_other_levels_optimise_without_running() {
    let (rest, state) = compile_source("++.", "7").unwrap();
    assert_eq!(rest, vec![Increment(2), Write]);
    assert_eq!(state.instr_ptr, 0);
    assert_eq!(state.outputs, vec![]);
}

#[test]
fn compile_refuses_a_tape_beyond_the_machine() {
    let message = String::from("The program needs more cells than this machine can address.");
    for level in ["0", "1", "2"] {
        assert_eq!(
            compile_program(vec![PointerIncrement(isize::MAX)], level),
            Err(message.clone())
        );
        assert_eq!(
            compile_program(
                vec![PointerIncrement(isize::MAX), Read, PointerIncrement(isize::MAX), Read, PointerIncrement(2)],
                level
            ),
            Err(message.clone())
        );
    }
}

#[test]
fn compile_program_goes_on_from_a_tree() {
    let (rest, state) = compile_program(vec![Increment(1), Increment(1), Write, Read], "2").unwrap();
    assert_eq!(rest, vec![Read]);
    assert_eq!(
        state,
        ExecutionState { instr_ptr: 2, cells: vec![2], cell_ptr: 0, outputs: vec![2] }
    );
}

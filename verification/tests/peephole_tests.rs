use bfc::bfir::Instruction;
use bfc::bfir::Instruction::{Increment, Loop, MultiplyMove, PointerIncrement, Read, SetCell, Write};
use bfc::parser::parse;
use bfc::peephole::{combine, optimize, optimize_once, same_program, sweep};
use std::collections::HashMap;

fn table(entries: &[(isize, u8)]) -> HashMap<isize, u8> {
    let mut m = HashMap::new();
    for (k, v) in entries {
        m.insert(*k, *v);
    }
    m
}

#[test]
fn combine_increments_flat() {
    let initial = parse("++").unwrap();
    assert_eq!(combine(&initial), vec![Increment(2)]);
}

#[test]
fn combine_increments_unrelated() {
    let initial = parse("+>+.").unwrap();
    assert_eq!(combine(&initial), initial);
}

#[test]
fn combine_increments_nested() {
    let initial = parse("[++]").unwrap();
    assert_eq!(combine(&initial), vec![Loop(vec![Increment(2)])]);
}

#[test]
fn combine_increments_remove_redundant() {
    let initial = parse("+-").unwrap();
    assert_eq!(combine(&initial), vec![]);
}

#[test]
fn combine_increments_wrapping() {
    let initial = vec![Increment(255), Increment(2)];
    assert_eq!(combine(&initial), vec![Increment(1)]);
}

#[test]
fn combine_pointer_moves_flat() {
    let initial = parse(">>").unwrap();
    assert_eq!(combine(&initial), vec![PointerIncrement(2)]);
}

#[test]
fn combine_pointer_moves_remove_redundant() {
    let initial = parse("><").unwrap();
    assert_eq!(combine(&initial), vec![]);
}

#[test]
fn combine_pointer_moves_keeps_what_would_overflow() {
    let initial = vec![PointerIncrement(isize::MAX), PointerIncrement(1)];
    assert_eq!(combine(&initial), initial);
    let initial = vec![PointerIncrement(isize::MIN), PointerIncrement(-1)];
    assert_eq!(combine(&initial), initial);
}

#[test]
fn combine_cascades_after_a_pair_cancels() {
    let initial = parse("+><+").unwrap();
    assert_eq!(combine(&initial), vec![Increment(2)]);
}

#[test]
fn combine_set_and_increment() {
    let initial = vec![SetCell(1), Increment(2)];
    assert_eq!(combine(&initial), vec![SetCell(3)]);
    let initial = vec![SetCell(255), Increment(2)];
    assert_eq!(combine(&initial), vec![SetCell(1)]);
}

#[test]
fn combine_drops_set_before_set() {
    let initial = vec![SetCell(1), SetCell(2)];
    assert_eq!(combine(&initial), vec![SetCell(2)]);
}

#[test]
fn combine_drops_set_before_read() {
    let initial = vec![SetCell(1), Read];
    assert_eq!(combine(&initial), vec![Read]);
    let initial = vec![SetCell(1), Increment(1), Read];
    assert_eq!(combine(&initial), vec![Read]);
}

#[test]
fn combine_keeps_set_before_write() {
    let initial = vec![SetCell(1), Write];
    assert_eq!(combine(&initial), initial);
}

#[test]
fn sweep_zeroing_loops() {
    let initial = parse("+[-]").unwrap();
    assert_eq!(sweep(&initial, true), (vec![Increment(1), SetCell(0)], true));
    let initial = parse("+[+]").unwrap();
    assert_eq!(sweep(&initial, true), (vec![Increment(1), SetCell(0)], true));
}

#[test]
fn sweep_does_not_zero_other_loops() {
    let initial = vec![Increment(1), Loop(vec![Increment(254)])];
    assert_eq!(sweep(&initial, true), (initial.clone(), false));
}

#[test]
fn sweep_removes_loop_at_start() {
    let initial = parse("[>]+").unwrap();
    assert_eq!(sweep(&initial, true), (vec![Increment(1)], false));
    assert_eq!(
        sweep(&initial, false),
        (vec![Loop(vec![PointerIncrement(1)]), Increment(1)], false)
    );
}

#[test]
fn sweep_removes_loop_after_set_zero() {
    let initial = vec![Increment(1), SetCell(0), Loop(vec![Read]), Loop(vec![Write])];
    assert_eq!(sweep(&initial, true), (vec![Increment(1), SetCell(0)], true));
}

#[test]
fn sweep_keeps_loop_after_loop() {
    let first = Loop(vec![Read]);
    let second = Loop(vec![Write]);
    let initial = vec![Increment(1), first, second];
    assert_eq!(sweep(&initial, true), (initial.clone(), false));
}

#[test]
fn sweep_keeps_loop_after_nonzero_set() {
    let initial = vec![SetCell(1), Loop(vec![Read])];
    assert_eq!(sweep(&initial, true), (initial.clone(), false));
}

#[test]
fn sweep_write_keeps_what_is_known() {
    let initial = vec![Write, Loop(vec![Read])];
    assert_eq!(sweep(&initial, true), (vec![Write], true));
}

#[test]
fn sweep_keeps_empty_loop() {
    let initial = vec![Increment(1), Loop(vec![])];
    assert_eq!(sweep(&initial, true), (initial.clone(), false));
}

#[test]
fn sweep_multiply_move() {
    let initial = vec![
        Increment(1),
        Loop(vec![
            Increment(255),
            PointerIncrement(1),
            Increment(2),
            PointerIncrement(2),
            Increment(3),
            PointerIncrement(-3),
        ]),
    ];
    let expected = vec![Increment(1), MultiplyMove(table(&[(1, 2), (3, 3)]))];
    assert_eq!(sweep(&initial, true), (expected, true));
}

#[test]
fn sweep_multiply_move_to_the_left() {
    let initial = vec![
        Increment(1),
        Loop(vec![PointerIncrement(-1), Increment(1), PointerIncrement(1), Increment(255)]),
    ];
    let expected = vec![Increment(1), MultiplyMove(table(&[(-1, 1)]))];
    assert_eq!(sweep(&initial, true), (expected, true));
}

#[test]
fn sweep_not_multiply_move_when_pointer_drifts() {
    let initial =
        vec![Increment(1), Loop(vec![Increment(255), PointerIncrement(1), Increment(1)])];
    assert_eq!(sweep(&initial, true), (initial.clone(), false));
}

#[test]
fn sweep_not_multiply_move_when_start_cell_gains() {
    let initial = vec![
        Increment(1),
        Loop(vec![Increment(1), PointerIncrement(1), Increment(1), PointerIncrement(-1)]),
    ];
    assert_eq!(sweep(&initial, true), (initial.clone(), false));
}

#[test]
fn sweep_not_multiply_move_with_read_or_write() {
    let initial = vec![Increment(1), Loop(vec![Increment(255), Write])];
    assert_eq!(sweep(&initial, true), (initial.clone(), false));
    let initial = vec![Increment(1), Loop(vec![Increment(255), Read])];
    assert_eq!(sweep(&initial, true), (initial.clone(), false));
}

#[test]
fn optimize_once_merges_before_it_sweeps() {
    let initial = parse("+[+-+]").unwrap();
    assert_eq!(optimize_once(&initial), vec![Increment(1), SetCell(0)]);
}

#[test]
fn optimize_zero_folds() {
    let initial = parse("++[-]").unwrap();
    assert_eq!(optimize(initial), vec![Increment(2), SetCell(0)]);
}

#[test]
fn optimize_nested_to_fixed_point() {
    // The inner loop becomes a set, the set and the increment merge, and
    // the loop after the set of zero goes.
    let initial = parse("+[[-]+[-][.]]").unwrap();
    assert_eq!(optimize(initial), vec![Increment(1), Loop(vec![SetCell(0)])]);
}

#[test]
fn optimize_is_idempotent_on_examples() {
    let sources = ["", "+", "++[-]", "+[->+<]", ",[.,]", "+[[>>>>>>>>>]+>>>>>>>>>-]", "[-]+[+]"];
    for source in sources.iter() {
        let once = optimize(parse(source).unwrap());
        let twice = optimize(once.clone());
        assert_eq!(once, twice);
    }
}

#[test]
fn optimize_multiply_move_from_source() {
    let initial = parse("+[->++>>+++<<<]").unwrap();
    let expected = vec![Increment(1), MultiplyMove(table(&[(1, 2), (3, 3)]))];
    assert_eq!(optimize(initial), expected);
}

#[test]
fn same_program_tells_programs_apart() {
    let a = parse("+[->+<].").unwrap();
    let b = parse("+[->+<].").unwrap();
    let c = parse("+[->+<],").unwrap();
    assert!(same_program(&a, &b));
    assert!(!same_program(&a, &c));
    let m1: Vec<Instruction> = vec![MultiplyMove(table(&[(1, 2)]))];
    let m2: Vec<Instruction> = vec![MultiplyMove(table(&[(1, 2)]))];
    let m3: Vec<Instruction> = vec![MultiplyMove(table(&[(1, 3)]))];
    let m4: Vec<Instruction> = vec![MultiplyMove(table(&[(1, 2), (2, 1)]))];
    assert!(same_program(&m1, &m2));
    assert!(!same_program(&m1, &m3));
    assert!(!same_program(&m1, &m4));
    assert!(!same_program(&m4, &m1));
}

//! Proofs that compile-time execution keeps what a program does: what is
//! left to run, started on the machine it returns, does what the whole
//! program does.

use vstd::prelude::*;
use crate::bfir::Instr;
use crate::bounds::lemma_highest_index_nonnegative;
use crate::equivalence::lemma_machine_equal;
use crate::execution::{
    Outcome, Snapshot, execute_spec, initial_snapshot, lemma_speculate_bounds, speculate,
    table_applied, table_in_range,
};
use crate::bfir::cell_add;
use crate::semantics::{
    Machine, lemma_run_loop_monotone, lemma_run_monotone, lemma_run_output_grows, run, run_loop,
    step,
};

verus! {

/// The machine without ends that holds what `st` holds: its cells on the
/// indices of its tape and zero everywhere else, its pointer and its output.
/// Nothing has been read from `input`.
pub open spec fn machine_of(st: Snapshot, input: spec_fn(nat) -> u8) -> Machine {
    Machine {
        tape: |i: int|
            if 0 <= i < st.cells.len() {
                st.cells[i]
            } else {
                0u8
            },
        ptr: st.cell_ptr,
        input,
        consumed: 0,
        output: st.outputs,
    }
}

/// The instruction is one that compile-time execution performs on `st`:
/// no loop, no read, and nothing that leaves the tape.
pub open spec fn performs(i: Instr, st: Snapshot) -> bool {
    match i {
        Instr::PointerIncrement(d) => 0 <= st.cell_ptr + d < st.cells.len(),
        Instr::MultiplyMove(t) => table_in_range(t, st.cell_ptr, st.cells.len() as int),
        Instr::Read => false,
        Instr::Loop(_) => false,
        _ => true,
    }
}

/// What compile-time execution makes of `st` when it performs `i`.
pub open spec fn performed(i: Instr, st: Snapshot) -> Snapshot {
    match i {
        Instr::Increment(d) => st.stored(cell_add(st.current(), d)),
        Instr::SetCell(v) => st.stored(v),
        Instr::PointerIncrement(d) => Snapshot { cell_ptr: st.cell_ptr + d, ..st.advanced() },
        Instr::Write => Snapshot { outputs: st.outputs.push(st.current()), ..st.advanced() },
        Instr::MultiplyMove(t) => Snapshot {
            cells: table_applied(st.cells, st.cell_ptr, t),
            ..st.advanced()
        },
        _ => st.advanced(),
    }
}

/// What an instruction does on the tape with ends, where compile-time
/// execution performs it, it does on the machine without ends.
pub proof fn lemma_step_agrees(i: Instr, st: Snapshot, input: spec_fn(nat) -> u8)
    requires
        st.well_formed(),
    ensures
        performs(i, st) ==> machine_of(performed(i, st), input) == step(i, machine_of(st, input)),
        machine_of(st.advanced(), input) == machine_of(st, input),
        machine_of(st.entering(), input) == machine_of(st, input),
        machine_of(st, input).current() == st.current(),
{
    let m = machine_of(st, input);
    lemma_machine_equal(machine_of(st.advanced(), input), m);
    lemma_machine_equal(machine_of(st.entering(), input), m);
    if performs(i, st) {
        let left = machine_of(performed(i, st), input);
        let right = step(i, m);
        if let Instr::MultiplyMove(t) = i {
            assert forall|k: int| #[trigger] left.at(k) == right.at(k) by {
                if !(0 <= k < st.cells.len()) {
                    if t.contains_key(k - st.cell_ptr) {
                        assert(0 <= st.cell_ptr + (k - st.cell_ptr) < st.cells.len());
                    }
                }
            }
        }
        lemma_machine_equal(left, right);
    }
}

/// What is left of a program from an instruction on runs that instruction
/// and then what is left behind it.
pub proof fn lemma_skip_unfolds(p: Seq<Instr>, k: int)
    requires
        0 <= k < p.len(),
    ensures
        p.skip(k).len() > 0,
        p.skip(k)[0] == p[k],
        p.skip(k).drop_first() == p.skip(k + 1),
{
    assert(p.skip(k).drop_first() =~= p.skip(k + 1));
}

/// Where compile-time execution runs a program to its end, the machine
/// without ends does the same, with as much fuel as steps were taken.
pub proof fn lemma_completed_run(
    instrs: Seq<Instr>,
    st: Snapshot,
    steps: nat,
    input: spec_fn(nat) -> u8,
)
    requires
        st.well_formed(),
        0 <= st.instr_ptr <= instrs.len(),
        steps <= u64::MAX,
        speculate(instrs, st, steps).1 is Completed,
    ensures
        ({
            let (after, outcome) = speculate(instrs, st, steps);
            let left = outcome->Completed_0;
            &&& 0 < left <= steps
            &&& run(instrs.skip(st.instr_ptr), machine_of(st, input), (steps - left) as nat)
                == Some(machine_of(after, input))
        }),
    decreases steps, instrs,
{
    let (after, outcome) = speculate(instrs, st, steps);
    let left = outcome->Completed_0;
    let m = machine_of(st, input);
    let ip = st.instr_ptr;
    lemma_speculate_bounds(instrs, st, steps);
    lemma_step_agrees(Instr::Read, st, input);
    let used = (steps - left) as nat;
    if steps == 0 {
    } else if ip == instrs.len() {
        assert(instrs.skip(ip) =~= Seq::<Instr>::empty());
    } else {
        let i = instrs[ip];
        let p = instrs.skip(ip);
        lemma_skip_unfolds(instrs, ip);
        match i {
            Instr::Read => {},
            Instr::Loop(body) => {
                if st.current() == 0 {
                    let next = st.advanced();
                    lemma_completed_run(instrs, next, (steps - 1) as nat, input);
                    lemma_run_monotone(
                        instrs.skip(ip + 1),
                        m,
                        (steps - 1 - left) as nat,
                        used,
                    );
                    assert(run_loop(body, m, used) == Some(m));
                    assert(run(p, m, used) == Some(machine_of(after, input)));
                } else {
                    let (after_body, body_outcome) = speculate(body, st.entering(), steps);
                    lemma_speculate_bounds(body, st.entering(), steps);
                    let lb = body_outcome->Completed_0;
                    lemma_completed_run(body, st.entering(), steps, input);
                    let mb = machine_of(after_body, input);
                    assert(body.skip(0) =~= body);
                    let next = st.committed(after_body);
                    lemma_machine_equal(machine_of(next, input), mb);
                    lemma_completed_run(instrs, next, (lb - 1) as nat, input);
                    let tight = (lb - 1 - left) as nat;
                    let less = (used - 1) as nat;
                    lemma_run_monotone(body, m, (steps - lb) as nat, less);
                    let turned = run_loop(body, mb, tight);
                    assert(turned is Some);
                    lemma_run_loop_monotone(body, mb, tight, less);
                    lemma_run_monotone(instrs.skip(ip + 1), turned->0, tight, used);
                    assert(run(body, m, less) == Some(mb));
                    assert(run_loop(body, mb, less) == turned);
                    assert(run_loop(body, m, used) == turned);
                    assert(run(p, m, used) == Some(machine_of(after, input)));
                }
            },
            _ => {
                if performs(i, st) {
                    lemma_step_agrees(i, st, input);
                    let next = performed(i, st);
                    lemma_completed_run(instrs, next, (steps - 1) as nat, input);
                    lemma_run_monotone(
                        instrs.skip(ip + 1),
                        machine_of(next, input),
                        (steps - 1 - left) as nat,
                        used,
                    );
                    assert(run(p, m, used) == Some(machine_of(after, input)));
                }
            },
        }
    }
}

/// Two runs of one program on one machine that both end, end the same.
pub proof fn lemma_run_determined(p: Seq<Instr>, m: Machine, a: nat, b: nat)
    requires
        run(p, m, a) is Some,
        run(p, m, b) is Some,
    ensures
        run(p, m, a) == run(p, m, b),
{
    if a <= b {
        lemma_run_monotone(p, m, a, b);
    } else {
        lemma_run_monotone(p, m, b, a);
    }
}

/// Where the program from the instruction pointer on comes to an end on the
/// machine that compile-time execution started from, what is left comes to
/// the same end on the machine that it returned, with the same fuel.
pub proof fn lemma_residual_forward(
    instrs: Seq<Instr>,
    st: Snapshot,
    steps: nat,
    input: spec_fn(nat) -> u8,
    fuel: nat,
)
    requires
        st.well_formed(),
        0 <= st.instr_ptr <= instrs.len(),
        steps <= u64::MAX,
        run(instrs.skip(st.instr_ptr), machine_of(st, input), fuel) is Some,
    ensures
        ({
            let after = speculate(instrs, st, steps).0;
            run(instrs.skip(after.instr_ptr), machine_of(after, input), fuel) == run(
                instrs.skip(st.instr_ptr),
                machine_of(st, input),
                fuel,
            )
        }),
    decreases steps, instrs,
{
    let (after, outcome) = speculate(instrs, st, steps);
    let m = machine_of(st, input);
    let ip = st.instr_ptr;
    lemma_speculate_bounds(instrs, st, steps);
    lemma_step_agrees(Instr::Read, st, input);
    if steps == 0 {
    } else if ip == instrs.len() {
    } else {
        let i = instrs[ip];
        let p = instrs.skip(ip);
        let rest = instrs.skip(ip + 1);
        lemma_skip_unfolds(instrs, ip);
        match i {
            Instr::Read => {},
            Instr::Loop(body) => {
                if st.current() == 0 {
                    assert(run_loop(body, m, fuel) == Some(m));
                    lemma_residual_forward(instrs, st.advanced(), (steps - 1) as nat, input, fuel);
                } else {
                    let (after_body, body_outcome) = speculate(body, st.entering(), steps);
                    lemma_speculate_bounds(body, st.entering(), steps);
                    if let Outcome::Completed(lb) = body_outcome {
                        lemma_completed_run(body, st.entering(), steps, input);
                        let mb = machine_of(after_body, input);
                        assert(body.skip(0) =~= body);
                        let next = st.committed(after_body);
                        lemma_machine_equal(machine_of(next, input), mb);
                        let less = (fuel - 1) as nat;
                        assert(run_loop(body, m, fuel) is Some);
                        assert(run(body, m, less) is Some);
                        lemma_run_determined(body, m, less, (steps - lb) as nat);
                        assert(run(body, m, less) == Some(mb));
                        let turned = run_loop(body, mb, less);
                        assert(run_loop(body, m, fuel) == turned);
                        lemma_run_loop_monotone(body, mb, less, fuel);
                        assert(run(p, mb, fuel) == run(p, m, fuel));
                        lemma_residual_forward(instrs, next, (lb - 1) as nat, input, fuel);
                    }
                }
            },
            _ => {
                if performs(i, st) {
                    lemma_step_agrees(i, st, input);
                    lemma_residual_forward(
                        instrs,
                        performed(i, st),
                        (steps - 1) as nat,
                        input,
                        fuel,
                    );
                }
            },
        }
    }
}

/// Where what is left comes to an end on the machine that compile-time
/// execution returned, the program from the instruction pointer on comes to
/// the same end on the machine that it started from, with as much fuel more
/// as steps were allowed.
pub proof fn lemma_residual_backward(
    instrs: Seq<Instr>,
    st: Snapshot,
    steps: nat,
    input: spec_fn(nat) -> u8,
    fuel: nat,
)
    requires
        st.well_formed(),
        0 <= st.instr_ptr <= instrs.len(),
        steps <= u64::MAX,
        run(
            instrs.skip(speculate(instrs, st, steps).0.instr_ptr),
            machine_of(speculate(instrs, st, steps).0, input),
            fuel,
        ) is Some,
    ensures
        ({
            let after = speculate(instrs, st, steps).0;
            run(instrs.skip(st.instr_ptr), machine_of(st, input), fuel + steps) == run(
                instrs.skip(after.instr_ptr),
                machine_of(after, input),
                fuel,
            )
        }),
    decreases steps, instrs,
{
    let (after, outcome) = speculate(instrs, st, steps);
    let m = machine_of(st, input);
    let ip = st.instr_ptr;
    let goal = run(instrs.skip(after.instr_ptr), machine_of(after, input), fuel);
    let more = fuel + steps;
    lemma_speculate_bounds(instrs, st, steps);
    lemma_step_agrees(Instr::Read, st, input);
    if steps == 0 {
    } else if ip == instrs.len() {
        lemma_run_monotone(instrs.skip(ip), m, fuel, more);
    } else {
        let i = instrs[ip];
        let p = instrs.skip(ip);
        let rest = instrs.skip(ip + 1);
        lemma_skip_unfolds(instrs, ip);
        match i {
            Instr::Read => {
                lemma_run_monotone(p, m, fuel, more);
            },
            Instr::Loop(body) => {
                if st.current() == 0 {
                    assert(run_loop(body, m, more) == Some(m));
                    lemma_residual_backward(
                        instrs,
                        st.advanced(),
                        (steps - 1) as nat,
                        input,
                        fuel,
                    );
                    lemma_run_monotone(rest, m, (more - 1) as nat, more);
                } else {
                    let (after_body, body_outcome) = speculate(body, st.entering(), steps);
                    lemma_speculate_bounds(body, st.entering(), steps);
                    if let Outcome::Completed(lb) = body_outcome {
                        lemma_completed_run(body, st.entering(), steps, input);
                        let mb = machine_of(after_body, input);
                        assert(body.skip(0) =~= body);
                        let next = st.committed(after_body);
                        lemma_machine_equal(machine_of(next, input), mb);
                        lemma_residual_backward(instrs, next, (lb - 1) as nat, input, fuel);
                        let enough = (fuel + lb - 1) as nat;
                        assert(run(p, mb, enough) == goal);
                        let turned = run_loop(body, mb, enough);
                        assert(turned is Some);
                        let less = (more - 1) as nat;
                        lemma_run_monotone(body, m, (steps - lb) as nat, less);
                        lemma_run_loop_monotone(body, mb, enough, less);
                        assert(run_loop(body, m, more) == turned);
                        lemma_run_monotone(rest, turned->0, enough, more);
                    } else {
                        lemma_run_monotone(p, m, fuel, more);
                    }
                }
            },
            _ => {
                if performs(i, st) {
                    lemma_step_agrees(i, st, input);
                    let next = performed(i, st);
                    lemma_residual_backward(instrs, next, (steps - 1) as nat, input, fuel);
                    lemma_run_monotone(rest, machine_of(next, input), (more - 1) as nat, more);
                } else {
                    lemma_run_monotone(p, m, fuel, more);
                }
            },
        }
    }
}

/// Compile-time execution keeps what a program does. Started on a zeroed
/// machine, the whole program comes to an end exactly if what is left to
/// run does, started on the machine that compile-time execution returned;
/// and then both leave the same tape, the same pointer and the same output,
/// whatever the input.
pub proof fn lemma_execute_residual(
    p: Seq<Instr>,
    steps: nat,
    input: spec_fn(nat) -> u8,
    fuel: nat,
)
    requires
        steps <= u64::MAX,
    ensures
        ({
            let after = execute_spec(p, steps);
            let whole = run(p, machine_of(initial_snapshot(p), input), fuel);
            let left = run(p.skip(after.instr_ptr), machine_of(after, input), fuel);
            &&& 0 <= after.instr_ptr <= p.len()
            &&& whole is Some ==> left == whole
            &&& left is Some ==> run(p, machine_of(initial_snapshot(p), input), fuel + steps)
                == left
        }),
{
    let st = initial_snapshot(p);
    lemma_highest_index_nonnegative(p);
    lemma_speculate_bounds(p, st, steps);
    assert(p.skip(0) =~= p);
    if run(p, machine_of(st, input), fuel) is Some {
        lemma_residual_forward(p, st, steps, input, fuel);
    }
    let after = execute_spec(p, steps);
    if run(p.skip(after.instr_ptr), machine_of(after, input), fuel) is Some {
        lemma_residual_backward(p, st, steps, input, fuel);
    }
}

/// What compile-time execution has written is the beginning of what the
/// program writes when it runs: the bytes come in the order in which the
/// running program gives them.
pub proof fn lemma_outputs_come_first(
    p: Seq<Instr>,
    steps: nat,
    input: spec_fn(nat) -> u8,
    fuel: nat,
)
    requires
        steps <= u64::MAX,
        run(p, machine_of(initial_snapshot(p), input), fuel) is Some,
    ensures
        execute_spec(p, steps).outputs.is_prefix_of(
            run(p, machine_of(initial_snapshot(p), input), fuel)->0.output,
        ),
{
    let after = execute_spec(p, steps);
    lemma_execute_residual(p, steps, input, fuel);
    lemma_run_output_grows(p.skip(after.instr_ptr), machine_of(after, input), fuel);
}

} // verus!

//! What a program means: its run on a machine whose tape has no ends.

use vstd::prelude::*;
use crate::bfir::{Instr, cell_add, cell_mul};

verus! {

/// A machine with a tape that extends without end in both directions.
pub ghost struct Machine {
    /// The value of each cell.
    pub tape: spec_fn(int) -> u8,
    /// The index of the current cell.
    pub ptr: int,
    /// The bytes that reading yields, by how many were read before.
    pub input: spec_fn(nat) -> u8,
    /// How many bytes have been read.
    pub consumed: nat,
    /// The bytes written so far.
    pub output: Seq<u8>,
}

impl Machine {
    /// The value of the cell at index `i`.
    pub open spec fn at(self, i: int) -> u8 {
        (self.tape)(i)
    }

    /// The value of the current cell.
    pub open spec fn current(self) -> u8 {
        (self.tape)(self.ptr)
    }

    /// The same machine with `v` in the current cell.
    pub open spec fn store(self, v: u8) -> Machine {
        Machine {
            tape: |i: int|
                if i == self.ptr {
                    v
                } else {
                    (self.tape)(i)
                },
            ..self
        }
    }

    /// The machine after a multiply-move with table `t`.
    pub open spec fn multiply_moved(self, t: Map<int, u8>) -> Machine {
        Machine {
            tape: |i: int|
                if i == self.ptr {
                    0u8
                } else if t.contains_key(i - self.ptr) {
                    cell_add((self.tape)(i), cell_mul(self.current(), t[i - self.ptr]))
                } else {
                    (self.tape)(i)
                },
            ..self
        }
    }
}

/// The machine that every program starts on: all cells zero, the pointer on
/// the first, nothing read or written.
pub open spec fn zeroed_machine(input: spec_fn(nat) -> u8) -> Machine {
    Machine { tape: |i: int| 0u8, ptr: 0, input, consumed: 0, output: Seq::empty() }
}

/// The machine after one instruction other than a loop (a loop leaves it).
pub open spec fn step(i: Instr, m: Machine) -> Machine {
    match i {
        Instr::Increment(d) => m.store(cell_add(m.current(), d)),
        Instr::SetCell(v) => m.store(v),
        Instr::PointerIncrement(d) => Machine { ptr: m.ptr + d, ..m },
        Instr::Read => Machine { consumed: m.consumed + 1, ..m.store((m.input)(m.consumed)) },
        Instr::Write => Machine { output: m.output.push(m.current()), ..m },
        Instr::MultiplyMove(t) => m.multiply_moved(t),
        Instr::Loop(_) => m,
    }
}

/// The machine after `p` has run on `m`, or `None` if `fuel` does not
/// suffice: each turn of a loop takes one unit from what its body and the
/// turns after it may use.
pub open spec fn run(p: Seq<Instr>, m: Machine, fuel: nat) -> Option<Machine>
    decreases fuel, p, 0nat,
{
    if p.len() == 0 {
        Some(m)
    } else {
        match p[0] {
            Instr::Loop(body) => match run_loop(body, m, fuel) {
                Some(after) => run(p.drop_first(), after, fuel),
                None => None,
            },
            i => run(p.drop_first(), step(i, m), fuel),
        }
    }
}

/// The machine after a loop with this body has run on `m`, or `None` if
/// `fuel` does not suffice.
pub open spec fn run_loop(body: Seq<Instr>, m: Machine, fuel: nat) -> Option<Machine>
    decreases fuel, body, 1nat,
{
    if m.current() == 0 {
        Some(m)
    } else if fuel == 0 {
        None
    } else {
        match run(body, m, (fuel - 1) as nat) {
            Some(after) => run_loop(body, after, (fuel - 1) as nat),
            None => None,
        }
    }
}

/// `p` comes to an end on `m`.
pub open spec fn terminates(p: Seq<Instr>, m: Machine) -> bool {
    exists|fuel: nat| run(p, m, fuel) is Some
}

/// A run that ends with some fuel ends the same way with more.
pub proof fn lemma_run_monotone(p: Seq<Instr>, m: Machine, fuel: nat, more: nat)
    requires
        run(p, m, fuel) is Some,
        fuel <= more,
    ensures
        run(p, m, more) == run(p, m, fuel),
    decreases fuel, p, 0nat,
{
    if p.len() > 0 {
        match p[0] {
            Instr::Loop(body) => {
                lemma_run_loop_monotone(body, m, fuel, more);
                lemma_run_monotone(p.drop_first(), run_loop(body, m, fuel)->0, fuel, more);
            },
            i => {
                lemma_run_monotone(p.drop_first(), step(i, m), fuel, more);
            },
        }
    }
}

/// A loop that ends with some fuel ends the same way with more.
pub proof fn lemma_run_loop_monotone(body: Seq<Instr>, m: Machine, fuel: nat, more: nat)
    requires
        run_loop(body, m, fuel) is Some,
        fuel <= more,
    ensures
        run_loop(body, m, more) == run_loop(body, m, fuel),
    decreases fuel, body, 1nat,
{
    if m.current() != 0 {
        lemma_run_monotone(body, m, (fuel - 1) as nat, (more - 1) as nat);
        lemma_run_loop_monotone(
            body,
            run(body, m, (fuel - 1) as nat)->0,
            (fuel - 1) as nat,
            (more - 1) as nat,
        );
    }
}

/// A run only adds to the output.
pub proof fn lemma_run_output_grows(p: Seq<Instr>, m: Machine, fuel: nat)
    requires
        run(p, m, fuel) is Some,
    ensures
        m.output.is_prefix_of(run(p, m, fuel)->0.output),
    decreases fuel, p, 0nat,
{
    if p.len() > 0 {
        match p[0] {
            Instr::Loop(body) => {
                lemma_run_loop_output_grows(body, m, fuel);
                lemma_run_output_grows(p.drop_first(), run_loop(body, m, fuel)->0, fuel);
            },
            i => {
                lemma_run_output_grows(p.drop_first(), step(i, m), fuel);
            },
        }
    }
}

/// A loop only adds to the output.
pub proof fn lemma_run_loop_output_grows(body: Seq<Instr>, m: Machine, fuel: nat)
    requires
        run_loop(body, m, fuel) is Some,
    ensures
        m.output.is_prefix_of(run_loop(body, m, fuel)->0.output),
    decreases fuel, body, 1nat,
{
    if m.current() != 0 {
        lemma_run_output_grows(body, m, (fuel - 1) as nat);
        lemma_run_loop_output_grows(
            body,
            run(body, m, (fuel - 1) as nat)->0,
            (fuel - 1) as nat,
        );
    }
}

/// Running `a` and then `b`.
pub open spec fn run_then(a: Seq<Instr>, b: Seq<Instr>, m: Machine, fuel: nat) -> Option<Machine> {
    match run(a, m, fuel) {
        Some(mid) => run(b, mid, fuel),
        None => None,
    }
}

/// A program made of two parts runs the first and then the second.
pub proof fn lemma_run_concat(a: Seq<Instr>, b: Seq<Instr>, m: Machine, fuel: nat)
    ensures
        run(a + b, m, fuel) == run_then(a, b, m, fuel),
    decreases a.len(),
{
    if a.len() == 0 {
        assert(a + b =~= b);
    } else {
        assert((a + b).drop_first() =~= a.drop_first() + b);
        assert((a + b)[0] == a[0]);
        match a[0] {
            Instr::Loop(body) => {
                if let Some(after) = run_loop(body, m, fuel) {
                    lemma_run_concat(a.drop_first(), b, after, fuel);
                }
            },
            i => {
                lemma_run_concat(a.drop_first(), b, step(i, m), fuel);
            },
        }
    }
}

/// What a single instruction does.
pub open spec fn run_one(i: Instr, m: Machine, fuel: nat) -> Option<Machine> {
    match i {
        Instr::Loop(body) => run_loop(body, m, fuel),
        _ => Some(step(i, m)),
    }
}

/// A program of one instruction does what the instruction does.
pub proof fn lemma_run_single(i: Instr, m: Machine, fuel: nat)
    ensures
        run(seq![i], m, fuel) == run_one(i, m, fuel),
{
    let p = seq![i];
    assert(p.drop_first() =~= Seq::<Instr>::empty());
    assert(p[0] == i);
    match i {
        Instr::Loop(body) => {
            if let Some(after) = run_loop(body, m, fuel) {
                assert(run(p.drop_first(), after, fuel) == Some(after));
            }
        },
        _ => {
            assert(run(p.drop_first(), step(i, m), fuel) == Some(step(i, m)));
        },
    }
}

/// A program runs all but its last instruction, and then the last.
pub proof fn lemma_run_push(p: Seq<Instr>, i: Instr, m: Machine, fuel: nat)
    ensures
        run(p.push(i), m, fuel) == match run(p, m, fuel) {
            Some(mid) => run_one(i, mid, fuel),
            None => None,
        },
{
    assert(p.push(i) =~= p + seq![i]);
    lemma_run_concat(p, seq![i], m, fuel);
    if let Some(mid) = run(p, m, fuel) {
        lemma_run_single(i, mid, fuel);
    }
}

} // verus!

//! Which cells a run touches, and the proof that the tape sizing covers
//! them.

use vstd::prelude::*;
use crate::bfir::{Instr, Instruction, program_view};
use crate::bounds::{
    highest_index, lemma_highest_index_nonnegative, lemma_offsets_view_finite, lemma_table_reach,
};
use crate::semantics::{Machine, run, run_loop, step};

verus! {

/// The instruction, which is no loop, touches the cell at index `j` when it
/// runs on `m`: it reads it, writes it or moves the pointer to it.
pub open spec fn touches(i: Instr, m: Machine, j: int) -> bool {
    match i {
        Instr::Increment(_) => j == m.ptr,
        Instr::SetCell(_) => j == m.ptr,
        Instr::Read => j == m.ptr,
        Instr::Write => j == m.ptr,
        Instr::PointerIncrement(d) => j == m.ptr + d,
        Instr::MultiplyMove(t) => j == m.ptr || t.contains_key(j - m.ptr),
        Instr::Loop(_) => false,
    }
}

/// The run of `p` on `m`, as far as `fuel` takes it, touches the cell at
/// index `j`.
pub open spec fn run_touches(p: Seq<Instr>, m: Machine, fuel: nat, j: int) -> bool
    decreases fuel, p, 0nat,
{
    if p.len() == 0 {
        false
    } else {
        match p[0] {
            Instr::Loop(body) => loop_touches(body, m, fuel, j) || match run_loop(body, m, fuel) {
                Some(after) => run_touches(p.drop_first(), after, fuel, j),
                None => false,
            },
            i => touches(i, m, j) || run_touches(p.drop_first(), step(i, m), fuel, j),
        }
    }
}

/// The run of a loop with this body on `m`, as far as `fuel` takes it,
/// touches the cell at index `j`: in testing the current cell before a turn,
/// or in a turn.
pub open spec fn loop_touches(body: Seq<Instr>, m: Machine, fuel: nat, j: int) -> bool
    decreases fuel, body, 1nat,
{
    j == m.ptr || (m.current() != 0 && fuel > 0 && (run_touches(body, m, (fuel - 1) as nat, j)
        || match run(body, m, (fuel - 1) as nat) {
        Some(after) => loop_touches(body, after, (fuel - 1) as nat, j),
        None => false,
    }))
}

/// The sum of the pointer moves of `p`, loops not counted.
pub open spec fn net_move(p: Seq<Instr>) -> int
    decreases p,
{
    if p.len() == 0 {
        0
    } else {
        match p[0] {
            Instr::PointerIncrement(d) => d + net_move(p.drop_first()),
            _ => net_move(p.drop_first()),
        }
    }
}

/// No loop of `p` ends a turn further right than it began it: the moves of
/// each loop body, the loops in it not counted, sum to zero or less.
pub open spec fn loops_settle(p: Seq<Instr>) -> bool
    decreases p,
{
    p.len() == 0 || {
        &&& loops_settle(p.drop_first())
        &&& match p[0] {
            Instr::Loop(body) => loops_settle(body) && net_move(body) <= 0,
            _ => true,
        }
    }
}

/// Every multiply-move table of `p` has finitely many offsets.
pub open spec fn tables_finite(p: Seq<Instr>) -> bool
    decreases p,
{
    p.len() == 0 || {
        &&& tables_finite(p.drop_first())
        &&& match p[0] {
            Instr::Loop(body) => tables_finite(body),
            Instr::MultiplyMove(t) => t.dom().finite(),
            _ => true,
        }
    }
}

/// Where no loop drifts to the right, a run touches no cell further from
/// its start than the highest index says, and ends no further right than
/// its pointer moves sum to.
pub proof fn lemma_run_reach(p: Seq<Instr>, m: Machine, fuel: nat, j: int)
    requires
        loops_settle(p),
        tables_finite(p),
    ensures
        run_touches(p, m, fuel, j) ==> j <= m.ptr + highest_index(p),
        run(p, m, fuel) is Some ==> run(p, m, fuel)->0.ptr <= m.ptr + net_move(p),
    decreases fuel, p, 0nat,
{
    if p.len() > 0 {
        let rest = p.drop_first();
        lemma_highest_index_nonnegative(rest);
        lemma_highest_index_nonnegative(p);
        match p[0] {
            Instr::Loop(body) => {
                lemma_highest_index_nonnegative(body);
                lemma_loop_reach(body, m, fuel, j);
                if let Some(after) = run_loop(body, m, fuel) {
                    lemma_run_reach(rest, after, fuel, j);
                }
            },
            Instr::MultiplyMove(t) => {
                lemma_table_reach(t);
                lemma_run_reach(rest, step(p[0], m), fuel, j);
            },
            i => {
                lemma_run_reach(rest, step(i, m), fuel, j);
            },
        }
    }
}

/// Where neither the loop nor a loop in its body drifts to the right, the
/// loop touches no cell further from its start than the highest index of
/// its body says, and ends no further right than it began.
pub proof fn lemma_loop_reach(body: Seq<Instr>, m: Machine, fuel: nat, j: int)
    requires
        loops_settle(body),
        tables_finite(body),
        net_move(body) <= 0,
    ensures
        loop_touches(body, m, fuel, j) ==> j <= m.ptr + highest_index(body),
        run_loop(body, m, fuel) is Some ==> run_loop(body, m, fuel)->0.ptr <= m.ptr,
    decreases fuel, body, 1nat,
{
    lemma_highest_index_nonnegative(body);
    if m.current() != 0 && fuel > 0 {
        lemma_run_reach(body, m, (fuel - 1) as nat, j);
        if let Some(after) = run(body, m, (fuel - 1) as nat) {
            lemma_loop_reach(body, after, (fuel - 1) as nat, j);
        }
    }
}

/// The tables of a program as the machine holds it are finite.
pub proof fn lemma_view_tables_finite(p: Seq<Instruction>)
    ensures
        tables_finite(program_view(p)),
    decreases p,
{
    broadcast use vstd::std_specs::hash::group_hash_axioms;

    let v = program_view(p);
    if p.len() > 0 {
        assert(v.drop_first() =~= program_view(p.drop_first()));
        lemma_view_tables_finite(p.drop_first());
        match p[0] {
            Instruction::Loop(body) => {
                lemma_view_tables_finite(body@);
            },
            Instruction::MultiplyMove(t) => {
                lemma_offsets_view_finite(t@);
            },
            _ => {},
        }
    }
}

/// The tape sizing is sound: where no loop of `p` drifts to the right,
/// every cell that a run of `p` from index zero reads or writes, and every
/// cell that it moves the pointer to, has an index of at most
/// `highest_index(p)`.
pub proof fn lemma_bounds_sound(p: Seq<Instr>, m: Machine, fuel: nat, j: int)
    requires
        loops_settle(p),
        tables_finite(p),
        m.ptr == 0,
        run_touches(p, m, fuel, j),
    ensures
        j <= highest_index(p),
{
    lemma_run_reach(p, m, fuel, j);
}

} // verus!

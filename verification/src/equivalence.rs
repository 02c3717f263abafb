//! Proofs that the optimiser keeps what a program does.

use vstd::prelude::*;
use crate::bfir::{Instr, cell_add, cell_mul};
use crate::peephole::{
    Effect, appended, body_effect, combined, delta_at, is_zeroing, multiply_table, optimized,
    pass, swept,
};
use crate::semantics::{
    Machine, lemma_run_loop_monotone, lemma_run_monotone, lemma_run_push, run, run_loop, step,
    terminates, zeroed_machine,
};

verus! {

/// Two machines with the same cells, pointer, input and output are one.
pub proof fn lemma_machine_equal(a: Machine, b: Machine)
    requires
        forall|i: int| #[trigger] a.at(i) == b.at(i),
        a.ptr == b.ptr,
        a.input == b.input,
        a.consumed == b.consumed,
        a.output == b.output,
    ensures
        a == b,
{
    assert forall|i: int| #[trigger] (a.tape)(i) == (b.tape)(i) by {
        assert(a.at(i) == b.at(i));
    }
    assert(a.tape =~= b.tape);
}

/// The sum of two cells is their sum as integers, less 256 where that is
/// too large for a cell.
pub proof fn lemma_cell_add_wraps(a: u8, b: u8)
    ensures
        cell_add(a, b) == if a + b < 256 {
            a + b
        } else {
            a + b - 256
        },
{
    let x = a as int + b as int;
    if x < 256 {
        assert(x % 256 == x) by (nonlinear_arith)
            requires
                0 <= x < 256,
        ;
    } else {
        assert(x % 256 == x - 256) by (nonlinear_arith)
            requires
                256 <= x < 512,
        ;
    }
}

/// Adding cells does not depend on the grouping.
pub proof fn lemma_cell_add_assoc(a: u8, b: u8, c: u8)
    ensures
        cell_add(cell_add(a, b), c) == cell_add(a, cell_add(b, c)),
        cell_add(a, 0) == a,
{
    lemma_cell_add_wraps(a, b);
    lemma_cell_add_wraps(b, c);
    lemma_cell_add_wraps(cell_add(a, b), c);
    lemma_cell_add_wraps(a, cell_add(b, c));
    lemma_cell_add_wraps(a, 0);
}

/// Two increments in a row are one increment by their sum, and nothing at
/// all where the sum is zero.
pub proof fn lemma_fuse_increments(a: u8, b: u8, m: Machine)
    ensures
        step(Instr::Increment(b), step(Instr::Increment(a), m)) == step(
            Instr::Increment(cell_add(a, b)),
            m,
        ),
        cell_add(a, b) == 0 ==> step(Instr::Increment(b), step(Instr::Increment(a), m)) == m,
{
    let two = step(Instr::Increment(b), step(Instr::Increment(a), m));
    let one = step(Instr::Increment(cell_add(a, b)), m);
    lemma_cell_add_assoc(m.current(), a, b);
    lemma_machine_equal(two, one);
    if cell_add(a, b) == 0 {
        lemma_machine_equal(two, m);
    }
}

/// Two pointer moves in a row are one move by their sum, and nothing at all
/// where the sum is zero.
pub proof fn lemma_fuse_moves(a: int, b: int, m: Machine)
    ensures
        step(Instr::PointerIncrement(b), step(Instr::PointerIncrement(a), m)) == step(
            Instr::PointerIncrement(a + b),
            m,
        ),
        a + b == 0 ==> step(Instr::PointerIncrement(b), step(Instr::PointerIncrement(a), m)) == m,
{
    let two = step(Instr::PointerIncrement(b), step(Instr::PointerIncrement(a), m));
    lemma_machine_equal(two, step(Instr::PointerIncrement(a + b), m));
    if a + b == 0 {
        lemma_machine_equal(two, m);
    }
}

/// An increment after a set is a set of the sum.
pub proof fn lemma_fuse_set_increment(v: u8, d: u8, m: Machine)
    ensures
        step(Instr::Increment(d), step(Instr::SetCell(v), m)) == step(
            Instr::SetCell(cell_add(v, d)),
            m,
        ),
{
    lemma_machine_equal(
        step(Instr::Increment(d), step(Instr::SetCell(v), m)),
        step(Instr::SetCell(cell_add(v, d)), m),
    );
}

/// A set is lost when a set or a read follows it.
pub proof fn lemma_set_overwritten(v: u8, i: Instr, m: Machine)
    requires
        i is SetCell || i is Read,
    ensures
        step(i, step(Instr::SetCell(v), m)) == step(i, m),
{
    lemma_machine_equal(step(i, step(Instr::SetCell(v), m)), step(i, m));
}

/// What a program does whose last instruction is no loop.
pub proof fn lemma_run_push_step(p: Seq<Instr>, i: Instr, m: Machine, fuel: nat)
    requires
        !(i is Loop),
    ensures
        run(p.push(i), m, fuel) == match run(p, m, fuel) {
            Some(mid) => Some(step(i, mid)),
            None => None,
        },
{
    lemma_run_push(p, i, m, fuel);
}

/// Merging the last instruction of a program with the next one keeps what
/// the program does.
pub proof fn lemma_appended_run(out: Seq<Instr>, i: Instr, m: Machine, fuel: nat)
    ensures
        run(appended(out, i), m, fuel) == run(out.push(i), m, fuel),
{
    if out.len() == 0 {
        assert(seq![i] =~= out.push(i));
    } else if appended(out, i) != out.push(i) {
        let front = out.drop_last();
        let last = out.last();
        assert(front.push(last) =~= out);
        assert(!(last is Loop) && !(i is Loop));
        lemma_run_push_step(out, i, m, fuel);
        lemma_run_push_step(front, last, m, fuel);
        let start = run(front, m, fuel);
        if let Some(m0) = start {
            assert(run(out.push(i), m, fuel) == Some(step(i, step(last, m0))));
            match last {
                Instr::Increment(a) => {
                    if let Instr::Increment(b) = i {
                        lemma_fuse_increments(a, b, m0);
                        lemma_run_push_step(front, Instr::Increment(cell_add(a, b)), m, fuel);
                    }
                },
                Instr::PointerIncrement(a) => {
                    if let Instr::PointerIncrement(b) = i {
                        lemma_fuse_moves(a, b, m0);
                        lemma_run_push_step(front, Instr::PointerIncrement(a + b), m, fuel);
                    }
                },
                Instr::SetCell(v) => {
                    if let Instr::Increment(d) = i {
                        lemma_fuse_set_increment(v, d, m0);
                        lemma_run_push_step(front, Instr::SetCell(cell_add(v, d)), m, fuel);
                    } else {
                        lemma_set_overwritten(v, i, m0);
                        lemma_run_push_step(front, i, m, fuel);
                    }
                },
                _ => {},
            }
        } else {
            assert(run(out.push(i), m, fuel) is None);
            match last {
                Instr::Increment(a) => {
                    if let Instr::Increment(b) = i {
                        lemma_run_push_step(front, Instr::Increment(cell_add(a, b)), m, fuel);
                    }
                },
                Instr::PointerIncrement(a) => {
                    if let Instr::PointerIncrement(b) = i {
                        lemma_run_push_step(front, Instr::PointerIncrement(a + b), m, fuel);
                    }
                },
                Instr::SetCell(v) => {
                    if let Instr::Increment(d) = i {
                        lemma_run_push_step(front, Instr::SetCell(cell_add(v, d)), m, fuel);
                    } else {
                        lemma_run_push_step(front, i, m, fuel);
                    }
                },
                _ => {},
            }
        }
    }
}

/// Loops whose bodies do the same do the same.
pub proof fn lemma_loop_same(a: Seq<Instr>, b: Seq<Instr>, m: Machine, fuel: nat)
    requires
        forall|m2: Machine, f2: nat| #[trigger] run(a, m2, f2) == run(b, m2, f2),
    ensures
        run_loop(a, m, fuel) == run_loop(b, m, fuel),
    decreases fuel,
{
    if m.current() != 0 && fuel > 0 {
        if let Some(after) = run(a, m, (fuel - 1) as nat) {
            lemma_loop_same(a, b, after, (fuel - 1) as nat);
        }
    }
}

/// The merging sweep keeps what a program does, on every machine and with
/// every amount of fuel.
pub proof fn lemma_combined_run(p: Seq<Instr>, m: Machine, fuel: nat)
    ensures
        run(combined(p), m, fuel) == run(p, m, fuel),
    decreases p,
{
    if p.len() > 0 {
        let front = p.drop_last();
        let last = p.last();
        assert(front.push(last) =~= p);
        let i = match last {
            Instr::Loop(body) => Instr::Loop(combined(body)),
            other => other,
        };
        lemma_appended_run(combined(front), i, m, fuel);
        lemma_run_push(combined(front), i, m, fuel);
        lemma_run_push(front, last, m, fuel);
        lemma_combined_run(front, m, fuel);
        if let Some(mid) = run(front, m, fuel) {
            if let Instr::Loop(body) = last {
                assert forall|m2: Machine, f2: nat| #[trigger]
                    run(combined(body), m2, f2) == run(body, m2, f2) by {
                    lemma_combined_run(body, m2, f2);
                }
                lemma_loop_same(combined(body), body, mid, fuel);
            }
        }
    }
}

/// A program of nothing but increments and pointer moves.
pub open spec fn is_straight(p: Seq<Instr>) -> bool {
    forall|k: int| 0 <= k < p.len() ==> (#[trigger] p[k]) is Increment || p[k] is PointerIncrement
}

/// A body that has an effect is straight.
pub proof fn lemma_effect_straight(body: Seq<Instr>)
    requires
        body_effect(body) is Some,
    ensures
        is_straight(body),
    decreases body.len(),
{
    if body.len() > 0 {
        lemma_effect_straight(body.drop_last());
        assert forall|k: int| 0 <= k < body.len() implies (#[trigger] body[k]) is Increment
            || body[k] is PointerIncrement by {
            if k < body.len() - 1 {
                assert(body.drop_last()[k] == body[k]);
            }
        }
    }
}

/// The loop sweep, started where the cell is not known to hold zero, gives
/// a straight program only from that same program.
pub proof fn lemma_swept_straight(p: Seq<Instr>)
    requires
        is_straight(swept(p, false).0),
    ensures
        swept(p, false) == (p, false),
    decreases p,
{
    if p.len() == 0 {
        assert(swept(p, false).0 =~= p);
    } else {
        let front = p.drop_last();
        let (out, z) = swept(front, false);
        let result = swept(p, false).0;
        assert(front.push(p.last()) =~= p);
        if result == out {
            lemma_swept_straight(front);
        } else {
            assert(result.drop_last() =~= out);
            assert forall|k: int| 0 <= k < out.len() implies (#[trigger] out[k]) is Increment
                || out[k] is PointerIncrement by {
                assert(result[k] == out[k]);
            }
            lemma_swept_straight(front);
            assert(result[result.len() - 1] is Increment || result[result.len() - 1]
                is PointerIncrement);
        }
    }
}

/// The machine after a straight run with the given effect.
pub open spec fn shifted(m: Machine, e: Effect) -> Machine {
    Machine {
        tape: |i: int| cell_add(m.at(i), delta_at(e.deltas, i - m.ptr)),
        ptr: m.ptr + e.offset,
        ..m
    }
}

/// An increment after a straight run is a straight run with the increment
/// counted in.
pub proof fn lemma_shifted_increment(m: Machine, e: Effect, d: u8)
    ensures
        step(Instr::Increment(d), shifted(m, e)) == shifted(
            m,
            Effect {
                offset: e.offset,
                deltas: e.deltas.insert(e.offset, cell_add(delta_at(e.deltas, e.offset), d)),
            },
        ),
{
    let after = Effect {
        offset: e.offset,
        deltas: e.deltas.insert(e.offset, cell_add(delta_at(e.deltas, e.offset), d)),
    };
    let left = step(Instr::Increment(d), shifted(m, e));
    let right = shifted(m, after);
    let here = m.ptr + e.offset;
    assert forall|i: int| #[trigger] left.at(i) == right.at(i) by {
        if i == here {
            lemma_cell_add_assoc(m.at(i), delta_at(e.deltas, e.offset), d);
            assert(left.at(i) == cell_add(cell_add(m.at(i), delta_at(e.deltas, e.offset)), d));
            assert(delta_at(after.deltas, i - m.ptr) == cell_add(
                delta_at(e.deltas, e.offset),
                d,
            ));
        } else {
            assert(delta_at(after.deltas, i - m.ptr) == delta_at(e.deltas, i - m.ptr));
            assert(left.at(i) == shifted(m, e).at(i));
        }
    }
    lemma_machine_equal(left, right);
}

/// A pointer move after a straight run is a straight run that ends further
/// on.
pub proof fn lemma_shifted_move(m: Machine, e: Effect, d: int)
    ensures
        step(Instr::PointerIncrement(d), shifted(m, e)) == shifted(
            m,
            Effect { offset: e.offset + d, deltas: e.deltas },
        ),
{
    let left = step(Instr::PointerIncrement(d), shifted(m, e));
    let right = shifted(m, Effect { offset: e.offset + d, deltas: e.deltas });
    assert forall|i: int| #[trigger] left.at(i) == right.at(i) by {
        assert(left.at(i) == shifted(m, e).at(i));
    }
    lemma_machine_equal(left, right);
}

/// A run with no effect leaves the machine as it is.
pub proof fn lemma_shifted_nothing(m: Machine)
    ensures
        shifted(m, Effect { offset: 0, deltas: Map::empty() }) == m,
{
    let e = Effect { offset: 0, deltas: Map::empty() };
    assert forall|i: int| #[trigger] shifted(m, e).at(i) == m.at(i) by {
        assert(delta_at(e.deltas, i - m.ptr) == 0);
        lemma_cell_add_assoc(m.at(i), 0, 0);
    }
    lemma_machine_equal(shifted(m, e), m);
}

/// A straight body does what its effect says, whatever the fuel.
pub proof fn lemma_straight_run(body: Seq<Instr>, m: Machine, fuel: nat)
    requires
        body_effect(body) is Some,
    ensures
        run(body, m, fuel) == Some(shifted(m, body_effect(body)->0)),
    decreases body.len(),
{
    if body.len() == 0 {
        lemma_shifted_nothing(m);
    } else {
        let front = body.drop_last();
        let last = body.last();
        assert(front.push(last) =~= body);
        lemma_straight_run(front, m, fuel);
        let e0 = body_effect(front)->0;
        lemma_run_push_step(front, last, m, fuel);
        match last {
            Instr::Increment(d) => {
                lemma_shifted_increment(m, e0, d);
            },
            Instr::PointerIncrement(d) => {
                lemma_shifted_move(m, e0, d);
            },
            _ => {},
        }
    }
}

/// A loop that only changes the current cell by a fixed amount can end in
/// one way only: with zero in that cell and all else as it was.
pub proof fn lemma_counting_loop_result(d: u8, m: Machine, fuel: nat)
    requires
        run_loop(seq![Instr::Increment(d)], m, fuel) is Some,
    ensures
        run_loop(seq![Instr::Increment(d)], m, fuel) == Some(m.store(0)),
    decreases fuel,
{
    let body = seq![Instr::Increment(d)];
    if m.current() == 0 {
        lemma_machine_equal(m, m.store(0));
    } else {
        crate::semantics::lemma_run_single(Instr::Increment(d), m, (fuel - 1) as nat);
        let next = step(Instr::Increment(d), m);
        lemma_counting_loop_result(d, next, (fuel - 1) as nat);
        lemma_machine_equal(next.store(0), m.store(0));
    }
}

/// A loop that takes one from the current cell ends once it has turned as
/// often as the cell says.
pub proof fn lemma_countdown_ends(m: Machine, fuel: nat)
    requires
        fuel >= m.current(),
    ensures
        run_loop(seq![Instr::Increment(255)], m, fuel) == Some(m.store(0)),
    decreases m.current(),
{
    let i = Instr::Increment(255);
    if m.current() == 0 {
        lemma_machine_equal(m, m.store(0));
    } else {
        crate::semantics::lemma_run_single(i, m, (fuel - 1) as nat);
        let next = step(i, m);
        assert(next.current() == m.current() - 1);
        lemma_countdown_ends(next, (fuel - 1) as nat);
        lemma_machine_equal(next.store(0), m.store(0));
    }
}

/// A loop that adds one to the current cell ends once the cell has wrapped
/// to zero.
pub proof fn lemma_countup_ends(m: Machine, fuel: nat)
    requires
        fuel >= 256 - m.current(),
    ensures
        run_loop(seq![Instr::Increment(1)], m, fuel) == Some(m.store(0)),
    decreases 256 - m.current(),
{
    let i = Instr::Increment(1);
    if m.current() == 0 {
        lemma_machine_equal(m, m.store(0));
    } else {
        crate::semantics::lemma_run_single(i, m, (fuel - 1) as nat);
        let next = step(i, m);
        if m.current() == 255 {
            assert(next.current() == 0);
            assert(run_loop(seq![i], next, (fuel - 1) as nat) == Some(next));
            lemma_machine_equal(next, m.store(0));
        } else {
            assert(next.current() == m.current() + 1);
            lemma_countup_ends(next, (fuel - 1) as nat);
            lemma_machine_equal(next.store(0), m.store(0));
        }
    }
}

/// Adding `d` once and then `c - 1` times is adding it `c` times.
pub proof fn lemma_multiply_accumulates(a: u8, d: u8, c: u8)
    requires
        c >= 1,
    ensures
        cell_add(cell_add(a, d), cell_mul((c - 1) as u8, d)) == cell_add(a, cell_mul(c, d)),
        cell_mul(0, d) == 0,
{
    let x = a as int;
    let y = d as int;
    let n = c as int;
    assert((n - 1) * y + y == n * y) by (nonlinear_arith);
    assert(0 <= (n - 1) * y) by (nonlinear_arith)
        requires
            n >= 1,
            y >= 0,
    ;
    assert(0 <= n * y) by (nonlinear_arith)
        requires
            n >= 1,
            y >= 0,
    ;
    let p = (n - 1) * y;
    let q = n * y;
    assert(((x + y) % 256 + p % 256) % 256 == (x + y + p) % 256) by {
        vstd::arithmetic::div_mod::lemma_add_mod_noop(x + y, p, 256);
    }
    assert((x + q % 256) % 256 == (x + q) % 256) by {
        vstd::arithmetic::div_mod::lemma_add_mod_noop(x, q, 256);
        vstd::arithmetic::div_mod::lemma_small_mod(x as nat, 256);
    }
    assert(0 * y == 0) by (nonlinear_arith);
}

/// A multiply-move on a zero cell changes nothing.
pub proof fn lemma_multiply_nothing(m: Machine, t: Map<int, u8>)
    requires
        m.current() == 0,
    ensures
        m.multiply_moved(t) == m,
{
    let after = m.multiply_moved(t);
    assert forall|i: int| #[trigger] after.at(i) == m.at(i) by {
        if i != m.ptr && t.contains_key(i - m.ptr) {
            let d = t[i - m.ptr];
            assert(0 * d == 0) by (nonlinear_arith);
            assert(cell_mul(0, d) == 0);
            lemma_cell_add_assoc(m.at(i), 0, 0);
        }
    }
    lemma_machine_equal(after, m);
}

/// One turn of a multiply-move loop takes one from the current cell, and
/// the multiply-move of what it leaves is the multiply-move of what it
/// found.
pub proof fn lemma_multiply_turn(body: Seq<Instr>, m: Machine)
    requires
        multiply_table(body) is Some,
        m.current() != 0,
    ensures
        ({
            let next = shifted(m, body_effect(body)->0);
            &&& next.ptr == m.ptr
            &&& next.current() == m.current() - 1
            &&& next.multiply_moved(multiply_table(body)->0) == m.multiply_moved(
                multiply_table(body)->0,
            )
        }),
{
    let e = body_effect(body)->0;
    let t = multiply_table(body)->0;
    let next = shifted(m, e);
    assert(delta_at(e.deltas, 0) == 255);
    assert(next.current() == cell_add(m.current(), 255));
    let left = next.multiply_moved(t);
    let right = m.multiply_moved(t);
    assert forall|i: int| #[trigger] left.at(i) == right.at(i) by {
        let k = i - m.ptr;
        if i != m.ptr {
            if t.contains_key(k) {
                assert(e.deltas.contains_key(k) && e.deltas[k] == t[k]);
                assert(next.at(i) == cell_add(m.at(i), t[k]));
                lemma_multiply_accumulates(m.at(i), t[k], m.current());
            } else {
                assert(!e.deltas.contains_key(k));
                assert(next.at(i) == cell_add(m.at(i), 0));
                lemma_cell_add_assoc(m.at(i), 0, 0);
            }
        }
    }
    lemma_machine_equal(left, right);
}

/// A multiply-move loop can end in one way only: as the multiply-move
/// does.
pub proof fn lemma_multiply_loop_result(body: Seq<Instr>, m: Machine, fuel: nat)
    requires
        multiply_table(body) is Some,
        run_loop(body, m, fuel) is Some,
    ensures
        run_loop(body, m, fuel) == Some(m.multiply_moved(multiply_table(body)->0)),
    decreases fuel,
{
    let t = multiply_table(body)->0;
    if m.current() == 0 {
        lemma_multiply_nothing(m, t);
    } else {
        lemma_straight_run(body, m, (fuel - 1) as nat);
        lemma_multiply_turn(body, m);
        lemma_multiply_loop_result(body, shifted(m, body_effect(body)->0), (fuel - 1) as nat);
    }
}

/// A multiply-move loop ends once it has turned as often as the current
/// cell says.
pub proof fn lemma_multiply_loop_ends(body: Seq<Instr>, m: Machine, fuel: nat)
    requires
        multiply_table(body) is Some,
        fuel >= m.current(),
    ensures
        run_loop(body, m, fuel) == Some(m.multiply_moved(multiply_table(body)->0)),
    decreases m.current(),
{
    let t = multiply_table(body)->0;
    if m.current() == 0 {
        lemma_multiply_nothing(m, t);
    } else {
        lemma_straight_run(body, m, (fuel - 1) as nat);
        lemma_multiply_turn(body, m);
        lemma_multiply_loop_ends(body, shifted(m, body_effect(body)->0), (fuel - 1) as nat);
    }
}

/// The fuel that the loops of a program may need beyond what the swept
/// program needs: a zeroing loop or a multiply-move loop turns at most 255
/// times where the instruction that replaces it turns not at all.
pub open spec fn spare_fuel() -> nat {
    256
}

/// Where a program comes to an end on a machine, the swept program comes to
/// the same end with the same fuel; and where the sweep says that the
/// current cell holds zero at the end, it does.
pub proof fn lemma_swept_forward(p: Seq<Instr>, zero: bool, m: Machine, fuel: nat)
    requires
        run(p, m, fuel) is Some,
        zero ==> m.current() == 0,
    ensures
        run(swept(p, zero).0, m, fuel) == run(p, m, fuel),
        swept(p, zero).1 ==> run(p, m, fuel)->0.current() == 0,
    decreases p, 0nat, 0nat,
{
    if p.len() == 0 {
        assert(swept(p, zero).0 =~= p);
    } else {
        let front = p.drop_last();
        let last = p.last();
        assert(front.push(last) =~= p);
        let (out, z) = swept(front, zero);
        lemma_run_push(front, last, m, fuel);
        lemma_swept_forward(front, zero, m, fuel);
        let mid = run(front, m, fuel)->0;
        match last {
            Instr::Loop(body) => {
                if !z {
                    let b = swept(body, false).0;
                    lemma_swept_loop_forward(body, mid, fuel);
                    if is_zeroing(b) {
                        assert(b =~= seq![b[0]]);
                        lemma_counting_loop_result(b[0]->Increment_0, mid, fuel);
                        lemma_run_push_step(out, Instr::SetCell(0), m, fuel);
                    } else if let Some(t) = multiply_table(b) {
                        lemma_multiply_loop_result(b, mid, fuel);
                        lemma_run_push_step(out, Instr::MultiplyMove(t), m, fuel);
                    } else {
                        lemma_run_push(out, Instr::Loop(b), m, fuel);
                    }
                }
            },
            _ => {
                lemma_run_push(out, last, m, fuel);
            },
        }
    }
}

/// Where a loop comes to an end on a machine, the loop with the swept body
/// comes to the same end with the same fuel.
pub proof fn lemma_swept_loop_forward(body: Seq<Instr>, m: Machine, fuel: nat)
    requires
        run_loop(body, m, fuel) is Some,
    ensures
        run_loop(swept(body, false).0, m, fuel) == run_loop(body, m, fuel),
    decreases body, 1nat, fuel,
{
    if m.current() != 0 {
        lemma_swept_forward(body, false, m, (fuel - 1) as nat);
        lemma_swept_loop_forward(body, run(body, m, (fuel - 1) as nat)->0, (fuel - 1) as nat);
    }
}

/// Where the swept program comes to an end on a machine, the program comes
/// to the same end, given the spare fuel; and where the sweep says that the
/// current cell holds zero at the end, it does.
pub proof fn lemma_swept_backward(p: Seq<Instr>, zero: bool, m: Machine, fuel: nat)
    requires
        run(swept(p, zero).0, m, fuel) is Some,
        zero ==> m.current() == 0,
    ensures
        run(p, m, fuel + spare_fuel()) == run(swept(p, zero).0, m, fuel),
        swept(p, zero).1 ==> run(swept(p, zero).0, m, fuel)->0.current() == 0,
    decreases p, 0nat, 0nat,
{
    let more = fuel + spare_fuel();
    if p.len() == 0 {
        assert(swept(p, zero).0 =~= p);
        lemma_run_monotone(p, m, fuel, more);
    } else {
        let front = p.drop_last();
        let last = p.last();
        assert(front.push(last) =~= p);
        let (out, z) = swept(front, zero);
        lemma_run_push(front, last, m, more);
        match last {
            Instr::Loop(body) => {
                if z {
                    lemma_swept_backward(front, zero, m, fuel);
                } else {
                    let b = swept(body, false).0;
                    if is_zeroing(b) {
                        lemma_run_push_step(out, Instr::SetCell(0), m, fuel);
                        lemma_swept_backward(front, zero, m, fuel);
                        let mid = run(out, m, fuel)->0;
                        assert(b =~= seq![b[0]]);
                        assert(is_straight(b));
                        lemma_swept_straight(body);
                        if b[0] == Instr::Increment(1) {
                            lemma_countup_ends(mid, 256);
                        } else {
                            lemma_countdown_ends(mid, 256);
                        }
                        lemma_run_loop_monotone(body, mid, 256, more);
                    } else if let Some(t) = multiply_table(b) {
                        lemma_run_push_step(out, Instr::MultiplyMove(t), m, fuel);
                        lemma_swept_backward(front, zero, m, fuel);
                        let mid = run(out, m, fuel)->0;
                        lemma_effect_straight(b);
                        lemma_swept_straight(body);
                        lemma_multiply_loop_ends(body, mid, 256);
                        lemma_run_loop_monotone(body, mid, 256, more);
                        lemma_multiply_zero_after(mid, t);
                    } else {
                        lemma_run_push(out, Instr::Loop(b), m, fuel);
                        lemma_swept_backward(front, zero, m, fuel);
                        let mid = run(out, m, fuel)->0;
                        lemma_swept_loop_backward(body, mid, fuel);
                    }
                }
            },
            _ => {
                lemma_run_push(out, last, m, fuel);
                lemma_swept_backward(front, zero, m, fuel);
            },
        }
    }
}

/// After a multiply-move the current cell holds zero.
pub proof fn lemma_multiply_zero_after(m: Machine, t: Map<int, u8>)
    ensures
        m.multiply_moved(t).current() == 0,
{
}

/// Where the loop with the swept body comes to an end on a machine, the
/// loop comes to the same end, given the spare fuel.
pub proof fn lemma_swept_loop_backward(body: Seq<Instr>, m: Machine, fuel: nat)
    requires
        run_loop(swept(body, false).0, m, fuel) is Some,
    ensures
        run_loop(body, m, fuel + spare_fuel()) == run_loop(swept(body, false).0, m, fuel),
    decreases body, 1nat, fuel,
{
    if m.current() != 0 {
        let b = swept(body, false).0;
        lemma_swept_backward(body, false, m, (fuel - 1) as nat);
        lemma_swept_loop_backward(body, run(b, m, (fuel - 1) as nat)->0, (fuel - 1) as nat);
    }
}

/// A pass keeps the end that a program comes to on a machine whose current
/// cell holds zero, with the same fuel.
pub proof fn lemma_pass_forward(p: Seq<Instr>, m: Machine, fuel: nat)
    requires
        run(p, m, fuel) is Some,
        m.current() == 0,
    ensures
        run(pass(p), m, fuel) == run(p, m, fuel),
{
    lemma_combined_run(p, m, fuel);
    lemma_swept_forward(combined(p), true, m, fuel);
}

/// Where the program after a pass comes to an end on a machine whose
/// current cell holds zero, the program before it comes to the same end,
/// given the spare fuel.
pub proof fn lemma_pass_backward(p: Seq<Instr>, m: Machine, fuel: nat)
    requires
        run(pass(p), m, fuel) is Some,
        m.current() == 0,
    ensures
        run(p, m, fuel + spare_fuel()) == run(pass(p), m, fuel),
{
    lemma_swept_backward(combined(p), true, m, fuel);
    lemma_combined_run(p, m, fuel + spare_fuel());
}

/// Where a program comes to an end on a machine whose current cell holds
/// zero, the optimised program comes to the same end with the same fuel.
pub proof fn lemma_optimized_forward(p: Seq<Instr>, m: Machine, fuel: nat)
    requires
        run(p, m, fuel) is Some,
        m.current() == 0,
    ensures
        run(optimized(p), m, fuel) == run(p, m, fuel),
    decreases crate::bfir::program_size(p),
{
    let q = pass(p);
    if q != p && crate::bfir::program_size(q) < crate::bfir::program_size(p) {
        lemma_pass_forward(p, m, fuel);
        lemma_optimized_forward(q, m, fuel);
    }
}

/// Where the optimised program comes to an end on a machine whose current
/// cell holds zero, the program comes to the same end with the fuel that
/// this gives.
pub proof fn lemma_optimized_backward(p: Seq<Instr>, m: Machine, fuel: nat) -> (more: nat)
    requires
        run(optimized(p), m, fuel) is Some,
        m.current() == 0,
    ensures
        more >= fuel,
        run(p, m, more) == run(optimized(p), m, fuel),
    decreases crate::bfir::program_size(p),
{
    let q = pass(p);
    if q != p && crate::bfir::program_size(q) < crate::bfir::program_size(p) {
        let enough = lemma_optimized_backward(q, m, fuel);
        lemma_pass_backward(p, m, enough);
        enough + spare_fuel()
    } else {
        fuel
    }
}

/// Optimising keeps what a program does when started on a zero cell, as
/// every program is: if either of the two comes to an end, so does the
/// other, with the same tape, pointer and output and after reading as
/// much; if either runs forever, so does the other.
pub proof fn lemma_optimize_preserves_behaviour(p: Seq<Instr>, m: Machine, fuel: nat)
    requires
        m.current() == 0,
    ensures
        run(p, m, fuel) is Some ==> run(optimized(p), m, fuel) == run(p, m, fuel),
        run(optimized(p), m, fuel) is Some ==> exists|more: nat|
            more >= fuel && #[trigger] run(p, m, more) == run(optimized(p), m, fuel),
        terminates(p, m) == terminates(optimized(p), m),
{
    if run(p, m, fuel) is Some {
        lemma_optimized_forward(p, m, fuel);
    }
    if run(optimized(p), m, fuel) is Some {
        let more = lemma_optimized_backward(p, m, fuel);
        assert(run(p, m, more) == run(optimized(p), m, fuel));
    }
    if terminates(p, m) {
        let f = choose|f: nat| run(p, m, f) is Some;
        lemma_optimized_forward(p, m, f);
        assert(run(optimized(p), m, f) is Some);
    }
    if terminates(optimized(p), m) {
        let f = choose|f: nat| run(optimized(p), m, f) is Some;
        let more = lemma_optimized_backward(p, m, f);
        assert(run(p, m, more) is Some);
    }
}

/// Optimising keeps what a program does on the machine that every program
/// starts on, whatever the input and however long the run: the optimised
/// program ends exactly if the program does, with the same tape, the same
/// pointer and the same output.
pub proof fn lemma_optimize_sound(p: Seq<Instr>, input: spec_fn(nat) -> u8, fuel: nat)
    ensures
        run(p, zeroed_machine(input), fuel) is Some ==> run(
            optimized(p),
            zeroed_machine(input),
            fuel,
        ) == run(p, zeroed_machine(input), fuel),
        run(optimized(p), zeroed_machine(input), fuel) is Some ==> exists|more: nat|
            more >= fuel && #[trigger] run(p, zeroed_machine(input), more) == run(
                optimized(p),
                zeroed_machine(input),
                fuel,
            ),
        terminates(p, zeroed_machine(input)) == terminates(optimized(p), zeroed_machine(input)),
{
    lemma_optimize_preserves_behaviour(p, zeroed_machine(input), fuel);
}

} // verus!

//! Sizing of the tape: the highest cell index a program can reach.

use vstd::prelude::*;
use std::collections::HashMap;
use crate::bfir::{Cell, Instr, Instruction, offsets_view, program_view, table_entries};

verus! {

/// The larger of two integers.
pub open spec fn max_int(a: int, b: int) -> int {
    if a >= b {
        a
    } else {
        b
    }
}

/// `r` is the furthest that a multiply-move with table `t` reaches to the
/// right of the current cell: its largest offset, or zero where none is
/// positive.
pub open spec fn is_table_reach(t: Map<int, u8>, r: int) -> bool {
    &&& r >= 0
    &&& forall|k: int| t.contains_key(k) ==> k <= r
    &&& (r == 0 || t.contains_key(r))
}

/// The furthest that a multiply-move with table `t` reaches to the right
/// (zero for a table whose offsets have no largest).
pub open spec fn table_reach(t: Map<int, u8>) -> int {
    if exists|r: int| is_table_reach(t, r) {
        choose|r: int| is_table_reach(t, r)
    } else {
        0
    }
}

/// The highest cell index that `p` can reach when started at index zero: the
/// largest sum of pointer moves over the prefixes of `p`, where a loop counts
/// as no move but reaches as far as its body does from where the loop stands.
pub open spec fn highest_index(p: Seq<Instr>) -> int
    decreases p,
{
    if p.len() == 0 {
        0
    } else {
        let rest = highest_index(p.drop_first());
        match p[0] {
            Instr::PointerIncrement(d) => max_int(0, d + rest),
            Instr::Loop(body) => max_int(highest_index(body), rest),
            Instr::MultiplyMove(t) => max_int(table_reach(t), rest),
            _ => rest,
        }
    }
}

/// Every intermediate result of sizing `p` fits a machine word: the highest
/// index of each suffix of `p`, and of each suffix of each loop body in it.
pub open spec fn tape_fits(p: Seq<Instr>) -> bool
    decreases p,
{
    p.len() == 0 || {
        &&& tape_fits(p.drop_first())
        &&& highest_index(p) <= usize::MAX
        &&& match p[0] {
            Instr::Loop(body) => tape_fits(body),
            _ => true,
        }
    }
}

/// What `highest_cell_index` reports: the highest index, or the largest
/// machine word where sizing leaves the machine's range.
pub open spec fn tape_bound(p: Seq<Instr>) -> int {
    if tape_fits(p) {
        highest_index(p)
    } else {
        usize::MAX as int
    }
}

/// The highest index is never negative.
pub proof fn lemma_highest_index_nonnegative(p: Seq<Instr>)
    ensures
        highest_index(p) >= 0,
    decreases p,
{
    if p.len() > 0 {
        lemma_highest_index_nonnegative(p.drop_first());
        match p[0] {
            Instr::Loop(body) => {
                lemma_highest_index_nonnegative(body);
            },
            _ => {},
        }
    }
}

/// A table with finitely many offsets has a reach, and only one.
pub proof fn lemma_table_reach(t: Map<int, u8>)
    requires
        t.dom().finite(),
    ensures
        is_table_reach(t, table_reach(t)),
    decreases t.dom().len(),
{
    if forall|k: int| t.contains_key(k) ==> k <= 0 {
        assert(is_table_reach(t, 0));
    } else {
        let k = choose|k: int| t.contains_key(k) && k > 0;
        let smaller = t.remove(k);
        lemma_table_reach(smaller);
        let r = table_reach(smaller);
        if r >= k {
            assert(is_table_reach(t, r));
        } else {
            assert(is_table_reach(t, k));
        }
    }
}

/// Two reaches of one table are equal.
pub proof fn lemma_table_reach_unique(t: Map<int, u8>, a: int, b: int)
    requires
        is_table_reach(t, a),
        is_table_reach(t, b),
    ensures
        a == b,
{
}

/// Where a program fits the machine, so does each of its suffixes.
pub proof fn lemma_fits_suffix(p: Seq<Instr>, k: int)
    requires
        tape_fits(p),
        0 <= k <= p.len(),
    ensures
        tape_fits(p.skip(k)),
    decreases k,
{
    if k == 0 {
        assert(p.skip(0) =~= p);
    } else {
        lemma_fits_suffix(p.drop_first(), k - 1);
        assert(p.drop_first().skip(k - 1) =~= p.skip(k));
    }
}

/// The furthest that a multiply-move reaches to the right of the current cell.
pub fn table_reach_of(m: &HashMap<isize, Cell>) -> (r: usize)
    ensures
        r == table_reach(offsets_view(m@)),
        r <= isize::MAX,
{
    let entries = table_entries(m);
    let mut reach: usize = 0;
    let mut k: usize = 0;
    while k < entries.len()
        invariant
            k <= entries.len(),
            reach <= isize::MAX,
            forall|i: int| 0 <= i < k ==> entries[i].0 <= reach,
            reach == 0 || exists|i: int| 0 <= i < k && entries[i].0 == reach,
        decreases entries.len() - k,
    {
        let offset = entries[k].0;
        if offset > 0 && offset as usize > reach {
            reach = offset as usize;
        }
        k += 1;
    }
    proof {
        let t = offsets_view(m@);
        assert(is_table_reach(t, reach as int)) by {
            assert forall|o: int| t.contains_key(o) implies o <= reach by {
                let i = choose|i: int| 0 <= i < entries.len() && entries[i].0 == o as isize;
                assert(entries[i].0 <= reach);
            }
            if reach != 0 {
                let i = choose|i: int| 0 <= i < entries.len() && entries[i].0 == reach;
                assert(m@.contains_key(entries[i].0));
                assert(t.contains_key(reach as int));
            }
        }
        lemma_offsets_view_finite(m@);
        lemma_table_reach(t);
        lemma_table_reach_unique(t, reach as int, table_reach(t));
    }
    reach
}

/// A table with finitely many machine offsets has finitely many offsets.
pub proof fn lemma_offsets_view_finite(m: Map<isize, Cell>)
    requires
        m.dom().finite(),
    ensures
        offsets_view(m).dom().finite(),
{
    let image = m.dom().map(|k: isize| k as int);
    m.dom().lemma_map_finite(|k: isize| k as int);
    assert(offsets_view(m).dom() =~= image) by {
        assert forall|o: int| offsets_view(m).dom().contains(o) implies image.contains(o) by {
            assert(m.dom().contains(o as isize));
            assert((o as isize) as int == o);
        }
    }
}

/// The highest index of `instrs` where every intermediate result fits a
/// machine word, and `None` where one does not.
pub fn checked_highest_cell_index(instrs: &Vec<Instruction>) -> (r: Option<usize>)
    ensures
        match r {
            Some(h) => tape_fits(program_view(instrs@)) && h == highest_index(
                program_view(instrs@),
            ),
            None => !tape_fits(program_view(instrs@)),
        },
    decreases instrs,
{
    let ghost p = program_view(instrs@);
    let mut highest: usize = 0;
    let mut k: usize = instrs.len();
    assert(p.skip(k as int) =~= Seq::<Instr>::empty());
    while k > 0
        invariant
            k <= instrs.len(),
            p == program_view(instrs@),
            tape_fits(p.skip(k as int)),
            highest == highest_index(p.skip(k as int)),
        decreases k,
    {
        k -= 1;
        let ghost suffix = p.skip(k as int);
        proof {
            assert(suffix.drop_first() =~= p.skip(k + 1));
            assert(suffix[0] == instrs[k as int]@);
            if tape_fits(p) {
                lemma_fits_suffix(p, k as int);
            }
        }
        match &instrs[k] {
            Instruction::PointerIncrement(d) => {
                if *d >= 0 {
                    let step = *d as usize;
                    if step > usize::MAX - highest {
                        return None;
                    }
                    highest = highest + step;
                } else {
                    let step: usize = if *d == isize::MIN {
                        (isize::MAX as usize) + 1
                    } else {
                        (-*d) as usize
                    };
                    if step >= highest {
                        highest = 0;
                    } else {
                        highest = highest - step;
                    }
                }
            },
            Instruction::Loop(body) => {
                proof {
                    vstd::std_specs::vec::axiom_vec_index_decreases(*instrs, k as int);
                }
                match checked_highest_cell_index(body) {
                    Some(inner) => {
                        if inner > highest {
                            highest = inner;
                        }
                    },
                    None => {
                        return None;
                    },
                }
            },
            Instruction::MultiplyMove(m) => {
                let inner = table_reach_of(m);
                if inner > highest {
                    highest = inner;
                }
            },
            _ => {},
        }
    }
    assert(p.skip(0) =~= p);
    Some(highest)
}

/// The highest cell index that `instrs` can reach: the tape that runs it
/// needs one cell more. Reports the largest machine word where the sizing
/// leaves the machine's range.
pub fn highest_cell_index(instrs: &Vec<Instruction>) -> (r: usize)
    ensures
        r == tape_bound(program_view(instrs@)),
{
    match checked_highest_cell_index(instrs) {
        Some(h) => h,
        None => usize::MAX,
    }
}

} // verus!

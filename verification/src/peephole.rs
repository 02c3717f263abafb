//! The peephole optimiser: rewrites a program into a shorter one that
//! behaves the same.

use vstd::prelude::*;
use std::collections::HashMap;
use crate::bfir::{
    Cell, Instr, Instruction, add_cells, cell_add, instr_size, lemma_offsets_view_updates,
    instr_well_formed, lemma_view_drop_last, lemma_view_push, offsets_view, program_size,
    program_view, table_entries, well_formed,
};

verus! {

/// A pointer move of `d` cells fits the machine's pointer.
pub open spec fn in_pointer_range(d: int) -> bool {
    isize::MIN <= d <= isize::MAX
}

/// The program `out` with `i` put behind it, merged with the last
/// instruction of `out` where the two act on one cell as a single
/// instruction does: two increments, two pointer moves, an increment after a
/// set, and a set that the next instruction overwrites unread.
pub open spec fn appended(out: Seq<Instr>, i: Instr) -> Seq<Instr> {
    if out.len() == 0 {
        seq![i]
    } else {
        let front = out.drop_last();
        match (out.last(), i) {
            (Instr::Increment(a), Instr::Increment(b)) => if cell_add(a, b) == 0 {
                front
            } else {
                front.push(Instr::Increment(cell_add(a, b)))
            },
            (Instr::PointerIncrement(a), Instr::PointerIncrement(b)) => if !in_pointer_range(
                a + b,
            ) {
                out.push(i)
            } else if a + b == 0 {
                front
            } else {
                front.push(Instr::PointerIncrement(a + b))
            },
            (Instr::SetCell(v), Instr::Increment(d)) => front.push(Instr::SetCell(cell_add(v, d))),
            (Instr::SetCell(_), Instr::SetCell(_)) => front.push(i),
            (Instr::SetCell(_), Instr::Read) => front.push(i),
            _ => out.push(i),
        }
    }
}

/// The program with neighbours merged in one sweep from the left, loop
/// bodies first.
pub open spec fn combined(p: Seq<Instr>) -> Seq<Instr>
    decreases p,
{
    if p.len() == 0 {
        Seq::empty()
    } else {
        let i = match p.last() {
            Instr::Loop(body) => Instr::Loop(combined(body)),
            other => other,
        };
        appended(combined(p.drop_last()), i)
    }
}

/// A loop with this body does nothing but bring the current cell to zero.
pub open spec fn is_zeroing(body: Seq<Instr>) -> bool {
    body.len() == 1 && (body[0] == Instr::Increment(1) || body[0] == Instr::Increment(255))
}

/// What a straight run of increments and pointer moves does: where the
/// pointer ends up, and what was added to each cell that was touched, both
/// counted from where the pointer started.
pub ghost struct Effect {
    pub offset: int,
    pub deltas: Map<int, u8>,
}

/// The amount added at offset `o` (zero where nothing was).
pub open spec fn delta_at(deltas: Map<int, u8>, o: int) -> u8 {
    if deltas.contains_key(o) {
        deltas[o]
    } else {
        0
    }
}

/// The effect of `body`, if it holds nothing but increments and pointer
/// moves and never takes the pointer out of the machine's range.
pub open spec fn body_effect(body: Seq<Instr>) -> Option<Effect>
    decreases body.len(),
{
    if body.len() == 0 {
        Some(Effect { offset: 0, deltas: Map::empty() })
    } else {
        match body_effect(body.drop_last()) {
            None => None,
            Some(e) => match body.last() {
                Instr::Increment(d) => Some(
                    Effect {
                        offset: e.offset,
                        deltas: e.deltas.insert(e.offset, cell_add(delta_at(e.deltas, e.offset), d)),
                    },
                ),
                Instr::PointerIncrement(d) => if in_pointer_range(e.offset + d) {
                    Some(Effect { offset: e.offset + d, deltas: e.deltas })
                } else {
                    None
                },
                _ => None,
            },
        }
    }
}

/// The table of the multiply-move that a loop with this body is, if it is
/// one: the body is a straight run that brings the pointer back, takes one
/// from the current cell, and adds a fixed amount to each other cell.
pub open spec fn multiply_table(body: Seq<Instr>) -> Option<Map<int, u8>> {
    match body_effect(body) {
        Some(e) => if e.offset == 0 && e.deltas.contains_key(0) && e.deltas[0] == 255 {
            Some(e.deltas.remove(0))
        } else {
            None
        },
        None => None,
    }
}

/// One sweep over the loops of `p` from the left, loop bodies first. `zero`
/// says whether the current cell is known to hold zero where `p` starts.
/// Gives the rewritten program and whether the cell is known to hold zero
/// where it ends. A loop met on a zero cell goes; a zeroing loop becomes a
/// set; a multiply-move loop becomes a multiply-move.
pub open spec fn swept(p: Seq<Instr>, zero: bool) -> (Seq<Instr>, bool)
    decreases p,
{
    if p.len() == 0 {
        (Seq::empty(), zero)
    } else {
        let (out, z) = swept(p.drop_last(), zero);
        match p.last() {
            Instr::Loop(body) => if z {
                (out, true)
            } else {
                let b = swept(body, false).0;
                if is_zeroing(b) {
                    (out.push(Instr::SetCell(0)), true)
                } else {
                    match multiply_table(b) {
                        Some(t) => (out.push(Instr::MultiplyMove(t)), true),
                        None => (out.push(Instr::Loop(b)), false),
                    }
                }
            },
            Instr::SetCell(v) => (out.push(p.last()), v == 0),
            Instr::MultiplyMove(_) => (out.push(p.last()), true),
            Instr::Write => (out.push(p.last()), z),
            _ => (out.push(p.last()), false),
        }
    }
}

/// One pass of the optimiser over a whole program, which starts on a zero
/// cell: neighbours merged, then loops rewritten.
pub open spec fn pass(p: Seq<Instr>) -> Seq<Instr> {
    swept(combined(p), true).0
}

/// The program that `optimize` returns: passes repeated until one changes
/// nothing. A pass that changes a program shrinks it (`lemma_pass_size`);
/// the test for that below only serves to show that the recursion ends.
pub open spec fn optimized(p: Seq<Instr>) -> Seq<Instr>
    decreases program_size(p),
{
    let q = pass(p);
    if q != p && program_size(q) < program_size(p) {
        optimized(q)
    } else {
        p
    }
}

/// Pushing an instruction adds its size.
pub proof fn lemma_size_push(p: Seq<Instr>, i: Instr)
    ensures
        program_size(p.push(i)) == program_size(p) + instr_size(i),
{
    assert(p.push(i).drop_last() =~= p);
}

/// Merging never grows a program, and shrinks it unless it only pushed.
pub proof fn lemma_appended_size(out: Seq<Instr>, i: Instr)
    ensures
        program_size(appended(out, i)) <= program_size(out) + instr_size(i),
        appended(out, i) == out.push(i) || program_size(appended(out, i)) < program_size(out)
            + instr_size(i),
{
    lemma_size_push(out, i);
    if out.len() > 0 {
        let front = out.drop_last();
        assert(program_size(out) == program_size(front) + instr_size(out.last()));
        match (out.last(), i) {
            (Instr::Increment(a), Instr::Increment(b)) => {
                lemma_size_push(front, Instr::Increment(cell_add(a, b)));
            },
            (Instr::PointerIncrement(a), Instr::PointerIncrement(b)) => {
                lemma_size_push(front, Instr::PointerIncrement(a + b));
            },
            (Instr::SetCell(v), Instr::Increment(d)) => {
                lemma_size_push(front, Instr::SetCell(cell_add(v, d)));
            },
            (Instr::SetCell(_), Instr::SetCell(_)) => {
                lemma_size_push(front, i);
            },
            (Instr::SetCell(_), Instr::Read) => {
                lemma_size_push(front, i);
            },
            _ => {},
        }
    } else {
        assert(seq![i] =~= out.push(i));
    }
}

/// The merging sweep never grows a program, and shrinks it unless it
/// leaves it as it is.
pub proof fn lemma_combined_size(p: Seq<Instr>)
    ensures
        program_size(combined(p)) <= program_size(p),
        combined(p) == p || program_size(combined(p)) < program_size(p),
    decreases p,
{
    if p.len() == 0 {
        assert(combined(p) =~= p);
    } else {
        let front = p.drop_last();
        lemma_combined_size(front);
        let i = match p.last() {
            Instr::Loop(body) => Instr::Loop(combined(body)),
            other => other,
        };
        match p.last() {
            Instr::Loop(body) => {
                lemma_combined_size(body);
                assert(instr_size(i) == 1 + program_size(combined(body)));
                assert(instr_size(p.last()) == 1 + program_size(body));
            },
            _ => {
                assert(i == p.last());
            },
        }
        assert(instr_size(i) <= instr_size(p.last()));
        assert(i == p.last() || instr_size(i) < instr_size(p.last()));
        assert(program_size(p) == program_size(front) + instr_size(p.last()));
        lemma_appended_size(combined(front), i);
        lemma_size_push(combined(front), i);
        assert(front.push(p.last()) =~= p);
    }
}

/// A loop body that is a multiply-move or a zeroing loop is not empty.
pub proof fn lemma_table_body_nonempty(body: Seq<Instr>)
    requires
        multiply_table(body) is Some || is_zeroing(body),
    ensures
        program_size(body) >= 1,
{
    if body.len() > 0 {
        assert(program_size(body) == program_size(body.drop_last()) + instr_size(body.last()));
    }
}

/// The loop sweep never grows a program, and shrinks it unless it leaves it
/// as it is.
pub proof fn lemma_swept_size(p: Seq<Instr>, zero: bool)
    ensures
        program_size(swept(p, zero).0) <= program_size(p),
        swept(p, zero).0 == p || program_size(swept(p, zero).0) < program_size(p),
    decreases p,
{
    if p.len() == 0 {
        assert(swept(p, zero).0 =~= p);
    } else {
        let front = p.drop_last();
        lemma_swept_size(front, zero);
        let (out, z) = swept(front, zero);
        assert(front.push(p.last()) =~= p);
        lemma_size_push(out, p.last());
        match p.last() {
            Instr::Loop(body) => {
                if !z {
                    lemma_swept_size(body, false);
                    let b = swept(body, false).0;
                    lemma_size_push(out, Instr::SetCell(0));
                    lemma_size_push(out, Instr::Loop(b));
                    if is_zeroing(b) {
                        lemma_table_body_nonempty(b);
                    } else if let Some(t) = multiply_table(b) {
                        lemma_size_push(out, Instr::MultiplyMove(t));
                        lemma_table_body_nonempty(b);
                    }
                }
            },
            _ => {},
        }
    }
}

/// A pass never grows a program, and shrinks it unless it leaves it as it
/// is.
pub proof fn lemma_pass_size(p: Seq<Instr>)
    ensures
        pass(p) == p || program_size(pass(p)) < program_size(p),
{
    lemma_combined_size(p);
    lemma_swept_size(combined(p), true);
}

/// What `optimize` returns is a program that a further pass leaves as it is.
pub proof fn lemma_optimized_is_fixed(p: Seq<Instr>)
    ensures
        pass(optimized(p)) == optimized(p),
    decreases program_size(p),
{
    lemma_pass_size(p);
    let q = pass(p);
    if q != p {
        lemma_optimized_is_fixed(q);
    }
}

/// Optimising twice gives what optimising once gives.
pub proof fn lemma_optimize_idempotent(p: Seq<Instr>)
    ensures
        optimized(optimized(p)) == optimized(p),
{
    lemma_optimized_is_fixed(p);
}

/// Merging keeps a program well formed.
pub proof fn lemma_appended_well_formed(out: Seq<Instr>, i: Instr)
    requires
        well_formed(out),
        instr_well_formed(i),
    ensures
        well_formed(appended(out, i)),
{
    let r = appended(out, i);
    assert forall|k: int| 0 <= k < r.len() implies instr_well_formed(#[trigger] r[k]) by {
        if out.len() > 0 && k < out.len() - 1 {
            assert(r[k] == out[k]);
        }
    }
}

/// The merging sweep keeps a program well formed.
pub proof fn lemma_combined_well_formed(p: Seq<Instr>)
    requires
        well_formed(p),
    ensures
        well_formed(combined(p)),
    decreases p,
{
    if p.len() > 0 {
        let front = p.drop_last();
        assert forall|k: int| 0 <= k < front.len() implies instr_well_formed(
            #[trigger] front[k],
        ) by {
            assert(front[k] == p[k]);
        }
        lemma_combined_well_formed(front);
        assert(instr_well_formed(p[p.len() - 1]));
        let i = match p.last() {
            Instr::Loop(body) => Instr::Loop(combined(body)),
            other => other,
        };
        if let Instr::Loop(body) = p.last() {
            lemma_combined_well_formed(body);
        }
        lemma_appended_well_formed(combined(front), i);
    }
}

/// The loop sweep keeps a program well formed.
pub proof fn lemma_swept_well_formed(p: Seq<Instr>, zero: bool)
    requires
        well_formed(p),
    ensures
        well_formed(swept(p, zero).0),
    decreases p,
{
    if p.len() > 0 {
        let front = p.drop_last();
        assert forall|k: int| 0 <= k < front.len() implies instr_well_formed(
            #[trigger] front[k],
        ) by {
            assert(front[k] == p[k]);
        }
        lemma_swept_well_formed(front, zero);
        assert(instr_well_formed(p[p.len() - 1]));
        if let Instr::Loop(body) = p.last() {
            lemma_swept_well_formed(body, false);
        }
        let out = swept(front, zero).0;
        let r = swept(p, zero).0;
        assert forall|k: int| 0 <= k < r.len() implies instr_well_formed(#[trigger] r[k]) by {
            if k < out.len() {
                assert(r[k] == out[k]);
            }
        }
    }
}

/// Optimising keeps a program well formed.
pub proof fn lemma_optimized_well_formed(p: Seq<Instr>)
    requires
        well_formed(p),
    ensures
        well_formed(optimized(p)),
    decreases program_size(p),
{
    let q = pass(p);
    if q != p && program_size(q) < program_size(p) {
        lemma_combined_well_formed(p);
        lemma_swept_well_formed(combined(p), true);
        lemma_optimized_well_formed(q);
    }
}

/// Optimising never grows a program.
pub proof fn lemma_optimized_size(p: Seq<Instr>)
    ensures
        program_size(optimized(p)) <= program_size(p),
    decreases program_size(p),
{
    let q = pass(p);
    if q != p && program_size(q) < program_size(p) {
        lemma_optimized_size(q);
    }
}

/// Puts `i` behind `out`, merged with the last instruction there where the
/// two can be one.
pub fn append_instr(out: &mut Vec<Instruction>, i: Instruction)
    ensures
        program_view(final(out)@) == appended(program_view(old(out)@), i@),
{
    let n = out.len();
    if n == 0 {
        proof {
            lemma_view_push(out@, i);
            assert(program_view(out@).push(i@) =~= seq![i@]);
        }
        out.push(i);
        return ;
    }
    proof {
        lemma_view_drop_last(out@);
        lemma_view_push(out@, i);
    }
    let merged: Option<Option<Instruction>> = match &out[n - 1] {
        Instruction::Increment(a) => match &i {
            Instruction::Increment(b) => {
                let sum = add_cells(*a, *b);
                if sum == 0 {
                    Some(None)
                } else {
                    Some(Some(Instruction::Increment(sum)))
                }
            },
            _ => None,
        },
        Instruction::PointerIncrement(a) => match &i {
            Instruction::PointerIncrement(b) => {
                let sum: i128 = *a as i128 + *b as i128;
                if sum < isize::MIN as i128 || sum > isize::MAX as i128 {
                    None
                } else if sum == 0 {
                    Some(None)
                } else {
                    Some(Some(Instruction::PointerIncrement(sum as isize)))
                }
            },
            _ => None,
        },
        Instruction::SetCell(v) => match &i {
            Instruction::Increment(d) => Some(Some(Instruction::SetCell(add_cells(*v, *d)))),
            Instruction::SetCell(w) => Some(Some(Instruction::SetCell(*w))),
            Instruction::Read => Some(Some(Instruction::Read)),
            _ => None,
        },
        _ => None,
    };
    match merged {
        None => {
            out.push(i);
        },
        Some(replacement) => {
            out.pop();
            if let Some(r) = replacement {
                proof {
                    lemma_view_push(out@, r);
                }
                out.push(r);
            }
        },
    }
}

/// Merges neighbours in one sweep from the left, loop bodies first.
pub fn combine(instrs: &Vec<Instruction>) -> (r: Vec<Instruction>)
    ensures
        program_view(r@) == combined(program_view(instrs@)),
    decreases instrs,
{
    let ghost p = program_view(instrs@);
    let mut out: Vec<Instruction> = Vec::new();
    let mut k: usize = 0;
    assert(p.take(0) =~= Seq::<Instr>::empty());
    assert(program_view(out@) =~= Seq::<Instr>::empty());
    while k < instrs.len()
        invariant
            k <= instrs.len(),
            p == program_view(instrs@),
            program_view(out@) == combined(p.take(k as int)),
        decreases instrs.len() - k,
    {
        proof {
            assert(p.take(k + 1).drop_last() =~= p.take(k as int));
            assert(p.take(k + 1).last() == instrs[k as int]@);
            vstd::std_specs::vec::axiom_vec_index_decreases(*instrs, k as int);
        }
        let i = match &instrs[k] {
            Instruction::Loop(body) => Instruction::Loop(combine(body)),
            other => other.clone(),
        };
        append_instr(&mut out, i);
        k += 1;
    }
    assert(p.take(k as int) =~= p);
    out
}

/// A body whose beginning is no straight run is none itself.
pub proof fn lemma_effect_prefix(body: Seq<Instr>, k: int)
    requires
        0 <= k <= body.len(),
        body_effect(body.take(k)) is None,
    ensures
        body_effect(body) is None,
    decreases body.len() - k,
{
    if k == body.len() {
        assert(body.take(k) =~= body);
    } else {
        assert(body.take(k + 1).drop_last() =~= body.take(k));
        lemma_effect_prefix(body, k + 1);
    }
}

/// Recognises the body of a multiply-move loop and gives its table.
pub fn multiply_table_of(body: &Vec<Instruction>) -> (r: Option<HashMap<isize, Cell>>)
    ensures
        match r {
            Some(m) => multiply_table(program_view(body@)) == Some(offsets_view(m@)),
            None => multiply_table(program_view(body@)) is None,
        },
{
    broadcast use vstd::std_specs::hash::group_hash_axioms;

    let ghost p = program_view(body@);
    let mut offset: isize = 0;
    let mut deltas: HashMap<isize, Cell> = HashMap::new();
    let mut k: usize = 0;
    proof {
        assert(p.take(0) =~= Seq::<Instr>::empty());
        lemma_offsets_view_updates(deltas@, 0, 0);
    }
    while k < body.len()
        invariant
            k <= body.len(),
            p == program_view(body@),
            body_effect(p.take(k as int)) == Some(
                Effect { offset: offset as int, deltas: offsets_view(deltas@) },
            ),
        decreases body.len() - k,
    {
        proof {
            assert(p.take(k + 1).drop_last() =~= p.take(k as int));
            assert(p.take(k + 1).last() == body[k as int]@);
        }
        match &body[k] {
            Instruction::Increment(d) => {
                let before: Cell = match deltas.get(&offset) {
                    Some(v) => *v,
                    None => 0,
                };
                let sum = add_cells(before, *d);
                proof {
                    lemma_offsets_view_updates(deltas@, offset, sum);
                }
                deltas.insert(offset, sum);
            },
            Instruction::PointerIncrement(d) => {
                let target: i128 = offset as i128 + *d as i128;
                if target < isize::MIN as i128 || target > isize::MAX as i128 {
                    proof {
                        lemma_effect_prefix(p, k + 1);
                    }
                    return None;
                }
                offset = target as isize;
            },
            _ => {
                proof {
                    lemma_effect_prefix(p, k + 1);
                }
                return None;
            },
        }
        k += 1;
    }
    assert(p.take(k as int) =~= p);
    proof {
        lemma_offsets_view_updates(deltas@, 0, 0);
    }
    if offset != 0 {
        return None;
    }
    let at_start: Cell = match deltas.get(&0) {
        Some(v) => *v,
        None => 0,
    };
    if at_start != 255 {
        return None;
    }
    deltas.remove(&0);
    Some(deltas)
}

/// Recognises the body of a zeroing loop.
pub fn is_zeroing_body(body: &Vec<Instruction>) -> (r: bool)
    ensures
        r == is_zeroing(program_view(body@)),
{
    if body.len() != 1 {
        return false;
    }
    assert(program_view(body@)[0] == body[0]@);
    match &body[0] {
        Instruction::Increment(d) => *d == 1 || *d == 255,
        _ => false,
    }
}

/// Rewrites the loops of `instrs` in one sweep from the left, loop bodies
/// first. `zero` says whether the current cell is known to hold zero at the
/// start; the second result says whether it is at the end.
pub fn sweep(instrs: &Vec<Instruction>, zero: bool) -> (r: (Vec<Instruction>, bool))
    ensures
        (program_view(r.0@), r.1) == swept(program_view(instrs@), zero),
    decreases instrs,
{
    let ghost p = program_view(instrs@);
    let mut out: Vec<Instruction> = Vec::new();
    let mut known_zero = zero;
    let mut k: usize = 0;
    assert(p.take(0) =~= Seq::<Instr>::empty());
    assert(program_view(out@) =~= Seq::<Instr>::empty());
    while k < instrs.len()
        invariant
            k <= instrs.len(),
            p == program_view(instrs@),
            (program_view(out@), known_zero) == swept(p.take(k as int), zero),
        decreases instrs.len() - k,
    {
        proof {
            assert(p.take(k + 1).drop_last() =~= p.take(k as int));
            assert(p.take(k + 1).last() == instrs[k as int]@);
            vstd::std_specs::vec::axiom_vec_index_decreases(*instrs, k as int);
        }
        match &instrs[k] {
            Instruction::Loop(body) => {
                if !known_zero {
                    let (inner, _) = sweep(body, false);
                    if is_zeroing_body(&inner) {
                        let i = Instruction::SetCell(0);
                        proof {
                            lemma_view_push(out@, i);
                        }
                        out.push(i);
                        known_zero = true;
                    } else {
                        match multiply_table_of(&inner) {
                            Some(table) => {
                                let i = Instruction::MultiplyMove(table);
                                proof {
                                    lemma_view_push(out@, i);
                                }
                                out.push(i);
                                known_zero = true;
                            },
                            None => {
                                let i = Instruction::Loop(inner);
                                proof {
                                    lemma_view_push(out@, i);
                                }
                                out.push(i);
                            },
                        }
                    }
                }
            },
            Instruction::SetCell(v) => {
                let i = Instruction::SetCell(*v);
                proof {
                    lemma_view_push(out@, i);
                }
                out.push(i);
                known_zero = *v == 0;
            },
            Instruction::MultiplyMove(table) => {
                let i = Instruction::MultiplyMove(table.clone());
                proof {
                    lemma_view_push(out@, i);
                }
                out.push(i);
                known_zero = true;
            },
            Instruction::Write => {
                let i = Instruction::Write;
                proof {
                    lemma_view_push(out@, i);
                }
                out.push(i);
            },
            other => {
                let i = other.clone();
                proof {
                    lemma_view_push(out@, i);
                }
                out.push(i);
                known_zero = false;
            },
        }
        k += 1;
    }
    assert(p.take(k as int) =~= p);
    (out, known_zero)
}

/// One pass of the optimiser over a whole program.
pub fn optimize_once(instrs: &Vec<Instruction>) -> (r: Vec<Instruction>)
    ensures
        program_view(r@) == pass(program_view(instrs@)),
{
    let merged = combine(instrs);
    let (out, _) = sweep(&merged, true);
    out
}

/// Whether two tables hold the same factors at the same offsets.
pub fn same_table(a: &HashMap<isize, Cell>, b: &HashMap<isize, Cell>) -> (r: bool)
    ensures
        r == (offsets_view(a@) == offsets_view(b@)),
{
    broadcast use vstd::std_specs::hash::group_hash_axioms;

    let left = table_entries(a);
    let mut k: usize = 0;
    while k < left.len()
        invariant
            k <= left.len(),
            forall|i: int|
                0 <= i < left.len() ==> a@.contains_key((#[trigger] left[i]).0) && a@[left[i].0]
                    == left[i].1,
            forall|i: int|
                0 <= i < k ==> b@.contains_key((#[trigger] left[i]).0) && b@[left[i].0]
                    == left[i].1,
        decreases left.len() - k,
    {
        let found = match b.get(&left[k].0) {
            Some(v) => *v == left[k].1,
            None => false,
        };
        if !found {
            proof {
                let o = left[k as int].0;
                lemma_offsets_view_updates(a@, o, 0);
                lemma_offsets_view_updates(b@, o, 0);
            }
            return false;
        }
        k += 1;
    }
    let right = table_entries(b);
    k = 0;
    while k < right.len()
        invariant
            k <= right.len(),
            forall|i: int|
                0 <= i < right.len() ==> b@.contains_key((#[trigger] right[i]).0),
            forall|i: int| 0 <= i < k ==> a@.contains_key((#[trigger] right[i]).0),
        decreases right.len() - k,
    {
        if a.get(&right[k].0).is_none() {
            proof {
                let o = right[k as int].0;
                lemma_offsets_view_updates(a@, o, 0);
                lemma_offsets_view_updates(b@, o, 0);
            }
            return false;
        }
        k += 1;
    }
    proof {
        assert forall|o: isize| a@.contains_key(o) implies b@.contains_key(o) && b@[o] == a@[o] by {
            let i = choose|i: int| 0 <= i < left.len() && left[i].0 == o;
            assert(b@.contains_key(left[i].0));
        }
        assert forall|o: isize| b@.contains_key(o) implies a@.contains_key(o) by {
            let i = choose|i: int| 0 <= i < right.len() && right[i].0 == o;
            assert(a@.contains_key(right[i].0));
        }
        assert(a@ =~= b@);
    }
    true
}

/// Whether two instructions are the same tree.
pub fn same_instruction(a: &Instruction, b: &Instruction) -> (r: bool)
    ensures
        r == (a@ == b@),
    decreases *a,
{
    match a {
        Instruction::Increment(x) => match b {
            Instruction::Increment(y) => *x == *y,
            _ => false,
        },
        Instruction::PointerIncrement(x) => match b {
            Instruction::PointerIncrement(y) => *x == *y,
            _ => false,
        },
        Instruction::Read => match b {
            Instruction::Read => true,
            _ => false,
        },
        Instruction::Write => match b {
            Instruction::Write => true,
            _ => false,
        },
        Instruction::SetCell(x) => match b {
            Instruction::SetCell(y) => *x == *y,
            _ => false,
        },
        Instruction::MultiplyMove(x) => match b {
            Instruction::MultiplyMove(y) => same_table(x, y),
            _ => false,
        },
        Instruction::Loop(x) => match b {
            Instruction::Loop(y) => {
                if x.len() != y.len() {
                    assert(program_view(x@).len() != program_view(y@).len());
                    return false;
                }
                let mut k: usize = 0;
                while k < x.len()
                    invariant
                        *a is Loop,
                        a->Loop_0 == *x,
                        *b is Loop,
                        b->Loop_0 == *y,
                        k <= x.len(),
                        x.len() == y.len(),
                        forall|j: int| 0 <= j < k ==> x[j]@ == y[j]@,
                    decreases x.len() - k,
                {
                    proof {
                        vstd::std_specs::vec::axiom_vec_index_decreases(*x, k as int);
                    }
                    if !same_instruction(&x[k], &y[k]) {
                        assert(program_view(x@)[k as int] != program_view(y@)[k as int]);
                        return false;
                    }
                    k += 1;
                }
                assert(program_view(x@) =~= program_view(y@));
                true
            },
            _ => false,
        },
    }
}

/// Whether two programs are the same sequence of trees.
pub fn same_program(a: &Vec<Instruction>, b: &Vec<Instruction>) -> (r: bool)
    ensures
        r == (program_view(a@) == program_view(b@)),
{
    if a.len() != b.len() {
        assert(program_view(a@).len() != program_view(b@).len());
        return false;
    }
    let mut k: usize = 0;
    while k < a.len()
        invariant
            k <= a.len(),
            a.len() == b.len(),
            forall|j: int| 0 <= j < k ==> a[j]@ == b[j]@,
        decreases a.len() - k,
    {
        if !same_instruction(&a[k], &b[k]) {
            assert(program_view(a@)[k as int] != program_view(b@)[k as int]);
            return false;
        }
        k += 1;
    }
    assert(program_view(a@) =~= program_view(b@));
    true
}

/// Optimises a program: repeats the pass until it changes nothing. The
/// result behaves as `instrs` does when started on a zero cell.
pub fn optimize(instrs: Vec<Instruction>) -> (r: Vec<Instruction>)
    ensures
        program_view(r@) == optimized(program_view(instrs@)),
        pass(program_view(r@)) == program_view(r@),
        program_size(program_view(r@)) <= program_size(program_view(instrs@)),
        well_formed(program_view(instrs@)) ==> well_formed(program_view(r@)),
{
    let mut current = instrs;
    loop
        invariant
            optimized(program_view(current@)) == optimized(program_view(instrs@)),
        decreases program_size(program_view(current@)),
    {
        let next = optimize_once(&current);
        proof {
            lemma_pass_size(program_view(current@));
        }
        if same_program(&next, &current) {
            proof {
                let p = program_view(instrs@);
                lemma_optimized_is_fixed(p);
                lemma_optimized_size(p);
                if well_formed(p) {
                    lemma_optimized_well_formed(p);
                }
            }
            return current;
        }
        current = next;
    }
}

} // verus!

//! The instruction tree and its mathematical form.

use vstd::prelude::*;
use std::collections::HashMap;

verus! {

/// One tape cell: eight bits, all arithmetic on it wraps.
pub type Cell = u8;

/// A node of the instruction tree.
#[derive(PartialEq, Eq, Debug)]
pub enum Instruction {
    /// Adds to the current cell, wrapping; 255 takes one away.
    Increment(Cell),
    /// Moves the pointer by so many cells, to the left where negative.
    PointerIncrement(isize),
    /// Reads one byte of input into the current cell.
    Read,
    /// Writes the current cell.
    Write,
    /// Runs its body as long as the current cell is not zero.
    Loop(Vec<Instruction>),
    /// Overwrites the current cell. Only the optimiser produces it.
    SetCell(Cell),
    /// Adds a multiple of the current cell to each listed offset, then
    /// zeroes the current cell. Only the optimiser produces it.
    MultiplyMove(HashMap<isize, Cell>),
}

/// The mathematical form of an instruction.
pub ghost enum Instr {
    Increment(u8),
    PointerIncrement(int),
    Read,
    Write,
    Loop(Seq<Instr>),
    SetCell(u8),
    MultiplyMove(Map<int, u8>),
}

/// The sum of two cells, wrapped to eight bits.
pub open spec fn cell_add(a: u8, b: u8) -> u8 {
    ((a + b) % 256) as u8
}

/// The product of two cells, wrapped to eight bits.
pub open spec fn cell_mul(a: u8, b: u8) -> u8 {
    ((a * b) % 256) as u8
}

/// Adds two cells, wrapping.
pub fn add_cells(a: u8, b: u8) -> (r: u8)
    ensures
        r == cell_add(a, b),
{
    a.wrapping_add(b)
}

/// Multiplies two cells, wrapping.
pub fn multiply_cells(a: u8, b: u8) -> (r: u8)
    ensures
        r == cell_mul(a, b),
{
    a.wrapping_mul(b)
}

/// The instruction is well formed: no multiply-move in it names offset zero,
/// which is the current cell itself.
pub open spec fn instr_well_formed(i: Instr) -> bool
    decreases i,
{
    match i {
        Instr::Loop(body) => forall|k: int|
            0 <= k < body.len() ==> instr_well_formed(#[trigger] body[k]),
        Instr::MultiplyMove(t) => !t.contains_key(0),
        _ => true,
    }
}

/// Every instruction of the program is well formed.
pub open spec fn well_formed(p: Seq<Instr>) -> bool {
    forall|k: int| 0 <= k < p.len() ==> instr_well_formed(#[trigger] p[k])
}

/// The number of nodes of an instruction: itself and, for a loop, its body.
pub open spec fn instr_size(i: Instr) -> nat
    decreases i,
{
    match i {
        Instr::Loop(body) => 1 + program_size(body),
        _ => 1,
    }
}

/// The number of nodes of a program.
pub open spec fn program_size(p: Seq<Instr>) -> nat
    decreases p,
{
    if p.len() == 0 {
        0
    } else {
        program_size(p.drop_last()) + instr_size(p.last())
    }
}

/// The mathematical form of one instruction.
pub open spec fn instr_view(i: Instruction) -> Instr
    decreases i,
{
    match i {
        Instruction::Increment(d) => Instr::Increment(d),
        Instruction::PointerIncrement(d) => Instr::PointerIncrement(d as int),
        Instruction::Read => Instr::Read,
        Instruction::Write => Instr::Write,
        Instruction::Loop(body) => Instr::Loop(program_view(body@)),
        Instruction::SetCell(v) => Instr::SetCell(v),
        Instruction::MultiplyMove(m) => Instr::MultiplyMove(offsets_view(m@)),
    }
}

/// The mathematical form of a program: each instruction by its own form.
pub open spec fn program_view(p: Seq<Instruction>) -> Seq<Instr>
    decreases p,
{
    Seq::new(
        p.len(),
        |k: int|
            if 0 <= k < p.len() {
                instr_view(p[k])
            } else {
                Instr::Read
            },
    )
}

/// The table of a multiply-move with its offsets as mathematical integers.
pub open spec fn offsets_view(m: Map<isize, Cell>) -> Map<int, u8> {
    Map::new(
        |o: int| isize::MIN <= o <= isize::MAX && m.contains_key(o as isize),
        |o: int| m[o as isize],
    )
}

impl View for Instruction {
    type V = Instr;

    open spec fn view(&self) -> Instr {
        instr_view(*self)
    }
}

impl Clone for Instruction {
    fn clone(&self) -> (r: Self)
        ensures
            r@ == self@,
        decreases *self,
    {
        match self {
            Instruction::Increment(d) => Instruction::Increment(*d),
            Instruction::PointerIncrement(d) => Instruction::PointerIncrement(*d),
            Instruction::Read => Instruction::Read,
            Instruction::Write => Instruction::Write,
            Instruction::Loop(body) => {
                let mut copy: Vec<Instruction> = Vec::new();
                let mut k: usize = 0;
                while k < body.len()
                    invariant
                        *self is Loop,
                        self->Loop_0 == *body,
                        k <= body.len(),
                        copy.len() == k,
                        forall|j: int| 0 <= j < k ==> copy[j]@ == body[j]@,
                    decreases body.len() - k,
                {
                    proof {
                        vstd::std_specs::vec::axiom_vec_index_decreases(*body, k as int);
                    }
                    let c = body[k].clone();
                    copy.push(c);
                    k += 1;
                }
                assert(program_view(copy@) =~= program_view(body@));
                Instruction::Loop(copy)
            },
            Instruction::SetCell(v) => Instruction::SetCell(*v),
            Instruction::MultiplyMove(m) => Instruction::MultiplyMove(m.clone()),
        }
    }
}

/// Pushing an instruction onto a program appends its form.
pub proof fn lemma_view_push(p: Seq<Instruction>, i: Instruction)
    ensures
        program_view(p.push(i)) == program_view(p).push(i@),
{
    assert(program_view(p.push(i)) =~= program_view(p).push(i@));
}

/// Dropping the last instruction of a program drops the last of its form.
pub proof fn lemma_view_drop_last(p: Seq<Instruction>)
    requires
        p.len() > 0,
    ensures
        program_view(p.drop_last()) == program_view(p).drop_last(),
        program_view(p).last() == p.last()@,
{
    assert(program_view(p.drop_last()) =~= program_view(p).drop_last());
}

/// A table's form follows the table through `insert`, `remove` and lookup.
pub proof fn lemma_offsets_view_updates(m: Map<isize, Cell>, k: isize, v: Cell)
    ensures
        offsets_view(m.insert(k, v)) == offsets_view(m).insert(k as int, v),
        offsets_view(m.remove(k)) == offsets_view(m).remove(k as int),
        offsets_view(m).contains_key(k as int) == m.contains_key(k),
        m.contains_key(k) ==> offsets_view(m)[k as int] == m[k],
        offsets_view(Map::<isize, Cell>::empty()) == Map::<int, u8>::empty(),
{
    assert(offsets_view(m.insert(k, v)) =~= offsets_view(m).insert(k as int, v));
    assert(offsets_view(m.remove(k)) =~= offsets_view(m).remove(k as int));
    assert(offsets_view(Map::<isize, Cell>::empty()) =~= Map::<int, u8>::empty());
}

/// The entries of a multiply-move table as a list, each offset once.
pub fn table_entries(m: &HashMap<isize, Cell>) -> (r: Vec<(isize, Cell)>)
    ensures
        r.len() == m@.len(),
        forall|i: int|
            0 <= i < r.len() ==> m@.contains_key(#[trigger] r[i].0) && m@[r[i].0] == r[i].1,
        forall|k: isize|
            m@.contains_key(k) ==> exists|i: int| 0 <= i < r.len() && #[trigger] r[i].0 == k,
        forall|i: int, j: int| 0 <= i < j < r.len() ==> r[i].0 != r[j].0,
{
    broadcast use vstd::std_specs::hash::group_hash_axioms;
    let mut entries: Vec<(isize, Cell)> = Vec::new();
    for pair in it: m.iter()
        invariant
            entries.len() == it.index(),
            it.seq().no_duplicates(),
            forall|i: int|
                0 <= i < it.seq().len() ==> m@.contains_key(*(#[trigger] it.seq()[i]).0)
                    && m@[*it.seq()[i].0] == *it.seq()[i].1,
            forall|i: int, j: int| 0 <= i < j < entries.len() ==> entries[i].0 != entries[j].0,
            forall|i: int|
                0 <= i < entries.len() ==> entries[i].0 == *it.seq()[i].0 && entries[i].1
                    == *it.seq()[i].1,
    {
        proof {
            let n = it.index() as int;
            assert forall|i: int| 0 <= i < n implies entries[i].0 != *pair.0 by {
                let a = it.seq()[i];
                let b = it.seq()[n];
                if *a.0 == *b.0 {
                    assert(a == b);
                }
            }
        }
        entries.push((*pair.0, *pair.1));
    }
    entries
}

} // verus!

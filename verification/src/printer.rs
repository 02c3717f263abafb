//! The textual form of instructions, as a listing shows them.

use vstd::prelude::*;
use vstd::string::*;
use std::collections::HashMap;
use crate::bfir::{Cell, Instr, Instruction, offsets_view, program_view, table_entries};
use crate::text::{append_decimal, decimal};

verus! {

/// The decimal digits of an integer, with a minus sign where it is negative.
pub open spec fn signed_decimal(d: int) -> Seq<char> {
    if d < 0 {
        "-"@ + decimal((-d) as nat)
    } else {
        decimal(d as nat)
    }
}

/// Two spaces for each of `n` levels of nesting.
pub open spec fn indentation(n: nat) -> Seq<char>
    decreases n,
{
    if n == 0 {
        Seq::empty()
    } else {
        indentation((n - 1) as nat) + "  "@
    }
}

/// `es` lists the table `t` by rising offset: each entry of `t` once.
pub open spec fn is_sorted_listing(es: Seq<(int, u8)>, t: Map<int, u8>) -> bool {
    &&& forall|i: int, j: int| 0 <= i < j < es.len() ==> es[i].0 < es[j].0
    &&& forall|i: int| 0 <= i < es.len() ==> t.contains_key(#[trigger] es[i].0) && t[es[i].0] == es[i].1
    &&& forall|k: int| t.contains_key(k) ==> exists|i: int| 0 <= i < es.len() && #[trigger] es[i].0 == k
}

/// The entries of a table by rising offset (nothing for a table that has no
/// such listing, as one with infinitely many offsets).
pub open spec fn sorted_listing(t: Map<int, u8>) -> Seq<(int, u8)> {
    if exists|es: Seq<(int, u8)>| is_sorted_listing(es, t) {
        choose|es: Seq<(int, u8)>| is_sorted_listing(es, t)
    } else {
        Seq::empty()
    }
}

/// The text of one entry of a table.
pub open spec fn entry_text(e: (int, u8)) -> Seq<char> {
    signed_decimal(e.0) + ": "@ + decimal(e.1 as nat)
}

/// The text of the entries of a table, separated by commas.
pub open spec fn entries_text(es: Seq<(int, u8)>) -> Seq<char>
    decreases es.len(),
{
    if es.len() == 0 {
        Seq::empty()
    } else if es.len() == 1 {
        entry_text(es[0])
    } else {
        entries_text(es.drop_last()) + ", "@ + entry_text(es.last())
    }
}

/// The listing of an instruction behind the indentation `prefix`: its name
/// and, in brackets, what it carries; for a loop the word `Loop` and then
/// each instruction of its body on a line of its own, two spaces further in.
pub open spec fn instr_listing(i: Instr, prefix: Seq<char>) -> Seq<char>
    decreases i,
{
    prefix + match i {
        Instr::Increment(d) => "Increment("@ + decimal(d as nat) + ")"@,
        Instr::PointerIncrement(d) => "PointerIncrement("@ + signed_decimal(d) + ")"@,
        Instr::Read => "Read"@,
        Instr::Write => "Write"@,
        Instr::Loop(body) => "Loop"@ + body_listing(body, prefix + "  "@),
        Instr::SetCell(v) => "Set("@ + decimal(v as nat) + ")"@,
        Instr::MultiplyMove(t) => "MultiplyMove({"@ + entries_text(sorted_listing(t)) + "})"@,
    }
}

/// The listing of the instructions of a loop body, each after a line break.
pub open spec fn body_listing(body: Seq<Instr>, prefix: Seq<char>) -> Seq<char>
    decreases body,
{
    if body.len() == 0 {
        Seq::empty()
    } else {
        body_listing(body.drop_last(), prefix) + "\n"@ + instr_listing(body.last(), prefix)
    }
}

/// The entries of a list of machine entries as mathematical pairs.
pub open spec fn entries_view(es: Seq<(isize, Cell)>) -> Seq<(int, u8)> {
    Seq::new(es.len(), |i: int| (es[i].0 as int, es[i].1))
}

/// A table has one listing by rising offset at most.
pub proof fn lemma_sorted_listing_unique(a: Seq<(int, u8)>, b: Seq<(int, u8)>, t: Map<int, u8>)
    requires
        is_sorted_listing(a, t),
        is_sorted_listing(b, t),
    ensures
        a == b,
    decreases a.len(),
{
    if a.len() == 0 {
        if b.len() > 0 {
            assert(t.contains_key(b[0].0));
        }
        assert(a =~= b);
    } else {
        assert(t.contains_key(a[0].0));
        let j = choose|j: int| 0 <= j < b.len() && b[j].0 == a[0].0;
        assert(t.contains_key(b[0].0));
        let i = choose|i: int| 0 <= i < a.len() && a[i].0 == b[0].0;
        assert(j == 0 && i == 0);
        let rest = t.remove(a[0].0);
        let a1 = a.drop_first();
        let b1 = b.drop_first();
        assert(is_sorted_listing(a1, rest)) by {
            assert forall|k: int| rest.contains_key(k) implies exists|i: int|
                0 <= i < a1.len() && #[trigger] a1[i].0 == k by {
                let i = choose|i: int| 0 <= i < a.len() && a[i].0 == k;
                assert(a1[i - 1].0 == k);
            }
            assert forall|i: int| 0 <= i < a1.len() implies rest.contains_key(
                #[trigger] a1[i].0,
            ) && rest[a1[i].0] == a1[i].1 by {
                assert(a1[i] == a[i + 1]);
                assert(a[0].0 < a[i + 1].0);
            }
        }
        assert(is_sorted_listing(b1, rest)) by {
            assert forall|k: int| rest.contains_key(k) implies exists|i: int|
                0 <= i < b1.len() && #[trigger] b1[i].0 == k by {
                let i = choose|i: int| 0 <= i < b.len() && b[i].0 == k;
                assert(b1[i - 1].0 == k);
            }
            assert forall|i: int| 0 <= i < b1.len() implies rest.contains_key(
                #[trigger] b1[i].0,
            ) && rest[b1[i].0] == b1[i].1 by {
                assert(b1[i] == b[i + 1]);
                assert(b[0].0 < b[i + 1].0);
            }
        }
        lemma_sorted_listing_unique(a1, b1, rest);
        assert(a =~= seq![a[0]] + a1);
        assert(b =~= seq![b[0]] + b1);
    }
}

/// The entries are in the order of strictly rising offsets.
pub open spec fn is_rising(es: Seq<(isize, Cell)>) -> bool {
    forall|i: int, j: int| 0 <= i < j < es.len() ==> es[i].0 < es[j].0
}

/// Puts an entry into a list of rising offsets, at its place.
pub fn insert_rising(sorted: &mut Vec<(isize, Cell)>, e: (isize, Cell))
    requires
        is_rising(old(sorted)@),
        forall|i: int| 0 <= i < old(sorted).len() ==> old(sorted)[i].0 != e.0,
    ensures
        is_rising(final(sorted)@),
        final(sorted).len() == old(sorted).len() + 1,
        forall|x: (isize, Cell)|
            final(sorted)@.contains(x) <==> (x == e || old(sorted)@.contains(x)),
{
    let mut at: usize = 0;
    while at < sorted.len() && sorted[at].0 < e.0
        invariant
            at <= sorted.len(),
            forall|i: int| 0 <= i < at ==> sorted[i].0 < e.0,
        decreases sorted.len() - at,
    {
        at += 1;
    }
    let ghost before = sorted@;
    proof {
        assert forall|i: int| at <= i < before.len() implies before[i].0 > e.0 by {
            if i > at {
                assert(before[at as int].0 < before[i].0);
            }
        }
    }
    sorted.insert(at, e);
    proof {
        let after = sorted@;
        assert forall|i: int, j: int| 0 <= i < j < after.len() implies after[i].0 < after[j].0 by {
            let x = if i < at {
                before[i]
            } else if i == at {
                e
            } else {
                before[i - 1]
            };
            let y = if j < at {
                before[j]
            } else if j == at {
                e
            } else {
                before[j - 1]
            };
            assert(after[i] == x && after[j] == y);
        }
        assert forall|x: (isize, Cell)| after.contains(x) <==> (x == e || before.contains(x)) by {
            if after.contains(x) {
                let i = choose|i: int| 0 <= i < after.len() && after[i] == x;
                if i < at {
                    assert(before[i] == x);
                } else if i > at {
                    assert(before[i - 1] == x);
                }
            }
            if x == e {
                assert(after[at as int] == x);
            }
            if before.contains(x) {
                let i = choose|i: int| 0 <= i < before.len() && before[i] == x;
                if i < at {
                    assert(after[i] == x);
                } else {
                    assert(after[i + 1] == x);
                }
            }
        }
    }
}

/// The entries of a table by rising offset.
pub fn sorted_entries(m: &HashMap<isize, Cell>) -> (r: Vec<(isize, Cell)>)
    ensures
        entries_view(r@) == sorted_listing(offsets_view(m@)),
        is_sorted_listing(entries_view(r@), offsets_view(m@)),
{
    let entries = table_entries(m);
    let mut sorted: Vec<(isize, Cell)> = Vec::new();
    let mut k: usize = 0;
    while k < entries.len()
        invariant
            k <= entries.len(),
            forall|i: int, j: int| 0 <= i < j < entries.len() ==> entries[i].0 != entries[j].0,
            is_rising(sorted@),
            forall|x: (isize, Cell)|
                sorted@.contains(x) <==> exists|j: int| 0 <= j < k && #[trigger] entries[j] == x,
        decreases entries.len() - k,
    {
        let e = entries[k];
        let ghost before = sorted@;
        proof {
            assert forall|i: int| 0 <= i < before.len() implies before[i].0 != e.0 by {
                assert(before.contains(before[i]));
                let j = choose|j: int| 0 <= j < k && #[trigger] entries[j] == before[i];
                assert(entries[j].0 != entries[k as int].0);
            }
        }
        insert_rising(&mut sorted, e);
        proof {
            assert forall|x: (isize, Cell)| sorted@.contains(x) <==> exists|j: int|
                0 <= j < k + 1 && #[trigger] entries[j] == x by {
                if x == e {
                    assert(entries[k as int] == x);
                }
                if before.contains(x) {
                    let j = choose|j: int| 0 <= j < k && #[trigger] entries[j] == x;
                    assert(0 <= j < k + 1 && entries[j] == x);
                }
                if exists|j: int| 0 <= j < k + 1 && #[trigger] entries[j] == x {
                    let j = choose|j: int| 0 <= j < k + 1 && #[trigger] entries[j] == x;
                    if j < k {
                        assert(before.contains(x));
                    }
                }
            }
        }
        k += 1;
    }
    proof {
        let es = entries_view(sorted@);
        let t = offsets_view(m@);
        assert(is_sorted_listing(es, t)) by {
            assert forall|i: int| 0 <= i < es.len() implies t.contains_key(#[trigger] es[i].0)
                && t[es[i].0] == es[i].1 by {
                assert(sorted@.contains(sorted[i]));
                let j = choose|j: int| 0 <= j < entries.len() && #[trigger] entries[j] == sorted[i];
                assert(m@.contains_key(entries[j].0));
            }
            assert forall|o: int| t.contains_key(o) implies exists|i: int|
                0 <= i < es.len() && #[trigger] es[i].0 == o by {
                let j = choose|j: int| 0 <= j < entries.len() && entries[j].0 == o as isize;
                assert(sorted@.contains(entries[j]));
                let i = choose|i: int| 0 <= i < sorted.len() && sorted[i] == entries[j];
                assert(es[i].0 == o);
            }
        }
        lemma_sorted_listing_unique(es, sorted_listing(t), t);
    }
    sorted
}

/// Appends the decimal digits of `d`, with a minus sign where it is
/// negative.
pub fn append_signed(out: &mut String, d: isize)
    ensures
        final(out)@ == old(out)@ + signed_decimal(d as int),
{
    if d < 0 {
        out.append("-");
        let magnitude: usize = if d == isize::MIN {
            (isize::MAX as usize) + 1
        } else {
            (-d) as usize
        };
        append_decimal(out, magnitude);
        assert(final(out)@ =~= old(out)@ + signed_decimal(d as int));
    } else {
        append_decimal(out, d as usize);
    }
}

/// Appends the entries of a table, separated by commas.
pub fn append_entries(out: &mut String, entries: &Vec<(isize, Cell)>)
    ensures
        final(out)@ == old(out)@ + entries_text(entries_view(entries@)),
{
    let ghost es = entries_view(entries@);
    let mut k: usize = 0;
    assert(es.take(0) =~= Seq::<(int, u8)>::empty());
    assert(out@ =~= old(out)@ + entries_text(es.take(0)));
    while k < entries.len()
        invariant
            k <= entries.len(),
            es == entries_view(entries@),
            out@ == old(out)@ + entries_text(es.take(k as int)),
        decreases entries.len() - k,
    {
        let ghost shown = out@;
        proof {
            assert(es.take(k + 1).drop_last() =~= es.take(k as int));
            assert(es.take(k + 1).last() == es[k as int]);
        }
        if k > 0 {
            out.append(", ");
        }
        append_signed(out, entries[k].0);
        out.append(": ");
        append_decimal(out, entries[k].1 as usize);
        proof {
            let e = es[k as int];
            if k > 0 {
                assert(out@ =~= shown + ", "@ + entry_text(e));
                assert(out@ =~= old(out)@ + (entries_text(es.take(k as int)) + ", "@ + entry_text(
                    e,
                )));
            } else {
                assert(out@ =~= shown + entry_text(e));
                assert(es.take(1)[0] == e);
                assert(out@ =~= old(out)@ + entry_text(e));
            }
        }
        k += 1;
    }
    assert(es.take(k as int) =~= es);
}

/// Appends the listing of `instr` to `out`, behind the indentation
/// `prefix`.
pub fn append_listing(out: &mut String, instr: &Instruction, prefix: &String)
    ensures
        final(out)@ == old(out)@ + instr_listing(instr@, prefix@),
    decreases *instr,
{
    out.append(prefix.as_str());
    let ghost start = out@;
    match instr {
        Instruction::Increment(d) => {
            out.append("Increment(");
            append_decimal(out, *d as usize);
            out.append(")");
            assert(out@ =~= old(out)@ + instr_listing(instr@, prefix@));
        },
        Instruction::PointerIncrement(d) => {
            out.append("PointerIncrement(");
            append_signed(out, *d);
            out.append(")");
            assert(out@ =~= old(out)@ + instr_listing(instr@, prefix@));
        },
        Instruction::Read => {
            out.append("Read");
            assert(out@ =~= old(out)@ + instr_listing(instr@, prefix@));
        },
        Instruction::Write => {
            out.append("Write");
            assert(out@ =~= old(out)@ + instr_listing(instr@, prefix@));
        },
        Instruction::SetCell(v) => {
            out.append("Set(");
            append_decimal(out, *v as usize);
            out.append(")");
            assert(out@ =~= old(out)@ + instr_listing(instr@, prefix@));
        },
        Instruction::MultiplyMove(table) => {
            out.append("MultiplyMove({");
            let entries = sorted_entries(table);
            append_entries(out, &entries);
            out.append("})");
            assert(out@ =~= old(out)@ + instr_listing(instr@, prefix@));
        },
        Instruction::Loop(body) => {
            out.append("Loop");
            let mut deeper = prefix.clone();
            deeper.append("  ");
            let ghost p = program_view(body@);
            let ghost head = out@;
            let mut k: usize = 0;
            assert(p.take(0) =~= Seq::<Instr>::empty());
            assert(out@ =~= head + body_listing(p.take(0), deeper@));
            while k < body.len()
                invariant
                    *instr is Loop,
                    instr->Loop_0 == *body,
                    k <= body.len(),
                    p == program_view(body@),
                    deeper@ == prefix@ + "  "@,
                    out@ == head + body_listing(p.take(k as int), deeper@),
                decreases body.len() - k,
            {
                let ghost shown = out@;
                proof {
                    assert(p.take(k + 1).drop_last() =~= p.take(k as int));
                    assert(p.take(k + 1).last() == body[k as int]@);
                    vstd::std_specs::vec::axiom_vec_index_decreases(*body, k as int);
                }
                out.append("\n");
                append_listing(out, &body[k], &deeper);
                assert(out@ =~= head + (body_listing(p.take(k as int), deeper@) + "\n"@
                    + instr_listing(body[k as int]@, deeper@)));
                k += 1;
            }
            assert(p.take(k as int) =~= p);
            assert(out@ =~= old(out)@ + instr_listing(instr@, prefix@));
        },
    }
}

/// Appends the listing of `instr` to `out`, indented by `indent` levels.
pub fn fmt_with_indent(instr: &Instruction, indent: usize, out: &mut String)
    ensures
        final(out)@ == old(out)@ + instr_listing(instr@, indentation(indent as nat)),
{
    let mut prefix = String::new();
    let mut k: usize = 0;
    while k < indent
        invariant
            k <= indent,
            prefix@ == indentation(k as nat),
        decreases indent - k,
    {
        prefix.append("  ");
        k += 1;
    }
    append_listing(out, instr, &prefix);
}

impl Instruction {
    /// The listing of the instruction.
    pub fn to_string(&self) -> (r: String)
        ensures
            r@ == instr_listing(self@, Seq::empty()),
    {
        let mut out = String::new();
        fmt_with_indent(self, 0, &mut out);
        assert(out@ =~= instr_listing(self@, Seq::empty()));
        out
    }
}

/// What a listing of a program shows: a note for an empty program, else
/// the listing of each instruction, each followed by a line break.
pub open spec fn program_listing(p: Seq<Instr>) -> Seq<char> {
    if p.len() == 0 {
        "(optimized out)\n"@
    } else {
        lines_listing(p)
    }
}

/// The listing of each instruction of `p`, each followed by a line break.
pub open spec fn lines_listing(p: Seq<Instr>) -> Seq<char>
    decreases p,
{
    if p.len() == 0 {
        Seq::empty()
    } else {
        lines_listing(p.drop_last()) + instr_listing(p.last(), Seq::empty()) + "\n"@
    }
}

/// The listing of a program, as a dump of the instructions shows it.
pub fn dump_ir(instrs: &Vec<Instruction>) -> (r: String)
    ensures
        r@ == program_listing(program_view(instrs@)),
{
    if instrs.len() == 0 {
        return String::from_str("(optimized out)\n");
    }
    let ghost p = program_view(instrs@);
    let mut out = String::new();
    let mut k: usize = 0;
    assert(p.take(0) =~= Seq::<Instr>::empty());
    while k < instrs.len()
        invariant
            k <= instrs.len(),
            p == program_view(instrs@),
            out@ == lines_listing(p.take(k as int)),
        decreases instrs.len() - k,
    {
        proof {
            assert(p.take(k + 1).drop_last() =~= p.take(k as int));
            assert(p.take(k + 1).last() == instrs[k as int]@);
        }
        fmt_with_indent(&instrs[k], 0, &mut out);
        out.append("\n");
        k += 1;
    }
    assert(p.take(k as int) =~= p);
    out
}

} // verus!

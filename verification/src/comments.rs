//! The proof that comments do not matter: the tree of a source text is the
//! tree of its commands alone.

use vstd::prelude::*;
use crate::bfir::Instr;
use crate::parser::{
    ParseError, bracket_delta, close_of, command_of, commands, depth, is_command,
    lemma_commands_split, lemma_depth_stays_positive, lemma_scan_close, parse_range, parse_spec,
};

verus! {

/// The tree of a parse, if there is one.
pub open spec fn tree_of(r: Result<Seq<Instr>, ParseError>) -> Option<Seq<Instr>> {
    match r {
        Ok(tree) => Some(tree),
        Err(_) => None,
    }
}

/// All the commands of a text.
pub open spec fn all_commands(s: Seq<char>) -> Seq<char> {
    commands(s, 0, s.len() as int)
}

/// How many commands come before index `k` of `s`: where the character at
/// `k` stands among the commands.
pub open spec fn place(s: Seq<char>, k: int) -> int {
    commands(s, 0, k).len() as int
}

/// The place moves on by one over a command, which stands at its place
/// among the commands, and stays over a comment.
pub proof fn lemma_place_step(s: Seq<char>, k: int)
    requires
        0 <= k < s.len(),
    ensures
        0 <= place(s, k) <= place(s, k + 1) <= all_commands(s).len(),
        is_command(s[k]) ==> place(s, k + 1) == place(s, k) + 1 && all_commands(s)[place(s, k)]
            == s[k],
        !is_command(s[k]) ==> place(s, k + 1) == place(s, k),
{
    let n = s.len() as int;
    lemma_commands_split(s, 0, k, k + 1);
    lemma_commands_split(s, 0, k + 1, n);
    lemma_commands_split(s, 0, k, n);
    lemma_commands_split(s, k, k + 1, n);
    assert(commands(s, k + 1, k + 1) =~= Seq::<char>::empty());
    if is_command(s[k]) {
        assert(commands(s, k, k + 1) =~= seq![s[k]]);
    } else {
        assert(commands(s, k, k + 1) =~= Seq::<char>::empty());
    }
}

/// The place never falls.
pub proof fn lemma_place_rises(s: Seq<char>, a: int, b: int)
    requires
        0 <= a <= b <= s.len(),
    ensures
        0 <= place(s, a) <= place(s, b) <= all_commands(s).len(),
    decreases b - a,
{
    if a < b {
        lemma_place_rises(s, a, b - 1);
        lemma_place_step(s, b - 1);
    } else if a < s.len() {
        lemma_place_step(s, a);
    } else {
        assert(commands(s, 0, a) == all_commands(s));
    }
}

/// The depth of a stretch is the depth of its commands.
pub proof fn lemma_place_depth(s: Seq<char>, a: int, k: int)
    requires
        0 <= a <= k <= s.len(),
    ensures
        depth(s, a, k) == depth(all_commands(s), place(s, a), place(s, k)),
    decreases k - a,
{
    let c = all_commands(s);
    if a < k {
        lemma_place_depth(s, a, k - 1);
        lemma_place_step(s, k - 1);
        lemma_place_rises(s, a, k - 1);
        if !is_command(s[k - 1]) {
            assert(bracket_delta(s[k - 1]) == 0);
        }
    }
}

/// Every place between those of two indices is the place of an index
/// between them.
pub proof fn lemma_place_onto(s: Seq<char>, a: int, b: int, j: int) -> (k: int)
    requires
        0 <= a <= b <= s.len(),
        place(s, a) < j <= place(s, b),
    ensures
        a < k <= b,
        place(s, k) == j,
    decreases b - a,
{
    lemma_place_step(s, b - 1);
    if place(s, b) == j {
        b
    } else {
        lemma_place_onto(s, a, b - 1, j)
    }
}

/// The bracket that closes a `[` among the commands is the one that closes
/// it in the text.
pub proof fn lemma_place_close(s: Seq<char>, a: int, b: int)
    requires
        0 <= a < b <= s.len(),
        s[a] == '[',
    ensures
        ({
            let here = close_of(s, a, b);
            let there = close_of(all_commands(s), place(s, a), place(s, b));
            &&& a < here <= b
            &&& here < b ==> there == place(s, here) && place(s, here + 1) == there + 1
            &&& here == b ==> there == place(s, b)
        }),
{
    let c = all_commands(s);
    let here = close_of(s, a, b);
    let from = place(s, a);
    let to = place(s, b);
    let there = close_of(c, from, to);
    lemma_place_rises(s, a, b);
    lemma_place_step(s, a);
    lemma_place_rises(s, a + 1, b);
    assert(depth(s, a, a) == 0);
    assert(depth(c, from, from) == 0);
    lemma_scan_close(s, a, a, b, 0);
    lemma_scan_close(c, from, from, to, 0);
    assert(depth(s, a, a + 1) == 1);
    if here < b {
        lemma_depth_stays_positive(s, a, here);
        assert(depth(s, a, here + 1) == depth(s, a, here) + bracket_delta(s[here]));
        assert(s[here] == ']');
        lemma_place_step(s, here);
        lemma_place_rises(s, a, here);
        lemma_place_rises(s, here + 1, b);
        let zero = place(s, here + 1);
        lemma_place_depth(s, a, here + 1);
        if there >= zero {
            assert(depth(c, from, zero) != 0);
        }
        let k = lemma_place_onto(s, a, here + 1, there + 1);
        lemma_place_depth(s, a, k);
        if k <= here {
            assert(depth(s, a, k) != 0);
        }
    } else {
        if there < to {
            let k = lemma_place_onto(s, a, b, there + 1);
            lemma_place_depth(s, a, k);
            assert(depth(s, a, k) != 0);
        }
    }
}

/// The tree of a stretch of a text is the tree of the commands of that
/// stretch, taken where they stand among the commands of the text.
pub proof fn lemma_place_parse(s: Seq<char>, a: int, b: int)
    requires
        0 <= a <= b <= s.len(),
    ensures
        tree_of(parse_range(s, a, b)) == tree_of(
            parse_range(all_commands(s), place(s, a), place(s, b)),
        ),
    decreases b - a,
{
    let c = all_commands(s);
    let from = place(s, a);
    let to = place(s, b);
    let goal = tree_of(parse_range(s, a, b)) == tree_of(parse_range(c, from, to));
    lemma_place_rises(s, a, b);
    if a < b {
        lemma_place_step(s, a);
        lemma_place_rises(s, a + 1, b);
        let next = place(s, a + 1);
        if !is_command(s[a]) {
            lemma_place_parse(s, a + 1, b);
            assert(command_of(s[a]) is None);
            assert(parse_range(s, a, b) == parse_range(s, a + 1, b));
            assert(goal);
        } else if s[a] == '[' {
            let here = close_of(s, a, b);
            let there = close_of(c, from, to);
            lemma_place_close(s, a, b);
            assert(c[from] == '[');
            if here < b {
                lemma_place_parse(s, a + 1, here);
                lemma_place_parse(s, here + 1, b);
                lemma_place_rises(s, a + 1, here);
                lemma_place_rises(s, here + 1, b);
                assert(from < there < to);
                assert(next == from + 1);
                assert(place(s, here + 1) == there + 1);
                assert(goal);
            } else {
                assert(goal);
            }
        } else if s[a] == ']' {
            assert(c[from] == ']');
            assert(goal);
        } else {
            lemma_place_parse(s, a + 1, b);
            assert(command_of(s[a]) is Some);
            assert(c[from] == s[a]);
            assert(next == from + 1);
            assert(goal);
        }
    } else {
        assert(goal);
    }
}

/// Comments are ignored: a text has the tree that its commands alone have,
/// and none if they have none.
pub proof fn lemma_comments_ignored(s: Seq<char>)
    ensures
        tree_of(parse_spec(s)) == tree_of(parse_spec(all_commands(s))),
{
    lemma_place_parse(s, 0, s.len() as int);
    assert(commands(s, 0, 0) =~= Seq::<char>::empty());
}

/// Two texts with the same commands have the same tree, or both have none.
pub proof fn lemma_same_commands_same_tree(a: Seq<char>, b: Seq<char>)
    requires
        all_commands(a) == all_commands(b),
    ensures
        tree_of(parse_spec(a)) == tree_of(parse_spec(b)),
{
    lemma_comments_ignored(a);
    lemma_comments_ignored(b);
}

} // verus!

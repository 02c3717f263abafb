//! Parsing of source text into the instruction tree.

use vstd::prelude::*;
use vstd::string::*;
use crate::bfir::{
    Instr, Instruction, instr_well_formed, lemma_view_push, program_view, well_formed,
};
use crate::text::{append_decimal, decimal};

verus! {

/// Why a source text has no instruction tree. The index counts characters.
#[derive(Debug, Clone, Copy, PartialEq, Eq, Structural)]
pub enum ParseError {
    /// A `]` with no `[` before it to close.
    UnmatchedClose(usize),
    /// A `[` that no later `]` closes.
    UnmatchedOpen(usize),
}

/// The effect of one character on the bracket depth.
pub open spec fn bracket_delta(c: char) -> int {
    if c == '[' {
        1
    } else if c == ']' {
        -1
    } else {
        0
    }
}

/// Scans `s` from `i` with the depth reached so far, and gives the first
/// index below `end` at which the depth is zero after the character there,
/// or `end` if there is none.
pub open spec fn scan_close(s: Seq<char>, i: int, end: int, depth: int) -> int
    decreases end - i,
{
    if i >= end {
        end
    } else {
        let d = depth + bracket_delta(s[i]);
        if d == 0 {
            i
        } else {
            scan_close(s, i + 1, end, d)
        }
    }
}

/// The index of the `]` that closes the `[` at `open`, looking no further
/// than `end`; `end` itself where nothing closes it.
pub open spec fn close_of(s: Seq<char>, open: int, end: int) -> int {
    scan_close(s, open, end, 0)
}

/// The instruction that a character other than a bracket stands for, if any.
pub open spec fn command_of(c: char) -> Option<Instr> {
    if c == '+' {
        Some(Instr::Increment(1))
    } else if c == '-' {
        Some(Instr::Increment(255))
    } else if c == '>' {
        Some(Instr::PointerIncrement(1))
    } else if c == '<' {
        Some(Instr::PointerIncrement(-1))
    } else if c == ',' {
        Some(Instr::Read)
    } else if c == '.' {
        Some(Instr::Write)
    } else {
        None
    }
}

/// Puts `first` in front of a successful result and leaves a failure as it is.
pub open spec fn prepend(first: Seq<Instr>, rest: Result<Seq<Instr>, ParseError>) -> Result<
    Seq<Instr>,
    ParseError,
> {
    match rest {
        Ok(r) => Ok(first + r),
        Err(e) => Err(e),
    }
}

/// The meaning of the characters of `s` from `start` up to `end`: the tree
/// they denote, or the first bracket found to have no partner.
pub open spec fn parse_range(s: Seq<char>, start: int, end: int) -> Result<Seq<Instr>, ParseError>
    decreases end - start,
{
    if start >= end {
        Ok(Seq::empty())
    } else if s[start] == '[' {
        let close = close_of(s, start, end);
        if start < close < end {
            match parse_range(s, start + 1, close) {
                Ok(body) => prepend(seq![Instr::Loop(body)], parse_range(s, close + 1, end)),
                Err(e) => Err(e),
            }
        } else {
            Err(ParseError::UnmatchedOpen(start as usize))
        }
    } else if s[start] == ']' {
        Err(ParseError::UnmatchedClose(start as usize))
    } else {
        match command_of(s[start]) {
            Some(i) => prepend(seq![i], parse_range(s, start + 1, end)),
            None => parse_range(s, start + 1, end),
        }
    }
}

/// The meaning of a whole source text.
pub open spec fn parse_spec(s: Seq<char>) -> Result<Seq<Instr>, ParseError> {
    parse_range(s, 0, s.len() as int)
}

/// The diagnostic for a parse error.
pub open spec fn error_message(e: ParseError) -> Seq<char> {
    match e {
        ParseError::UnmatchedClose(i) => "Unmatched ] at index "@ + decimal(i as nat) + "."@,
        ParseError::UnmatchedOpen(i) => "Could not find matching ] for [ at index "@ + decimal(
            i as nat,
        ) + "."@,
    }
}

impl ParseError {
    /// The character index of the offending bracket.
    pub fn index(&self) -> (r: usize)
        ensures
            r == match *self {
                ParseError::UnmatchedClose(i) => i,
                ParseError::UnmatchedOpen(i) => i,
            },
    {
        match self {
            ParseError::UnmatchedClose(i) => *i,
            ParseError::UnmatchedOpen(i) => *i,
        }
    }

    /// The diagnostic as text.
    pub fn message(&self) -> (r: String)
        ensures
            r@ == error_message(*self),
    {
        match self {
            ParseError::UnmatchedClose(i) => {
                let mut m = String::from_str("Unmatched ] at index ");
                append_decimal(&mut m, *i);
                m.append(".");
                assert(m@ =~= error_message(*self));
                m
            },
            ParseError::UnmatchedOpen(i) => {
                let mut m = String::from_str("Could not find matching ] for [ at index ");
                append_decimal(&mut m, *i);
                m.append(".");
                assert(m@ =~= error_message(*self));
                m
            },
        }
    }
}

/// The characters of a text, in order.
pub fn characters(source: &str) -> (r: Vec<char>)
    ensures
        r@ == source@,
{
    let mut chars: Vec<char> = Vec::new();
    for c in it: source.chars()
        invariant
            it.seq() == source@,
            chars@ == it.seq().take(it.index() as int),
    {
        chars.push(c);
        assert(chars@ =~= it.seq().take(it.index() + 1));
    }
    assert(chars@ =~= source@);
    chars
}

/// Finds the `]` that closes the `[` at `open_index`, looking no further than
/// `end`; returns `end` where nothing closes it.
pub fn find_close(chars: &Vec<char>, open_index: usize, end: usize) -> (r: usize)
    requires
        open_index < end <= chars.len(),
        chars[open_index as int] == '[',
    ensures
        r == close_of(chars@, open_index as int, end as int),
        open_index < r <= end,
{
    let mut nesting_depth: usize = 1;
    let mut index: usize = open_index + 1;
    while index < end
        invariant
            open_index < index <= end <= chars.len(),
            1 <= nesting_depth <= index - open_index,
            close_of(chars@, open_index as int, end as int) == scan_close(
                chars@,
                index as int,
                end as int,
                nesting_depth as int,
            ),
        decreases end - index,
    {
        let c = chars[index];
        if c == '[' {
            nesting_depth += 1;
        } else if c == ']' {
            nesting_depth -= 1;
            if nesting_depth == 0 {
                return index;
            }
        }
        index += 1;
    }
    end
}

/// Parses the characters from `start` up to, but excluding, `end`.
pub fn parse_between(chars: &Vec<char>, start: usize, end: usize) -> (r: Result<
    Vec<Instruction>,
    ParseError,
>)
    requires
        start <= end <= chars.len(),
    ensures
        match r {
            Ok(p) => parse_range(chars@, start as int, end as int) == Ok::<
                Seq<Instr>,
                ParseError,
            >(program_view(p@)),
            Err(e) => parse_range(chars@, start as int, end as int) == Err::<
                Seq<Instr>,
                ParseError,
            >(e),
        },
    decreases end - start,
{
    let mut instructions: Vec<Instruction> = Vec::new();
    let mut index: usize = start;
    assert(program_view(instructions@) =~= Seq::<Instr>::empty());
    assert(prepend(Seq::<Instr>::empty(), parse_range(chars@, start as int, end as int))
        == parse_range(chars@, start as int, end as int)) by {
        let r = parse_range(chars@, start as int, end as int);
        if let Ok(q) = r {
            assert(Seq::<Instr>::empty() + q =~= q);
        }
    }
    while index < end
        invariant
            start <= index <= end <= chars.len(),
            parse_range(chars@, start as int, end as int) == prepend(
                program_view(instructions@),
                parse_range(chars@, index as int, end as int),
            ),
        decreases end - index,
    {
        let ghost before = program_view(instructions@);
        let ghost tail = parse_range(chars@, index as int, end as int);
        let c = chars[index];
        if c == '[' {
            let close_index = find_close(chars, index, end);
            if close_index >= end {
                return Err(ParseError::UnmatchedOpen(index));
            }
            let loop_body = match parse_between(chars, index + 1, close_index) {
                Ok(b) => b,
                Err(e) => {
                    return Err(e);
                },
            };
            let ghost body = program_view(loop_body@);
            let instr = Instruction::Loop(loop_body);
            proof {
                lemma_view_push(instructions@, instr);
                lemma_prepend_push(
                    before,
                    Instr::Loop(body),
                    parse_range(chars@, close_index + 1, end as int),
                );
            }
            instructions.push(instr);
            index = close_index + 1;
        } else if c == ']' {
            return Err(ParseError::UnmatchedClose(index));
        } else {
            let ghost next = parse_range(chars@, index + 1, end as int);
            if c == '+' {
                let instr = Instruction::Increment(1);
                proof {
                    lemma_view_push(instructions@, instr);
                    lemma_prepend_push(before, instr@, next);
                }
                instructions.push(instr);
            } else if c == '-' {
                let instr = Instruction::Increment(255);
                proof {
                    lemma_view_push(instructions@, instr);
                    lemma_prepend_push(before, instr@, next);
                }
                instructions.push(instr);
            } else if c == '>' {
                let instr = Instruction::PointerIncrement(1);
                proof {
                    lemma_view_push(instructions@, instr);
                    lemma_prepend_push(before, instr@, next);
                }
                instructions.push(instr);
            } else if c == '<' {
                let instr = Instruction::PointerIncrement(-1);
                proof {
                    lemma_view_push(instructions@, instr);
                    lemma_prepend_push(before, instr@, next);
                }
                instructions.push(instr);
            } else if c == ',' {
                let instr = Instruction::Read;
                proof {
                    lemma_view_push(instructions@, instr);
                    lemma_prepend_push(before, instr@, next);
                }
                instructions.push(instr);
            } else if c == '.' {
                let instr = Instruction::Write;
                proof {
                    lemma_view_push(instructions@, instr);
                    lemma_prepend_push(before, instr@, next);
                }
                instructions.push(instr);
            }
            index += 1;
        }
    }
    proof {
        assert(program_view(instructions@) + Seq::<Instr>::empty() =~= program_view(
            instructions@,
        ));
    }
    Ok(instructions)
}

/// Prepending `first` and then `i` equals prepending `first` with `i` pushed.
pub proof fn lemma_prepend_push(first: Seq<Instr>, i: Instr, rest: Result<Seq<Instr>, ParseError>)
    ensures
        prepend(first, prepend(seq![i], rest)) == prepend(first.push(i), rest),
{
    if let Ok(r) = rest {
        assert(first + (seq![i] + r) =~= first.push(i) + r);
    }
}

/// Parses source text into an instruction tree. Characters other than the
/// eight commands are comments. Fails with a diagnostic that names the
/// character index of the first bracket without a partner.
pub fn parse(source: &str) -> (r: Result<Vec<Instruction>, String>)
    ensures
        match r {
            Ok(p) => parse_spec(source@) == Ok::<Seq<Instr>, ParseError>(program_view(p@)),
            Err(msg) => parse_spec(source@) is Err && msg@ == error_message(
                parse_spec(source@)->Err_0,
            ),
        },
        r is Ok <==> balanced(source@),
        r matches Ok(p) ==> is_source_form(program_view(p@)) && well_formed(program_view(p@))
            && program_text(program_view(p@)) == commands(source@, 0, source@.len() as int),
{
    proof {
        lemma_parse_succeeds_iff_balanced(source@);
        if parse_spec(source@) is Ok {
            lemma_parse_range_text(source@, 0, source@.len() as int);
            lemma_source_form_well_formed(parse_spec(source@)->Ok_0);
        }
    }
    let chars = characters(source);
    match parse_between(&chars, 0, chars.len()) {
        Ok(p) => Ok(p),
        Err(e) => Err(e.message()),
    }
}

/// The bracket depth that the characters of `s` from `from` up to `to`
/// add: the `[` among them less the `]`.
pub open spec fn depth(s: Seq<char>, from: int, to: int) -> int
    decreases to - from,
{
    if to <= from {
        0
    } else {
        depth(s, from, to - 1) + bracket_delta(s[to - 1])
    }
}

/// The brackets of `s` from `start` up to `end` match: no `]` comes before
/// its `[`, and every `[` is closed.
pub open spec fn balanced_range(s: Seq<char>, start: int, end: int) -> bool {
    &&& forall|k: int| start <= k <= end ==> depth(s, start, k) >= 0
    &&& depth(s, start, end) == 0
}

/// The brackets of a whole source text match.
pub open spec fn balanced(s: Seq<char>) -> bool {
    balanced_range(s, 0, s.len() as int)
}

/// The depth of a stretch is the sum of the depths of its two parts.
pub proof fn lemma_depth_split(s: Seq<char>, a: int, b: int, c: int)
    requires
        a <= b <= c,
    ensures
        depth(s, a, c) == depth(s, a, b) + depth(s, b, c),
    decreases c - b,
{
    if b < c {
        lemma_depth_split(s, a, b, c - 1);
    }
}

/// What the scan for a closing bracket finds: the first index after which
/// the depth counted from `open` is zero.
pub proof fn lemma_scan_close(s: Seq<char>, open: int, i: int, end: int, d: int)
    requires
        open <= i <= end,
        d == depth(s, open, i),
        forall|k: int| open < k <= i ==> depth(s, open, k) != 0,
    ensures
        ({
            let c = scan_close(s, i, end, d);
            &&& i <= c <= end
            &&& c < end ==> depth(s, open, c + 1) == 0
            &&& forall|k: int| open < k <= c ==> depth(s, open, k) != 0
        }),
    decreases end - i,
{
    if i < end {
        let next = d + bracket_delta(s[i]);
        assert(depth(s, open, i + 1) == next);
        if next != 0 {
            lemma_scan_close(s, open, i + 1, end, next);
        }
    }
}

/// Behind a `[`, as long as the depth has not come back to zero it is at
/// least one.
pub proof fn lemma_depth_stays_positive(s: Seq<char>, open: int, k: int)
    requires
        s[open] == '[',
        open < k,
        forall|j: int| open < j <= k ==> depth(s, open, j) != 0,
    ensures
        depth(s, open, k) >= 1,
    decreases k - open,
{
    if k == open + 1 {
        assert(depth(s, open, open) == 0);
    } else {
        lemma_depth_stays_positive(s, open, k - 1);
    }
}

/// A stretch of source text has a tree exactly if its brackets match.
pub proof fn lemma_parse_range_balanced(s: Seq<char>, start: int, end: int)
    requires
        0 <= start <= end <= s.len(),
    ensures
        parse_range(s, start, end) is Ok <==> balanced_range(s, start, end),
    decreases end - start,
{
    let inner = start + 1;
    if start < end {
        assert(depth(s, start, start) == 0);
        assert(depth(s, start, inner) == bracket_delta(s[start]));
        if s[start] == '[' {
            let close = close_of(s, start, end);
            let rest = close + 1;
            lemma_scan_close(s, start, start, end, 0);
            if start < close < end {
                lemma_parse_range_balanced(s, inner, close);
                lemma_parse_range_balanced(s, rest, end);
                assert(balanced_range(s, inner, close)) by {
                    assert forall|k: int| inner <= k <= close implies #[trigger] depth(
                        s,
                        inner,
                        k,
                    ) >= 0 by {
                        lemma_depth_split(s, start, inner, k);
                        if k > inner {
                            lemma_depth_stays_positive(s, start, k);
                        }
                    }
                    lemma_depth_split(s, start, inner, close);
                    lemma_depth_stays_positive(s, start, close);
                    assert(depth(s, start, rest) == depth(s, start, close) + bracket_delta(
                        s[close],
                    ));
                }
                assert(parse_range(s, inner, close) is Ok);
                assert forall|k: int| rest <= k <= end implies #[trigger] depth(s, rest, k)
                    == depth(s, start, k) by {
                    lemma_depth_split(s, start, rest, k);
                }
                if balanced_range(s, start, end) {
                    assert(balanced_range(s, rest, end));
                }
                if balanced_range(s, rest, end) {
                    assert forall|k: int| start <= k <= end implies #[trigger] depth(s, start, k)
                        >= 0 by {
                        if k > close {
                            assert(depth(s, rest, k) >= 0);
                        } else if k > start {
                            lemma_depth_stays_positive(s, start, k);
                        }
                    }
                    assert(depth(s, rest, end) == depth(s, start, end));
                    assert(balanced_range(s, start, end));
                }
            } else {
                assert(close == end);
                lemma_depth_stays_positive(s, start, end);
            }
        } else if s[start] == ']' {
            assert(depth(s, start, inner) < 0);
        } else {
            lemma_parse_range_balanced(s, inner, end);
            assert forall|k: int| inner <= k <= end implies #[trigger] depth(s, inner, k)
                == depth(s, start, k) by {
                lemma_depth_split(s, start, inner, k);
            }
            if balanced_range(s, start, end) {
                assert(balanced_range(s, inner, end));
            }
            if balanced_range(s, inner, end) {
                assert forall|k: int| start <= k <= end implies #[trigger] depth(s, start, k)
                    >= 0 by {
                    if k >= inner {
                        assert(depth(s, inner, k) >= 0);
                    }
                }
                assert(depth(s, inner, end) == depth(s, start, end));
                assert(balanced_range(s, start, end));
            }
        }
    } else {
        assert(depth(s, start, start) == 0);
    }
}

/// A source text has a tree exactly if its brackets match.
pub proof fn lemma_parse_succeeds_iff_balanced(s: Seq<char>)
    ensures
        parse_spec(s) is Ok <==> balanced(s),
{
    lemma_parse_range_balanced(s, 0, s.len() as int);
}

/// Two stretches with matching brackets, one behind the other, are one
/// stretch with matching brackets.
pub proof fn lemma_balanced_concat(s: Seq<char>, a: int, b: int, c: int)
    requires
        a <= b <= c,
        balanced_range(s, a, b),
        balanced_range(s, b, c),
    ensures
        balanced_range(s, a, c),
{
    assert forall|k: int| a <= k <= c implies #[trigger] depth(s, a, k) >= 0 by {
        if k > b {
            lemma_depth_split(s, a, b, k);
            assert(depth(s, b, k) >= 0);
        }
    }
    lemma_depth_split(s, a, b, c);
}

/// Where a stretch of source text has no tree, the bracket that the error
/// names is the first without a partner: the brackets before it match, and
/// it is a `]`, or a `[` behind which the depth never comes back to zero.
pub proof fn lemma_parse_error_place(s: Seq<char>, start: int, end: int)
    requires
        0 <= start <= end <= s.len() <= usize::MAX,
    ensures
        match parse_range(s, start, end) {
            Ok(_) => true,
            Err(ParseError::UnmatchedClose(i)) => {
                &&& start <= i < end
                &&& s[i as int] == ']'
                &&& balanced_range(s, start, i as int)
            },
            Err(ParseError::UnmatchedOpen(i)) => {
                &&& start <= i < end
                &&& s[i as int] == '['
                &&& balanced_range(s, start, i as int)
                &&& forall|k: int| i < k <= end ==> #[trigger] depth(s, i as int, k) > 0
            },
        },
    decreases end - start,
{
    if start < end {
        let inner = start + 1;
        assert(depth(s, start, start) == 0);
        assert(depth(s, start, inner) == bracket_delta(s[start]));
        if s[start] == '[' {
            let close = close_of(s, start, end);
            let rest = close + 1;
            lemma_scan_close(s, start, start, end, 0);
            if start < close < end {
                lemma_parse_range_balanced(s, inner, close);
                assert(balanced_range(s, inner, close)) by {
                    assert forall|k: int| inner <= k <= close implies #[trigger] depth(
                        s,
                        inner,
                        k,
                    ) >= 0 by {
                        lemma_depth_split(s, start, inner, k);
                        if k > inner {
                            lemma_depth_stays_positive(s, start, k);
                        }
                    }
                    lemma_depth_split(s, start, inner, close);
                    lemma_depth_stays_positive(s, start, close);
                    assert(depth(s, start, rest) == depth(s, start, close) + bracket_delta(
                        s[close],
                    ));
                }
                assert(balanced_range(s, start, rest)) by {
                    assert forall|k: int| start <= k <= rest implies #[trigger] depth(
                        s,
                        start,
                        k,
                    ) >= 0 by {
                        if start < k <= close {
                            lemma_depth_stays_positive(s, start, k);
                        }
                    }
                }
                lemma_parse_error_place(s, rest, end);
                match parse_range(s, rest, end) {
                    Ok(_) => {},
                    Err(ParseError::UnmatchedClose(i)) => {
                        lemma_balanced_concat(s, start, rest, i as int);
                    },
                    Err(ParseError::UnmatchedOpen(i)) => {
                        lemma_balanced_concat(s, start, rest, i as int);
                    },
                }
            } else {
                assert forall|k: int| start < k <= end implies #[trigger] depth(s, start, k)
                    > 0 by {
                    lemma_depth_stays_positive(s, start, k);
                }
            }
        } else if s[start] == ']' {
        } else {
            lemma_parse_error_place(s, inner, end);
            assert(balanced_range(s, start, inner));
            match parse_range(s, inner, end) {
                Ok(_) => {},
                Err(ParseError::UnmatchedClose(i)) => {
                    lemma_balanced_concat(s, start, inner, i as int);
                },
                Err(ParseError::UnmatchedOpen(i)) => {
                    lemma_balanced_concat(s, start, inner, i as int);
                },
            }
        }
    }
}

/// The character is one of the eight commands.
pub open spec fn is_command(c: char) -> bool {
    c == '+' || c == '-' || c == '>' || c == '<' || c == ',' || c == '.' || c == '[' || c == ']'
}

/// The commands among the characters of `s` from `start` up to `end`, in
/// order: the text without its comments.
pub open spec fn commands(s: Seq<char>, start: int, end: int) -> Seq<char>
    decreases end - start,
{
    if start >= end {
        Seq::empty()
    } else if is_command(s[start]) {
        seq![s[start]] + commands(s, start + 1, end)
    } else {
        commands(s, start + 1, end)
    }
}

/// The source text of an instruction; nothing for one that no source text
/// denotes.
pub open spec fn instr_text(i: Instr) -> Seq<char>
    decreases i,
{
    match i {
        Instr::Increment(d) => if d == 1 {
            seq!['+']
        } else if d == 255 {
            seq!['-']
        } else {
            Seq::empty()
        },
        Instr::PointerIncrement(d) => if d == 1 {
            seq!['>']
        } else if d == -1 {
            seq!['<']
        } else {
            Seq::empty()
        },
        Instr::Read => seq![','],
        Instr::Write => seq!['.'],
        Instr::Loop(body) => seq!['['] + program_text(body) + seq![']'],
        _ => Seq::empty(),
    }
}

/// The source text of a program.
pub open spec fn program_text(p: Seq<Instr>) -> Seq<char>
    decreases p,
{
    if p.len() == 0 {
        Seq::empty()
    } else {
        instr_text(p[0]) + program_text(p.drop_first())
    }
}

/// The instruction is one that source text denotes: a step of one on a cell
/// or of the pointer, a read, a write, or a loop of such.
pub open spec fn is_source_instr(i: Instr) -> bool
    decreases i,
{
    match i {
        Instr::Increment(d) => d == 1 || d == 255,
        Instr::PointerIncrement(d) => d == 1 || d == -1,
        Instr::Read => true,
        Instr::Write => true,
        Instr::Loop(body) => is_source_form(body),
        _ => false,
    }
}

/// Every instruction of the program is one that source text denotes.
pub open spec fn is_source_form(p: Seq<Instr>) -> bool
    decreases p,
{
    p.len() == 0 || (is_source_instr(p[0]) && is_source_form(p.drop_first()))
}

/// A program in source form is well formed: it holds no multiply-move.
pub proof fn lemma_source_form_well_formed(p: Seq<Instr>)
    requires
        is_source_form(p),
    ensures
        well_formed(p),
    decreases p,
{
    if p.len() > 0 {
        let rest = p.drop_first();
        assert(is_source_instr(p[0]) && is_source_form(rest));
        lemma_source_form_well_formed(rest);
        match p[0] {
            Instr::Loop(body) => {
                assert(is_source_form(body));
                lemma_source_form_well_formed(body);
                assert(instr_well_formed(p[0]));
            },
            _ => {
                assert(instr_well_formed(p[0]));
            },
        }
        assert forall|k: int| 0 <= k < p.len() implies instr_well_formed(#[trigger] p[k]) by {
            if k > 0 {
                assert(p[k] == rest[k - 1]);
            }
        }
    }
}

/// The commands of a stretch are those of its two parts.
pub proof fn lemma_commands_split(s: Seq<char>, a: int, b: int, c: int)
    requires
        a <= b <= c,
    ensures
        commands(s, a, c) == commands(s, a, b) + commands(s, b, c),
    decreases b - a,
{
    if a < b {
        lemma_commands_split(s, a + 1, b, c);
        if is_command(s[a]) {
            assert(seq![s[a]] + (commands(s, a + 1, b) + commands(s, b, c)) =~= (seq![s[a]]
                + commands(s, a + 1, b)) + commands(s, b, c));
        }
    } else {
        assert(commands(s, a, b) + commands(s, b, c) =~= commands(s, b, c));
    }
}

/// The text and the form of a program with one instruction in front.
pub proof fn lemma_text_prepend(i: Instr, rest: Seq<Instr>)
    ensures
        program_text(seq![i] + rest) == instr_text(i) + program_text(rest),
        is_source_form(seq![i] + rest) == (is_source_instr(i) && is_source_form(rest)),
{
    assert((seq![i] + rest).drop_first() =~= rest);
}

/// The tree of a stretch of source text is in source form, and its text is
/// the stretch without its comments.
pub proof fn lemma_parse_range_text(s: Seq<char>, start: int, end: int)
    requires
        0 <= start <= end <= s.len(),
        parse_range(s, start, end) is Ok,
    ensures
        program_text(parse_range(s, start, end)->Ok_0) == commands(s, start, end),
        is_source_form(parse_range(s, start, end)->Ok_0),
    decreases end - start,
{
    if start < end {
        let inner = start + 1;
        if s[start] == '[' {
            let close = close_of(s, start, end);
            let rest = close + 1;
            lemma_scan_close(s, start, start, end, 0);
            lemma_parse_range_text(s, inner, close);
            lemma_parse_range_text(s, rest, end);
            let body = parse_range(s, inner, close)->Ok_0;
            let tail = parse_range(s, rest, end)->Ok_0;
            lemma_text_prepend(Instr::Loop(body), tail);
            lemma_commands_split(s, inner, close, end);
            assert(depth(s, start, start) == 0);
            assert(depth(s, start, rest) == depth(s, start, close) + bracket_delta(s[close]));
            lemma_depth_stays_positive(s, start, close);
            assert(s[close] == ']');
            assert(commands(s, close, end) == seq![s[close]] + commands(s, rest, end));
            assert(commands(s, start, end) =~= seq!['['] + commands(s, inner, close) + seq![']']
                + commands(s, rest, end));
        } else {
            lemma_parse_range_text(s, inner, end);
            let tail = parse_range(s, inner, end)->Ok_0;
            if let Some(i) = command_of(s[start]) {
                lemma_text_prepend(i, tail);
            }
        }
    }
}

} // verus!

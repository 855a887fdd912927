//! From source text to an instruction tree.
use vstd::prelude::*;

use crate::instr::{Instr, Node, instr_size, program_size, view_program};

verus! {

/// Why source text has no program.
#[derive(Debug, Clone, Copy, PartialEq, Eq, Structural)]
pub enum ParseError {
    /// A `[` has no matching `]` before the end of the text.
    UnclosedLoop,
}

/// The instruction that a single character stands for. Brackets and every
/// character outside the alphabet stand for none.
pub open spec fn simple_instr(c: char) -> Option<Instr> {
    if c == '<' {
        Some(Instr::Left)
    } else if c == '>' {
        Some(Instr::Right)
    } else if c == '+' {
        Some(Instr::Increment)
    } else if c == '-' {
        Some(Instr::Decrement)
    } else if c == '.' {
        Some(Instr::Output)
    } else if c == ',' {
        Some(Instr::InputReplace)
    } else {
        None
    }
}

/// Scanning `s[j..hi)` with `depth` loops open, the index of the `]` that
/// closes the outermost of them.
pub open spec fn matching_close(s: Seq<char>, j: int, hi: int, depth: nat) -> Option<int>
    decreases hi - j,
{
    if j >= hi {
        None
    } else if s[j] == '[' {
        matching_close(s, j + 1, hi, depth + 1)
    } else if s[j] == ']' {
        if depth <= 1 {
            Some(j)
        } else {
            matching_close(s, j + 1, hi, (depth - 1) as nat)
        }
    } else {
        matching_close(s, j + 1, hi, depth)
    }
}

/// The program that `s[i..hi)` parses to, or `None` where a loop in it is
/// left open.
pub open spec fn parse_range(s: Seq<char>, i: int, hi: int) -> Option<Seq<Instr>>
    decreases hi - i,
    via parse_range_decreases
{
    if i >= hi {
        Some(Seq::empty())
    } else if s[i] == '[' {
        match matching_close(s, i + 1, hi, 1) {
            None => None,
            Some(k) => match (parse_range(s, i + 1, k), parse_range(s, k + 1, hi)) {
                (Some(body), Some(rest)) => Some(seq![Instr::Loop(body)] + rest),
                _ => None,
            },
        }
    } else {
        prepend_opt(
            match simple_instr(s[i]) {
                Some(x) => seq![x],
                None => Seq::empty(),
            },
            parse_range(s, i + 1, hi),
        )
    }
}

#[via_fn]
proof fn parse_range_decreases(s: Seq<char>, i: int, hi: int) {
    if i < hi {
        lemma_close_bounds(s, i + 1, hi, 1);
    }
}

/// The program that the whole text parses to.
pub open spec fn parsed(s: Seq<char>) -> Option<Seq<Instr>> {
    parse_range(s, 0, s.len() as int)
}

/// `p` followed by the program `rest`, if there is one.
pub open spec fn prepend_opt(p: Seq<Instr>, rest: Option<Seq<Instr>>) -> Option<Seq<Instr>> {
    match rest {
        Some(r) => Some(p + r),
        None => None,
    }
}

/// A closing bracket found by the scan lies in the scanned range.
proof fn lemma_close_bounds(s: Seq<char>, j: int, hi: int, depth: nat)
    ensures
        matching_close(s, j, hi, depth) matches Some(k) ==> j <= k < hi && s[k] == ']',
    decreases hi - j,
{
    if j < hi {
        if s[j] == '[' {
            lemma_close_bounds(s, j + 1, hi, depth + 1);
        } else if s[j] == ']' {
            if depth > 1 {
                lemma_close_bounds(s, j + 1, hi, (depth - 1) as nat);
            }
        } else {
            lemma_close_bounds(s, j + 1, hi, depth);
        }
    }
}

/// Whether the `[` at index `q` of `s` has no matching `]` in `s[q+1..hi)`.
pub open spec fn unclosed_at(s: Seq<char>, q: int, hi: int) -> bool {
    s[q] == '[' && matching_close(s, q + 1, hi, 1) is None
}

/// Whether some `[` in the text has no matching `]` before the end.
pub open spec fn has_unclosed_loop(s: Seq<char>) -> bool {
    exists|q: int| 0 <= q < s.len() && #[trigger] unclosed_at(s, q, s.len() as int)
}

/// Whether a character yields a node: the six instructions and `[`.
pub open spec fn yields_node(c: char) -> bool {
    simple_instr(c) is Some || c == '['
}

/// The number of characters in `s[lo..hi)` that yield a node.
pub open spec fn node_chars(s: Seq<char>, lo: int, hi: int) -> nat
    decreases hi - lo,
{
    if lo >= hi {
        0
    } else {
        (if yields_node(s[lo]) { 1nat } else { 0nat }) + node_chars(s, lo + 1, hi)
    }
}

proof fn lemma_node_chars_split(s: Seq<char>, lo: int, mid: int, hi: int)
    requires
        lo <= mid <= hi,
    ensures
        node_chars(s, lo, hi) == node_chars(s, lo, mid) + node_chars(s, mid, hi),
    decreases mid - lo,
{
    if lo < mid {
        lemma_node_chars_split(s, lo + 1, mid, hi);
    }
}

proof fn lemma_size_prepend(x: Instr, rest: Seq<Instr>)
    ensures
        program_size(seq![x] + rest) == instr_size(x) + program_size(rest),
{
    assert((seq![x] + rest).drop_first() =~= rest);
}

/// The scan that finds a `]` in a range finds it in a longer range too, and
/// in a shorter one that still holds it.
proof fn lemma_close_range(s: Seq<char>, j: int, hi1: int, hi2: int, depth: nat)
    requires
        hi1 <= hi2,
    ensures
        matching_close(s, j, hi1, depth) matches Some(m) ==> matching_close(s, j, hi2, depth)
            == Some(m),
        matching_close(s, j, hi2, depth) matches Some(m) ==> (m < hi1 ==> matching_close(
            s,
            j,
            hi1,
            depth,
        ) == Some(m)),
    decreases hi2 - j,
{
    if j < hi2 {
        if s[j] == '[' {
            lemma_close_range(s, j + 1, hi1, hi2, depth + 1);
        } else if s[j] == ']' {
            if depth > 1 {
                lemma_close_range(s, j + 1, hi1, hi2, (depth - 1) as nat);
            }
        } else {
            lemma_close_range(s, j + 1, hi1, hi2, depth);
        }
    }
}

/// With fewer loops open the scan stops strictly earlier.
proof fn lemma_close_lower(s: Seq<char>, j: int, hi: int, a: nat, b: nat)
    requires
        1 <= a < b,
        matching_close(s, j, hi, b) is Some,
    ensures
        matching_close(s, j, hi, a) matches Some(m) && m < matching_close(s, j, hi, b)->0,
    decreases hi - j,
{
    lemma_close_bounds(s, j, hi, b);
    if s[j] == '[' {
        lemma_close_lower(s, j + 1, hi, a + 1, b + 1);
    } else if s[j] == ']' {
        if a > 1 {
            lemma_close_lower(s, j + 1, hi, (a - 1) as nat, (b - 1) as nat);
        } else {
            lemma_close_bounds(s, j + 1, hi, (b - 1) as nat);
        }
    } else {
        lemma_close_lower(s, j + 1, hi, a, b);
    }
}

/// A `[` inside a loop body is closed inside that body.
proof fn lemma_close_nested(s: Seq<char>, j: int, hi: int, depth: nat, q: int)
    requires
        depth >= 1,
        matching_close(s, j, hi, depth) matches Some(k) && j <= q < k,
        s[q] == '[',
    ensures
        matching_close(s, q + 1, hi, 1) matches Some(m) && m < matching_close(s, j, hi, depth)->0,
    decreases q - j,
{
    if q == j {
        lemma_close_lower(s, j + 1, hi, 1, depth + 1);
    } else if s[j] == '[' {
        lemma_close_nested(s, j + 1, hi, depth + 1, q);
    } else if s[j] == ']' {
        lemma_close_nested(s, j + 1, hi, (depth - 1) as nat, q);
    } else {
        lemma_close_nested(s, j + 1, hi, depth, q);
    }
}

/// `s[lo..hi)` parses exactly when each `[` in it is closed inside it.
proof fn lemma_parse_range_some(s: Seq<char>, lo: int, hi: int)
    requires
        0 <= lo <= hi <= s.len(),
    ensures
        parse_range(s, lo, hi) is Some <==> forall|q: int|
            lo <= q < hi ==> !#[trigger] unclosed_at(s, q, hi),
    decreases hi - lo,
{
    if lo < hi {
        if s[lo] != '[' {
            lemma_parse_range_some(s, lo + 1, hi);
            assert(!unclosed_at(s, lo, hi));
        } else {
            lemma_close_bounds(s, lo + 1, hi, 1);
            match matching_close(s, lo + 1, hi, 1) {
                None => {
                    assert(unclosed_at(s, lo, hi));
                },
                Some(k) => {
                    lemma_parse_range_some(s, lo + 1, k);
                    lemma_parse_range_some(s, k + 1, hi);
                    assert forall|q: int| lo + 1 <= q < k implies !#[trigger] unclosed_at(
                        s,
                        q,
                        k,
                    ) by {
                        if s[q] == '[' {
                            lemma_close_nested(s, lo + 1, hi, 1, q);
                            lemma_close_range(s, q + 1, k, hi, 1);
                        }
                    }
                    if forall|q: int| lo + 1 <= q < k ==> !#[trigger] unclosed_at(s, q, k) {
                        if forall|q: int| k + 1 <= q < hi ==> !#[trigger] unclosed_at(s, q, hi) {
                            assert forall|q: int| lo <= q < hi implies !#[trigger] unclosed_at(
                                s,
                                q,
                                hi,
                            ) by {
                                if lo < q < k {
                                    assert(!unclosed_at(s, q, k));
                                    lemma_close_range(s, q + 1, k, hi, 1);
                                }
                            }
                        } else {
                            let q = choose|q: int| k + 1 <= q < hi && #[trigger] unclosed_at(s, q, hi);
                            assert(lo <= q < hi && unclosed_at(s, q, hi));
                        }
                    }
                },
            }
        }
    }
}

/// The program that `s[lo..hi)` parses to has one node for each character
/// of it that yields one.
proof fn lemma_parse_range_size(s: Seq<char>, lo: int, hi: int)
    requires
        0 <= lo <= hi <= s.len(),
        parse_range(s, lo, hi) is Some,
    ensures
        program_size(parse_range(s, lo, hi)->0) == node_chars(s, lo, hi),
    decreases hi - lo,
{
    if lo < hi {
        if s[lo] != '[' {
            lemma_parse_range_size(s, lo + 1, hi);
            let rest = parse_range(s, lo + 1, hi)->0;
            match simple_instr(s[lo]) {
                Some(x) => {
                    lemma_size_prepend(x, rest);
                },
                None => {
                    assert(Seq::<Instr>::empty() + rest =~= rest);
                },
            }
        } else {
            lemma_close_bounds(s, lo + 1, hi, 1);
            let k = matching_close(s, lo + 1, hi, 1)->0;
            lemma_parse_range_size(s, lo + 1, k);
            lemma_parse_range_size(s, k + 1, hi);
            let body = parse_range(s, lo + 1, k)->0;
            let rest = parse_range(s, k + 1, hi)->0;
            lemma_size_prepend(Instr::Loop(body), rest);
            lemma_node_chars_split(s, lo + 1, k, hi);
            assert(node_chars(s, k, hi) == node_chars(s, k + 1, hi));
        }
    }
}

/// Text in which every `[` has its `]` always parses, to a program with one
/// node, at any depth, for each character among `<>+-.,[`.
pub proof fn lemma_parse_succeeds(s: Seq<char>)
    requires
        !has_unclosed_loop(s),
    ensures
        parsed(s) matches Some(p) && program_size(p) == node_chars(s, 0, s.len() as int),
{
    lemma_parse_range_some(s, 0, s.len() as int);
    lemma_parse_range_size(s, 0, s.len() as int);
}

/// Text with a `[` that is never closed has no program.
pub proof fn lemma_parse_rejects(s: Seq<char>)
    requires
        has_unclosed_loop(s),
    ensures
        parsed(s) is None,
{
    lemma_parse_range_some(s, 0, s.len() as int);
}

/// Relies on `str::chars`: the characters of the text, in order.
#[verifier::external_body]
fn chars_of(text: &str) -> (r: Vec<char>)
    ensures
        r@ == text@,
{
    text.chars().collect()
}

/// The node that a single character stands for, if any.
fn simple_node(c: char) -> (r: Option<Node>)
    ensures
        match r {
            Some(n) => simple_instr(c) == Some(n@),
            None => simple_instr(c) is None,
        },
{
    match c {
        '<' => Some(Node::Left),
        '>' => Some(Node::Right),
        '+' => Some(Node::Increment),
        '-' => Some(Node::Decrement),
        '.' => Some(Node::Output),
        ',' => Some(Node::InputReplace),
        _ => None,
    }
}

/// The index of the `]` that closes a loop whose body starts at `start`.
fn find_close(cs: &Vec<char>, start: usize, hi: usize) -> (r: Option<usize>)
    requires
        1 <= start <= hi <= cs.len(),
    ensures
        match r {
            Some(k) => matching_close(cs@, start as int, hi as int, 1) == Some(k as int),
            None => matching_close(cs@, start as int, hi as int, 1) is None,
        },
{
    let mut j: usize = start;
    let mut depth: usize = 1;
    while j < hi
        invariant
            1 <= start <= j <= hi <= cs.len(),
            1 <= depth <= j - start + 1,
            matching_close(cs@, start as int, hi as int, 1) == matching_close(
                cs@,
                j as int,
                hi as int,
                depth as nat,
            ),
        decreases hi - j,
    {
        let c = cs[j];
        if c == '[' {
            depth = depth + 1;
        } else if c == ']' {
            if depth == 1 {
                return Some(j);
            }
            depth = depth - 1;
        }
        j = j + 1;
    }
    None
}

/// Parses the characters `cs[lo..hi)`.
pub fn parse_between(cs: &Vec<char>, lo: usize, hi: usize) -> (r: Result<Vec<Node>, ParseError>)
    requires
        lo <= hi <= cs.len(),
    ensures
        match r {
            Ok(p) => parse_range(cs@, lo as int, hi as int) == Some(view_program(p@)),
            Err(e) => parse_range(cs@, lo as int, hi as int) is None && e == ParseError::UnclosedLoop,
        },
    decreases hi - lo,
{
    let mut program: Vec<Node> = Vec::new();
    let mut i: usize = lo;
    while i < hi
        invariant
            lo <= i <= hi <= cs.len(),
            parse_range(cs@, lo as int, hi as int) == prepend_opt(
                view_program(program@),
                parse_range(cs@, i as int, hi as int),
            ),
        decreases hi - i,
    {
        let ghost before = program@;
        if cs[i] == '[' {
            proof {
                lemma_close_bounds(cs@, i + 1, hi as int, 1);
            }
            match find_close(cs, i + 1, hi) {
                None => {
                    return Err(ParseError::UnclosedLoop);
                },
                Some(k) => {
                    match parse_between(cs, i + 1, k) {
                        Err(e) => {
                            return Err(e);
                        },
                        Ok(body) => {
                            program.push(Node::Loop(body));
                            assert(view_program(program@) =~= view_program(before) + seq![
                                program@.last()@,
                            ]);
                            i = k + 1;
                        },
                    }
                },
            }
        } else {
            match simple_node(cs[i]) {
                Some(n) => {
                    program.push(n);
                    assert(view_program(program@) =~= view_program(before) + seq![
                                program@.last()@,
                            ]);
                },
                None => {},
            }
            i = i + 1;
        }
    }
    Ok(program)
}

/// Parses source text into a program. Every character outside the
/// alphabet, a stray `]` among them, is skipped; a `[` without its `]` makes
/// the whole text fail.
pub fn parse(text: &str) -> (r: Result<Vec<Node>, ParseError>)
    ensures
        match r {
            Ok(p) => parsed(text@) == Some(view_program(p@)),
            Err(e) => parsed(text@) is None && e == ParseError::UnclosedLoop,
        },
{
    let cs = chars_of(text);
    parse_between(&cs, 0, cs.len())
}

} // verus!

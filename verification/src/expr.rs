//! Parsed regular expressions and the strings that they match.

use vstd::prelude::*;
use vstd::utf8::{encode_scalar, is_scalar};

verus! {

/// A parsed regular expression.
#[derive(Debug)]
pub enum Expr {
    /// The empty string.
    Empty,
    /// A byte string.
    Literal(Vec<u8>),
    /// One scalar value within one of the ranges, bounds included, in UTF-8.
    Unicode(Vec<(char, char)>),
    /// One byte within one of the ranges, bounds included.
    Bytes(Vec<(u8, u8)>),
    /// A position, such as the start of a line.
    Look,
    /// A group.
    Capture(Box<Expr>),
    /// At least `min` times, at most `max` times where there is a bound.
    Repetition { min: u32, max: Option<u32>, sub: Box<Expr> },
    /// One after the other.
    Concat(Vec<Expr>),
    /// Any one of them.
    Alternation(Vec<Expr>),
}

/// A parsed regular expression as a mathematical value.
pub enum Pattern {
    Empty,
    Literal(Seq<u8>),
    Unicode(Seq<(char, char)>),
    Bytes(Seq<(u8, u8)>),
    Look,
    Capture(Box<Pattern>),
    Repetition { min: u32, max: Option<u32>, sub: Box<Pattern> },
    Concat(Seq<Pattern>),
    Alternation(Seq<Pattern>),
}

/// The value of a parsed regular expression.
pub open spec fn pattern(h: Expr) -> Pattern
    decreases h,
{
    match h {
        Expr::Empty => Pattern::Empty,
        Expr::Literal(bytes) => Pattern::Literal(bytes@),
        Expr::Unicode(ranges) => Pattern::Unicode(ranges@),
        Expr::Bytes(ranges) => Pattern::Bytes(ranges@),
        Expr::Look => Pattern::Look,
        Expr::Capture(sub) => Pattern::Capture(Box::new(pattern(*sub))),
        Expr::Repetition { min, max, sub } => Pattern::Repetition {
            min,
            max,
            sub: Box::new(pattern(*sub)),
        },
        Expr::Concat(subs) => Pattern::Concat(
            Seq::new(
                subs@.len(),
                |i: int|
                    if 0 <= i < subs@.len() {
                        pattern(subs@[i])
                    } else {
                        arbitrary()
                    },
            ),
        ),
        Expr::Alternation(subs) => Pattern::Alternation(
            Seq::new(
                subs@.len(),
                |i: int|
                    if 0 <= i < subs@.len() {
                        pattern(subs@[i])
                    } else {
                        arbitrary()
                    },
            ),
        ),
    }
}

impl View for Expr {
    type V = Pattern;

    open spec fn view(&self) -> Pattern {
        pattern(*self)
    }
}

/// Whether code point `cp` lies in one of the ranges.
pub open spec fn in_ranges(ranges: Seq<(char, char)>, cp: u32) -> bool {
    exists|i: int|
        0 <= i < ranges.len() && (#[trigger] ranges[i]).0 as u32 <= cp <= ranges[i].1 as u32
}

/// Whether byte `b` lies in one of the ranges.
pub open spec fn in_byte_ranges(ranges: Seq<(u8, u8)>, b: u8) -> bool {
    exists|i: int| 0 <= i < ranges.len() && (#[trigger] ranges[i]).0 <= b <= ranges[i].1
}

/// Whether `n` is a number of times that a repetition allows.
pub open spec fn allowed(n: nat, min: u32, max: Option<u32>) -> bool {
    &&& min <= n
    &&& match max {
        Some(m) => n <= m,
        None => true,
    }
}

impl Pattern {
    /// Whether the pattern matches exactly the bytes `s`. What a look-around
    /// asks of the bytes before and after is left aside, so that this holds of
    /// every match, and of some strings that are none.
    pub open spec fn matches(self, s: Seq<u8>) -> bool
        decreases self, 0nat, 0nat,
    {
        match self {
            Pattern::Empty => s.len() == 0,
            Pattern::Look => s.len() == 0,
            Pattern::Literal(bytes) => s == bytes,
            Pattern::Unicode(ranges) => exists|cp: u32| #[trigger]
                in_ranges(ranges, cp) && is_scalar(cp) && s == encode_scalar(cp),
            Pattern::Bytes(ranges) => s.len() == 1 && in_byte_ranges(ranges, s[0]),
            Pattern::Capture(sub) => sub.matches(s),
            Pattern::Repetition { min, max, sub } => exists|n: nat| #[trigger]
                allowed(n, min, max) && sub.matches_times(n, s),
            Pattern::Concat(subs) => matches_each(subs, subs.len(), s),
            Pattern::Alternation(subs) => exists|i: int|
                0 <= i < subs.len() && (#[trigger] subs[i]).matches(s),
        }
    }

    /// Whether `s` is `n` matches in a row.
    pub open spec fn matches_times(self, n: nat, s: Seq<u8>) -> bool
        decreases self, 1nat, n,
    {
        if n == 0 {
            s.len() == 0
        } else {
            exists|k: int|
                0 <= k <= s.len() && self.matches_times((n - 1) as nat, #[trigger] s.take(k))
                    && self.matches(s.skip(k))
        }
    }
}

/// Whether `s` is a match of each of the first `n` patterns in turn.
pub open spec fn matches_each(subs: Seq<Pattern>, n: nat, s: Seq<u8>) -> bool
    decreases subs, 0nat, n,
{
    if n == 0 || n > subs.len() {
        s.len() == 0
    } else {
        exists|k: int|
            0 <= k <= s.len() && matches_each(subs, (n - 1) as nat, #[trigger] s.take(k))
                && subs[n - 1].matches(s.skip(k))
    }
}

/// What patterns match: a literal itself, a class one byte or one scalar value
/// of its ranges, a group and an alternation what a pattern in them does.
pub proof fn law_simple_matches(
    bytes: Seq<u8>,
    ranges: Seq<(u8, u8)>,
    chars: Seq<(char, char)>,
    subs: Seq<Pattern>,
    s: Seq<u8>,
)
    ensures
        Pattern::Literal(bytes).matches(s) <==> s == bytes,
        Pattern::Bytes(ranges).matches(s) <==> s.len() == 1 && exists|i: int|
            0 <= i < ranges.len() && (#[trigger] ranges[i]).0 <= s[0] <= ranges[i].1,
        forall|i: int, cp: u32|
            0 <= i < chars.len() && (#[trigger] chars[i]).0 as u32 <= cp <= chars[i].1 as u32
                && is_scalar(cp) ==> Pattern::Unicode(chars).matches(#[trigger] encode_scalar(cp)),
        Pattern::Alternation(subs).matches(s) <==> exists|i: int|
            0 <= i < subs.len() && (#[trigger] subs[i]).matches(s),
        forall|p: Pattern| #[trigger]
            Pattern::Capture(Box::new(p)).matches(s) <==> p.matches(s),
{
    assert forall|i: int, cp: u32|
        0 <= i < chars.len() && (#[trigger] chars[i]).0 as u32 <= cp <= chars[i].1 as u32
            && is_scalar(cp) implies Pattern::Unicode(chars).matches(
        #[trigger] encode_scalar(cp),
    ) by {
        let p = Pattern::Unicode(chars);
        assert(in_ranges(p->Unicode_0, cp));
    }
    let p = Pattern::Alternation(subs);
    assert(p->Alternation_0 == subs);
    if exists|i: int| 0 <= i < subs.len() && (#[trigger] subs[i]).matches(s) {
        let i = choose|i: int| 0 <= i < subs.len() && (#[trigger] subs[i]).matches(s);
        assert(p->Alternation_0[i].matches(s));
    }
}

/// Patterns one after the other match what is made of a match of each.
pub proof fn law_concat_matches(subs: Seq<Pattern>, p: Pattern, a: Seq<u8>, b: Seq<u8>)
    requires
        Pattern::Concat(subs).matches(a),
        p.matches(b),
    ensures
        Pattern::Concat(seq![]).matches(seq![]),
        Pattern::Concat(subs.push(p)).matches(a + b),
{
    let all = subs.push(p);
    let s = a + b;
    let n = subs.len();
    let k = a.len() as int;
    assert(s.take(k) =~= a);
    assert(s.skip(k) =~= b);
    lemma_matches_front(subs, all, n, a);
    assert(matches_each(all, n, s.take(k)) && all[n as int].matches(s.skip(k)));
    assert(matches_each(all, (n + 1) as nat, s));
    let none: Seq<Pattern> = seq![];
    assert(matches_each(none, none.len(), seq![]));
    assert(Pattern::Concat(none)->Concat_0 == none);
}

proof fn lemma_matches_front(subs: Seq<Pattern>, all: Seq<Pattern>, n: nat, s: Seq<u8>)
    requires
        n <= subs.len() <= all.len(),
        forall|i: int| 0 <= i < subs.len() ==> subs[i] == all[i],
        matches_each(subs, n, s),
    ensures
        matches_each(all, n, s),
    decreases n,
{
    if n > 0 {
        let k = choose|k: int|
            0 <= k <= s.len() && matches_each(subs, (n - 1) as nat, #[trigger] s.take(k)) && subs[n
                - 1].matches(s.skip(k));
        lemma_matches_front(subs, all, (n - 1) as nat, s.take(k));
        assert(matches_each(all, (n - 1) as nat, s.take(k)) && all[n - 1].matches(s.skip(k)));
    }
}

/// A repetition matches nothing at all if it may be left out, and whatever it
/// matches it matches with one match more, if that is not too many.
pub proof fn law_repetition_matches(
    p: Pattern,
    min: u32,
    max: Option<u32>,
    n: nat,
    a: Seq<u8>,
    b: Seq<u8>,
)
    requires
        p.matches_times(n, a),
        p.matches(b),
    ensures
        p.matches_times(0, seq![]),
        p.matches_times(n + 1, a + b),
        min <= n && (max matches Some(m) ==> n <= m) ==> (Pattern::Repetition {
            min,
            max,
            sub: Box::new(p),
        }).matches(a),
{
    let s = a + b;
    let k = a.len() as int;
    assert(s.take(k) =~= a);
    assert(s.skip(k) =~= b);
    assert(p.matches_times(n, s.take(k)) && p.matches(s.skip(k)));
    if min <= n && (max matches Some(m) ==> n <= m) {
        let q = Pattern::Repetition { min, max, sub: Box::new(p) };
        assert(allowed(n, q->min, q->max));
        assert(*q->sub == p);
        assert(q->sub.matches_times(n, a));
    }
}

} // verus!

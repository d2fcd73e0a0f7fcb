//! From regular expressions to trigram queries: what every match of a pattern
//! must contain.

use vstd::prelude::*;
use vstd::string::StringExecFns;
use vstd::utf8::{char_is_scalar, encode_scalar, is_scalar};

use crate::facts::{
    alternate, any_char, any_match, concat, empty_string, exactly, facts_any, facts_empty,
    facts_exact, facts_none, literal, no_match, plus, power, Facts, Info, MAX_SET,
};
use crate::expr::{Expr, Pattern};
use crate::query::{Formula, Query};
use crate::strset::{canon, clean, copy, texts};
use crate::syntax::{open_tree, parse_syntax, parsed};
use crate::text::encode;

verus! {

/// The encodings of the scalar values from `lo` to `hi`, both included.
pub open spec fn range_texts(lo: int, hi: int) -> Seq<Seq<u8>>
    decreases hi - lo + 1,
{
    if lo > hi {
        seq![]
    } else {
        let rest = range_texts(lo, hi - 1);
        if is_scalar(hi as u32) {
            rest.push(encode_scalar(hi as u32))
        } else {
            rest
        }
    }
}

/// The encodings of the scalar values in the first `n` ranges.
pub open spec fn scalar_texts(ranges: Seq<(char, char)>, n: nat) -> Seq<Seq<u8>>
    decreases n,
{
    if n == 0 || n > ranges.len() {
        seq![]
    } else {
        scalar_texts(ranges, (n - 1) as nat) + range_texts(
            ranges[n - 1].0 as u32 as int,
            ranges[n - 1].1 as u32 as int,
        )
    }
}

/// Whether a range spans more than `MAX_SET` code points.
pub open spec fn wide(range: (char, char)) -> bool {
    range.1 as u32 - range.0 as u32 >= MAX_SET
}

/// The strings of a class of scalar values, unless they are too many.
pub open spec fn unicode_set(ranges: Seq<(char, char)>) -> Option<Seq<Seq<u8>>> {
    let all = scalar_texts(ranges, ranges.len());
    if (exists|i: int| 0 <= i < ranges.len() && wide(#[trigger] ranges[i])) || all.len() > MAX_SET {
        None
    } else {
        Some(all)
    }
}

/// The bytes from `lo` to `hi`, both included, as strings.
pub open spec fn byte_range_texts(lo: u8, hi: u8) -> Seq<Seq<u8>> {
    Seq::new(
        if lo > hi {
            0
        } else {
            (hi - lo + 1) as nat
        },
        |i: int| seq![(lo + i) as u8],
    )
}

/// The bytes in the first `n` ranges, as strings.
pub open spec fn byte_texts(ranges: Seq<(u8, u8)>, n: nat) -> Seq<Seq<u8>>
    decreases n,
{
    if n == 0 || n > ranges.len() {
        seq![]
    } else {
        byte_texts(ranges, (n - 1) as nat) + byte_range_texts(ranges[n - 1].0, ranges[n - 1].1)
    }
}

/// The strings of a class of bytes, unless they are too many.
pub open spec fn byte_set(ranges: Seq<(u8, u8)>) -> Option<Seq<Seq<u8>>> {
    let all = byte_texts(ranges, ranges.len());
    if all.len() > MAX_SET {
        None
    } else {
        Some(all)
    }
}

/// The facts of a class of characters.
pub open spec fn class_facts(set: Option<Seq<Seq<u8>>>) -> Facts {
    match set {
        Some(e) => if e.len() == 0 {
            facts_none()
        } else {
            facts_exact(canon(e, false), false)
        },
        None => facts_any(false),
    }
}

/// What is known of the matches of a pattern.
pub open spec fn facts_of(p: Pattern) -> Facts
    decreases p,
{
    match p {
        Pattern::Empty => facts_empty(),
        Pattern::Look => facts_empty(),
        Pattern::Literal(bytes) => facts_exact(seq![bytes], bytes.len() == 0),
        Pattern::Unicode(ranges) => class_facts(unicode_set(ranges)),
        Pattern::Bytes(ranges) => class_facts(byte_set(ranges)),
        Pattern::Capture(sub) => facts_of(*sub),
        Pattern::Repetition { min, max, sub } => {
            let x = facts_of(*sub);
            if min == 0 {
                if max == Some(1u32) {
                    x.or_match(facts_empty())
                } else {
                    facts_any(true)
                }
            } else if max == Some(min) {
                x.power(min as nat)
            } else if max is Some {
                x.power(min as nat).then_match(facts_any(true))
            } else if min == 1 {
                x.repeated()
            } else {
                x.power((min - 1) as nat).then_match(x.repeated())
            }
        },
        Pattern::Concat(subs) => concat_facts(subs, subs.len()),
        Pattern::Alternation(subs) => alternate_facts(subs, subs.len()),
    }
}

/// The facts of the first `n` patterns one after the other.
pub open spec fn concat_facts(subs: Seq<Pattern>, n: nat) -> Facts
    decreases subs, n,
{
    if n == 0 || n > subs.len() {
        facts_empty()
    } else {
        concat_facts(subs, (n - 1) as nat).then_match(facts_of(subs[n - 1]))
    }
}

/// The facts of any of the first `n` patterns.
pub open spec fn alternate_facts(subs: Seq<Pattern>, n: nat) -> Facts
    decreases subs, n,
{
    if n == 0 || n > subs.len() {
        facts_none()
    } else {
        alternate_facts(subs, (n - 1) as nat).or_match(facts_of(subs[n - 1]))
    }
}

/// The query of a pattern.
pub open spec fn pattern_query(p: Pattern) -> Formula {
    facts_of(p).simplified(true).with_exact().m
}

/// What a class of strings comes to.
pub open spec fn set_view(set: Option<Vec<Vec<u8>>>) -> Option<Seq<Seq<u8>>> {
    match set {
        Some(v) => Some(texts(v@)),
        None => None,
    }
}

proof fn lemma_scalar_texts_grow(ranges: Seq<(char, char)>, a: nat, b: nat)
    requires
        a <= b <= ranges.len(),
    ensures
        scalar_texts(ranges, a).len() <= scalar_texts(ranges, b).len(),
    decreases b,
{
    if a < b {
        lemma_scalar_texts_grow(ranges, a, (b - 1) as nat);
    }
}

proof fn lemma_range_texts_grow(lo: int, a: int, b: int)
    requires
        lo - 1 <= a <= b,
    ensures
        range_texts(lo, a).len() <= range_texts(lo, b).len(),
    decreases b - a,
{
    if a < b {
        lemma_range_texts_grow(lo, a, b - 1);
    }
}

/// The strings of a class of scalar values, or `None` if it has more than
/// `MAX_SET`.
pub fn unicode_strings(ranges: &[(char, char)]) -> (r: Option<Vec<Vec<u8>>>)
    ensures
        set_view(r) == unicode_set(ranges@),
{
    let mut out: Vec<Vec<u8>> = Vec::new();
    let mut i: usize = 0;
    assert(texts(out@) =~= seq![]);
    while i < ranges.len()
        invariant
            i <= ranges@.len(),
            texts(out@) == scalar_texts(ranges@, i as nat),
            out@.len() <= MAX_SET,
            forall|k: int| 0 <= k < i ==> !wide(#[trigger] ranges@[k]),
        decreases ranges@.len() - i,
    {
        proof {
            char_is_scalar(ranges@[i as int].0);
            char_is_scalar(ranges@[i as int].1);
        }
        let lo: u32 = ranges[i].0 as u32;
        let hi: u32 = ranges[i].1 as u32;
        if hi >= lo && (hi - lo) as usize >= MAX_SET {
            assert(wide(ranges@[i as int]));
            return None;
        }
        let ghost front = texts(out@);
        let mut cp: u32 = lo;
        assert(front + range_texts(lo as int, lo - 1) =~= front);
        while cp <= hi
            invariant
                i < ranges@.len(),
                lo == ranges@[i as int].0 as u32,
                hi == ranges@[i as int].1 as u32,
                is_scalar(hi),
                lo <= cp,
                cp <= hi + 1 || cp == lo,
                front == scalar_texts(ranges@, i as nat),
                texts(out@) == front + range_texts(lo as int, cp - 1),
                out@.len() <= MAX_SET,
            decreases hi + 1 - cp,
        {
            if cp < 0xD800 || cp > 0xDFFF {
                let s = encode(cp);
                let ghost so_far = texts(out@);
                out.push(s);
                assert(texts(out@) =~= so_far.push(s@));
                assert(front + range_texts(lo as int, cp as int) =~= so_far.push(s@));
                if out.len() > MAX_SET {
                    proof {
                        lemma_range_texts_grow(lo as int, cp as int, hi as int);
                        lemma_scalar_texts_grow(ranges@, (i + 1) as nat, ranges@.len());
                    }
                    return None;
                }
            }
            cp = cp + 1;
        }
        assert(range_texts(lo as int, cp - 1) == range_texts(lo as int, hi as int));
        i = i + 1;
    }
    Some(out)
}

proof fn lemma_byte_texts_grow(ranges: Seq<(u8, u8)>, a: nat, b: nat)
    requires
        a <= b <= ranges.len(),
    ensures
        byte_texts(ranges, a).len() <= byte_texts(ranges, b).len(),
    decreases b,
{
    if a < b {
        lemma_byte_texts_grow(ranges, a, (b - 1) as nat);
    }
}

/// The strings of a class of bytes, or `None` if it has more than `MAX_SET`.
pub fn byte_strings(ranges: &[(u8, u8)]) -> (r: Option<Vec<Vec<u8>>>)
    ensures
        set_view(r) == byte_set(ranges@),
{
    let mut out: Vec<Vec<u8>> = Vec::new();
    let mut i: usize = 0;
    assert(texts(out@) =~= seq![]);
    while i < ranges.len()
        invariant
            i <= ranges@.len(),
            texts(out@) == byte_texts(ranges@, i as nat),
            out@.len() <= MAX_SET,
        decreases ranges@.len() - i,
    {
        let lo: u8 = ranges[i].0;
        let hi: u8 = ranges[i].1;
        let ghost front = texts(out@);
        let ghost row = byte_range_texts(lo, hi);
        let mut b: u16 = lo as u16;
        assert(front + row.take(0) =~= front);
        while b <= hi as u16
            invariant
                i < ranges@.len(),
                lo == ranges@[i as int].0,
                hi == ranges@[i as int].1,
                row == byte_range_texts(lo, hi),
                lo <= b,
                b <= hi + 1 || b == lo,
                front == byte_texts(ranges@, i as nat),
                texts(out@) == front + row.take(b - lo),
                out@.len() <= MAX_SET,
            decreases hi + 1 - b,
        {
            let s: Vec<u8> = vec![b as u8];
            let ghost so_far = texts(out@);
            out.push(s);
            proof {
                assert(s@ =~= row[b - lo]);
                assert(texts(out@) =~= so_far.push(s@));
                assert(front + row.take(b + 1 - lo) =~= so_far.push(s@));
            }
            if out.len() > MAX_SET {
                proof {
                    assert(byte_texts(ranges@, (i + 1) as nat).len() >= out@.len());
                    lemma_byte_texts_grow(ranges@, (i + 1) as nat, ranges@.len());
                }
                return None;
            }
            b = b + 1;
        }
        assert(row.take(b - lo) =~= row);
        i = i + 1;
    }
    Some(out)
}

fn class_info(set: Option<Vec<Vec<u8>>>) -> (r: Info)
    ensures
        r@ == class_facts(set_view(set)),
{
    match set {
        Some(e) => {
            if e.len() == 0 {
                no_match()
            } else {
                exactly(clean(&e, false), false)
            }
        },
        None => any_char(),
    }
}

/// What is known of the matches of a pattern.
pub fn analyze(hir: &Expr) -> (r: Info)
    ensures
        r@ == facts_of(hir@),
    decreases hir,
{
    match hir {
        Expr::Empty => empty_string(),
        Expr::Look => empty_string(),
        Expr::Literal(bytes) => literal(copy(bytes)),
        Expr::Unicode(ranges) => class_info(unicode_strings(ranges)),
        Expr::Bytes(ranges) => class_info(byte_strings(ranges)),
        Expr::Capture(sub) => analyze(sub),
        Expr::Repetition { min, max, sub } => {
            let min: u32 = *min;
            let max = *max;
            if min == 0 {
                if max == Some(1u32) {
                    return alternate(analyze(sub), empty_string());
                }
                return any_match();
            }
            let x = analyze(sub);
            match max {
                Some(m) => {
                    if m == min {
                        power(&x, min)
                    } else {
                        concat(power(&x, min), any_match())
                    }
                },
                None => {
                    if min == 1 {
                        plus(x)
                    } else {
                        concat(power(&x, min - 1), plus(x))
                    }
                },
            }
        },
        Expr::Concat(subs) => {
            let ghost ps = hir@->Concat_0;
            let mut info = empty_string();
            let mut i: usize = 0;
            while i < subs.len()
                invariant
                    i <= subs@.len(),
                    decreases_to!(hir => subs@),
                    ps.len() == subs@.len(),
                    forall|k: int| 0 <= k < subs@.len() ==> (#[trigger] ps[k]) == subs@[k]@,
                    info@ == concat_facts(ps, i as nat),
                decreases subs@.len() - i,
            {
                info = concat(info, analyze(&subs[i]));
                i = i + 1;
            }
            info
        },
        Expr::Alternation(subs) => {
            let ghost ps = hir@->Alternation_0;
            let mut info = no_match();
            let mut i: usize = 0;
            while i < subs.len()
                invariant
                    i <= subs@.len(),
                    decreases_to!(hir => subs@),
                    ps.len() == subs@.len(),
                    forall|k: int| 0 <= k < subs@.len() ==> (#[trigger] ps[k]) == subs@[k]@,
                    info@ == alternate_facts(ps, i as nat),
                decreases subs@.len() - i,
            {
                info = alternate(info, analyze(&subs[i]));
                i = i + 1;
            }
            info
        },
    }
}

/// The trigram query of a parsed regular expression.
pub fn query_for(hir: &Expr) -> (q: Query)
    ensures
        q@ == pattern_query(hir@),
{
    let info = analyze(hir).simplify(true).add_exact();
    info.m
}

/// The error text for a pattern that does not parse.
pub open spec fn bad_regexp(e: Seq<char>) -> Seq<char> {
    "bad regexp: "@ + e
}

/// Parse a pattern with the same syntax that matching uses.
pub fn parse(pattern: &str, case_insensitive: bool) -> (r: Result<Expr, String>)
    ensures
        match r {
            Ok(h) => parsed(pattern@, case_insensitive) == Ok::<Pattern, Seq<char>>(h@),
            Err(m) => parsed(pattern@, case_insensitive) matches Err(e) && m@ == bad_regexp(e),
        },
{
    match parse_syntax(pattern, case_insensitive) {
        Ok(h) => Ok(open_tree(&h)),
        Err(e) => Err("bad regexp: ".to_owned().concat(&e)),
    }
}

/// Parse a pattern and work out its query.
pub fn regexp_query(pattern: &str, case_insensitive: bool) -> (r: Result<Query, String>)
    ensures
        match r {
            Ok(q) => parsed(pattern@, case_insensitive) matches Ok(p) && q@ == pattern_query(p),
            Err(m) => parsed(pattern@, case_insensitive) matches Err(e) && m@ == bad_regexp(e),
        },
{
    match parse(pattern, case_insensitive) {
        Ok(h) => Ok(query_for(&h)),
        Err(m) => Err(m),
    }
}

} // verus!

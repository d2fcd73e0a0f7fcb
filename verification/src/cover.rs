//! The query of a pattern misses no document in which the pattern matches.

use vstd::prelude::*;
use vstd::utf8::{encode_scalar, is_scalar};

use crate::expr::{allowed, in_ranges, matches_each, Pattern};
use crate::facts::{
    any_text, at_end, cut, cut_all, facts_any, facts_empty, narrowed, set_query, thinned, Facts,
};
use crate::query::{combine, each_of, law_combine, law_monotone, Formula, Op};
use crate::regexp::{
    alternate_facts, byte_range_texts, byte_set, byte_texts, class_facts, concat_facts, facts_of,
    pattern_query, range_texts, scalar_texts, unicode_set,
};
use crate::sets::{lemma_sorted_set, sorted_set};
use crate::strset::{canon, lemma_canon, lemma_products, products};
use crate::trigram::{packed, trigrams};

verus! {

/// Whether one of the strings starts `s`, or ends it.
pub open spec fn has_end(set: Seq<Seq<u8>>, s: Seq<u8>, is_prefix: bool) -> bool {
    exists|p: Seq<u8>| #[trigger] set.contains(p) && at_end(p, s, is_prefix)
}

/// Whether the facts are true of the string `s`.
pub open spec fn covers(f: Facts, s: Seq<u8>) -> bool {
    &&& s.len() == 0 ==> f.can_empty
    &&& match f.exact {
        Some(e) => e.contains(s),
        None => has_end(f.prefix, s, true) && has_end(f.suffix, s, false),
    }
    &&& f.m.sat(trigrams(s))
}

/// A part of a string has no trigram that the whole does not have.
pub proof fn law_part(s: Seq<u8>, i: int, j: int)
    requires
        0 <= i <= j <= s.len(),
    ensures
        trigrams(s.subrange(i, j)).subset_of(trigrams(s)),
{
    let part = s.subrange(i, j);
    assert forall|t: u32| #[trigger] trigrams(part).contains(t) implies trigrams(s).contains(t) by {
        assert(packed(part).contains(t));
        let k = choose|k: int| 0 <= k < packed(part).len() && packed(part)[k] == t;
        assert(packed(s)[i + k] == t);
        assert(packed(s).contains(t));
    }
}

pub proof fn lemma_concat_parts(a: Seq<u8>, b: Seq<u8>)
    ensures
        trigrams(a).subset_of(trigrams(a + b)),
        trigrams(b).subset_of(trigrams(a + b)),
{
    assert((a + b).subrange(0, a.len() as int) =~= a);
    assert((a + b).subrange(a.len() as int, (a + b).len() as int) =~= b);
    law_part(a + b, 0, a.len() as int);
    law_part(a + b, a.len() as int, (a + b).len() as int);
}

proof fn lemma_end_part(p: Seq<u8>, s: Seq<u8>, is_prefix: bool)
    requires
        at_end(p, s, is_prefix),
    ensures
        trigrams(p).subset_of(trigrams(s)),
{
    if is_prefix {
        assert(s.subrange(0, p.len() as int) =~= p);
        law_part(s, 0, p.len() as int);
    } else {
        assert(s.subrange(s.len() - p.len(), s.len() as int) =~= p);
        law_part(s, s.len() - p.len(), s.len() as int);
    }
}

proof fn lemma_each_sat(p: Seq<u8>, present: Set<u32>)
    requires
        trigrams(p).subset_of(present),
    ensures
        each_of(sorted_set(packed(p))).sat(present),
{
    let f = each_of(sorted_set(packed(p)));
    lemma_sorted_set(packed(p));
    assert forall|t: u32| #[trigger] f.trigrams.contains(t) implies present.contains(t) by {
        assert(packed(p).contains(t));
        assert(trigrams(p).contains(t));
    }
}

proof fn lemma_any_text(set: Seq<Seq<u8>>, p: Seq<u8>, present: Set<u32>)
    requires
        set.contains(p),
        trigrams(p).subset_of(present),
    ensures
        any_text(set).sat(present),
    decreases set.len(),
{
    let i = choose|i: int| 0 <= i < set.len() && set[i] == p;
    law_combine(
        any_text(set.drop_last()),
        each_of(sorted_set(packed(set.last()))),
        Op::Or,
        present,
    );
    if i < set.len() - 1 {
        assert(set.drop_last()[i] == p);
        lemma_any_text(set.drop_last(), p, present);
    } else {
        lemma_each_sat(p, present);
    }
}

/// A document that holds one of the strings satisfies the set's query.
pub proof fn lemma_set_query(set: Seq<Seq<u8>>, p: Seq<u8>, present: Set<u32>)
    requires
        set.contains(p),
        trigrams(p).subset_of(present),
    ensures
        set_query(set).sat(present),
{
    lemma_any_text(set, p, present);
}

proof fn lemma_and_sat(a: Formula, b: Formula, present: Set<u32>)
    requires
        a.sat(present),
        b.sat(present),
    ensures
        combine(a, b, Op::And).sat(present),
{
    law_combine(a, b, Op::And, present);
}

proof fn lemma_with_exact(f: Facts, s: Seq<u8>)
    requires
        covers(f, s),
    ensures
        covers(f.with_exact(), s),
{
    if let Some(e) = f.exact {
        lemma_set_query(e, s, trigrams(s));
        lemma_and_sat(f.m, set_query(e), trigrams(s));
    }
}

proof fn lemma_at_end_trans(a: Seq<u8>, b: Seq<u8>, c: Seq<u8>, is_prefix: bool)
    requires
        at_end(a, b, is_prefix),
        at_end(b, c, is_prefix),
    ensures
        at_end(a, c, is_prefix),
{
    if is_prefix {
        assert(c.take(b.len() as int).take(a.len() as int) =~= c.take(a.len() as int));
    } else {
        assert(c.skip(c.len() - b.len()).skip(b.len() - a.len()) =~= c.skip(c.len() - a.len()));
    }
}

proof fn lemma_cut_end(s: Seq<u8>, keep: nat, is_prefix: bool)
    ensures
        at_end(cut(s, keep, is_prefix), s, is_prefix),
{
    if s.len() <= keep {
        if is_prefix {
            assert(s.take(s.len() as int) =~= s);
        } else {
            assert(s.skip(0) =~= s);
        }
    }
}

pub proof fn lemma_cut_all(set: Seq<Seq<u8>>, keep: nat, is_prefix: bool, p: Seq<u8>)
    requires
        set.contains(p),
    ensures
        cut_all(set, keep, is_prefix).contains(cut(p, keep, is_prefix)),
{
    let i = choose|i: int| 0 <= i < set.len() && set[i] == p;
    assert(cut_all(set, keep, is_prefix)[i] == cut(p, keep, is_prefix));
}

proof fn lemma_canon_end(set: Seq<Seq<u8>>, is_suffix: bool, s: Seq<u8>, is_prefix: bool)
    requires
        has_end(set, s, is_prefix),
    ensures
        has_end(canon(set, is_suffix), s, is_prefix),
{
    lemma_canon(set, is_suffix);
    let p = choose|p: Seq<u8>| #[trigger] set.contains(p) && at_end(p, s, is_prefix);
    assert(canon(set, is_suffix).contains(p));
}

proof fn lemma_narrowed(set: Seq<Seq<u8>>, keep: nat, is_prefix: bool, s: Seq<u8>)
    requires
        has_end(set, s, is_prefix),
    ensures
        has_end(narrowed(set, keep, is_prefix), s, is_prefix),
    decreases keep,
{
    let p = choose|p: Seq<u8>| #[trigger] set.contains(p) && at_end(p, s, is_prefix);
    lemma_cut_all(set, keep, is_prefix, p);
    lemma_cut_end(p, keep, is_prefix);
    lemma_at_end_trans(cut(p, keep, is_prefix), p, s, is_prefix);
    let c = cut_all(set, keep, is_prefix);
    assert(has_end(c, s, is_prefix));
    lemma_canon_end(c, !is_prefix, s, is_prefix);
    let t = canon(c, !is_prefix);
    if keep > 0 && t.len() > crate::facts::MAX_SET {
        lemma_narrowed(t, (keep - 1) as nat, is_prefix, s);
    }
}

pub proof fn lemma_thinned(set: Seq<Seq<u8>>, is_prefix: bool, p: Seq<u8>)
    requires
        set.contains(p),
    ensures
        has_end(thinned(set, is_prefix), p, is_prefix),
    decreases set.len(),
{
    let i = choose|i: int| 0 <= i < set.len() && set[i] == p;
    let kept = thinned(set.drop_last(), is_prefix);
    let whole = thinned(set, is_prefix);
    if i < set.len() - 1 {
        assert(set.drop_last()[i] == p);
        lemma_thinned(set.drop_last(), is_prefix, p);
        let q = choose|q: Seq<u8>| #[trigger] kept.contains(q) && at_end(q, p, is_prefix);
        let k = choose|k: int| 0 <= k < kept.len() && kept[k] == q;
        assert(whole[k] == q);
        assert(whole.contains(q));
    } else if kept.len() > 0 && at_end(kept.last(), p, is_prefix) {
        assert(whole[kept.len() - 1] == kept.last());
        assert(whole.contains(kept.last()));
    } else {
        lemma_cut_end(p, p.len(), is_prefix);
        assert(whole[kept.len() as int] == p);
        assert(whole.contains(p));
    }
}

proof fn lemma_with_set(f: Facts, is_prefix: bool, s: Seq<u8>)
    requires
        covers(f, s),
        f.exact is None,
    ensures
        covers(f.with_set(is_prefix), s),
        f.with_set(is_prefix).exact is None,
{
    reveal(Facts::with_set);
    let set = if is_prefix { f.prefix } else { f.suffix };
    let t = canon(set, !is_prefix);
    lemma_canon_end(set, !is_prefix, s, is_prefix);
    let p = choose|p: Seq<u8>| #[trigger] t.contains(p) && at_end(p, s, is_prefix);
    lemma_end_part(p, s, is_prefix);
    lemma_set_query(t, p, trigrams(s));
    lemma_and_sat(f.m, set_query(t), trigrams(s));
    lemma_narrowed(t, 2, is_prefix, s);
    let n = narrowed(t, 2, is_prefix);
    let q = choose|q: Seq<u8>| #[trigger] n.contains(q) && at_end(q, s, is_prefix);
    lemma_thinned(n, is_prefix, q);
    let out = thinned(n, is_prefix);
    let r = choose|r: Seq<u8>| #[trigger] out.contains(r) && at_end(r, q, is_prefix);
    lemma_at_end_trans(r, q, s, is_prefix);
    assert(has_end(out, s, is_prefix));
}

pub proof fn lemma_sum_contains(a: Seq<Seq<u8>>, b: Seq<Seq<u8>>, p: Seq<u8>)
    requires
        a.contains(p) || b.contains(p),
    ensures
        (a + b).contains(p),
{
    if a.contains(p) {
        let i = choose|i: int| 0 <= i < a.len() && a[i] == p;
        assert((a + b)[i] == p);
    } else {
        let i = choose|i: int| 0 <= i < b.len() && b[i] == p;
        assert((a + b)[a.len() + i] == p);
    }
}

proof fn lemma_sum_end(a: Seq<Seq<u8>>, b: Seq<Seq<u8>>, s: Seq<u8>, is_prefix: bool)
    requires
        has_end(a, s, is_prefix) || has_end(b, s, is_prefix),
    ensures
        has_end(a + b, s, is_prefix),
{
    if has_end(a, s, is_prefix) {
        let p = choose|p: Seq<u8>| #[trigger] a.contains(p) && at_end(p, s, is_prefix);
        lemma_sum_contains(a, b, p);
    } else {
        let p = choose|p: Seq<u8>| #[trigger] b.contains(p) && at_end(p, s, is_prefix);
        lemma_sum_contains(a, b, p);
    }
}

proof fn lemma_self_end(set: Seq<Seq<u8>>, s: Seq<u8>, is_prefix: bool)
    requires
        set.contains(s),
    ensures
        has_end(set, s, is_prefix),
{
    lemma_cut_end(s, s.len(), is_prefix);
}

proof fn lemma_inexact(f: Facts, s: Seq<u8>)
    requires
        covers(f, s),
        f.exact is Some,
    ensures
        covers(f.inexact(), s),
{
    let e = f.exact.unwrap();
    lemma_with_exact(f, s);
    lemma_cut_all(e, 2, true, s);
    lemma_cut_all(e, 2, false, s);
    lemma_cut_end(s, 2, true);
    lemma_cut_end(s, 2, false);
    assert(has_end(cut_all(e, 2, true), s, true));
    assert(has_end(cut_all(e, 2, false), s, false));
    lemma_sum_end(f.prefix, cut_all(e, 2, true), s, true);
    lemma_sum_end(f.suffix, cut_all(e, 2, false), s, false);
    lemma_canon_end(f.prefix + cut_all(e, 2, true), false, s, true);
    lemma_canon_end(f.suffix + cut_all(e, 2, false), true, s, false);
}

proof fn lemma_simplified(f: Facts, force: bool, s: Seq<u8>)
    requires
        covers(f, s),
    ensures
        covers(f.simplified(force), s),
{
    reveal(Facts::simplified);
    let g = if f.too_big(force) { f.inexact() } else { f };
    if f.too_big(force) {
        lemma_inexact(f, s);
    }
    if g.exact is None {
        lemma_with_set(g, true, s);
        lemma_with_set(g.with_set(true), false, s);
    }
}

proof fn lemma_extend_end(p: Seq<u8>, a: Seq<u8>, b: Seq<u8>)
    ensures
        at_end(p, a, true) ==> at_end(p, a + b, true),
        at_end(p, b, false) ==> at_end(p, a + b, false),
        at_end(p, b, true) ==> at_end(a + p, a + b, true),
        at_end(p, a, false) ==> at_end(p + b, a + b, false),
{
    let ab = a + b;
    if at_end(p, a, true) {
        assert(ab.take(p.len() as int) =~= a.take(p.len() as int));
    }
    if at_end(p, b, false) {
        assert(ab.skip(ab.len() - p.len()) =~= b.skip(b.len() - p.len()));
    }
    if at_end(p, b, true) {
        assert(ab.take((a + p).len() as int) =~= a + b.take(p.len() as int));
    }
    if at_end(p, a, false) {
        assert(ab.skip(ab.len() - (p + b).len()) =~= a.skip(a.len() - p.len()) + b);
    }
}

/// The start of a match followed by a match.
proof fn lemma_then_prefix(x: Facts, y: Facts, a: Seq<u8>, b: Seq<u8>)
    requires
        covers(x, a),
        covers(y, b),
        y.exact is None || x.exact is None,
    ensures
        x.exact is Some ==> has_end(canon(products(x.exact.unwrap(), y.prefix), false), a + b, true),
        x.exact is None ==> has_end(x.prefix, a + b, true),
        x.exact is None ==> has_end(canon(x.prefix + y.prefix, false), a + b, true),
{
    match x.exact {
        Some(xe) => {
            let q = choose|q: Seq<u8>| #[trigger] y.prefix.contains(q) && at_end(q, b, true);
            lemma_products(xe, y.prefix, a, q);
            lemma_extend_end(q, a, b);
            assert(has_end(products(xe, y.prefix), a + b, true));
            lemma_canon_end(products(xe, y.prefix), false, a + b, true);
        },
        None => {
            let p = choose|p: Seq<u8>| #[trigger] x.prefix.contains(p) && at_end(p, a, true);
            lemma_extend_end(p, a, b);
            assert(has_end(x.prefix, a + b, true));
            lemma_sum_end(x.prefix, y.prefix, a + b, true);
            lemma_canon_end(x.prefix + y.prefix, false, a + b, true);
        },
    }
}

/// The end of a match followed by a match.
proof fn lemma_then_suffix(x: Facts, y: Facts, a: Seq<u8>, b: Seq<u8>)
    requires
        covers(x, a),
        covers(y, b),
        y.exact is None || x.exact is None,
    ensures
        y.exact is Some ==> has_end(canon(products(x.suffix, y.exact.unwrap()), true), a + b, false),
        y.exact is None ==> has_end(y.suffix, a + b, false),
        y.exact is None ==> has_end(canon(y.suffix + x.suffix, true), a + b, false),
{
    match y.exact {
        Some(ye) => {
            let q = choose|q: Seq<u8>| #[trigger] x.suffix.contains(q) && at_end(q, a, false);
            lemma_products(x.suffix, ye, q, b);
            lemma_extend_end(q, a, b);
            assert(has_end(products(x.suffix, ye), a + b, false));
            lemma_canon_end(products(x.suffix, ye), true, a + b, false);
        },
        None => {
            let p = choose|p: Seq<u8>| #[trigger] y.suffix.contains(p) && at_end(p, b, false);
            lemma_extend_end(p, a, b);
            assert(has_end(y.suffix, a + b, false));
            lemma_sum_end(y.suffix, x.suffix, a + b, false);
            lemma_canon_end(y.suffix + x.suffix, true, a + b, false);
        },
    }
}

/// What straddles the border between two matches.
proof fn lemma_straddled(x: Facts, y: Facts, a: Seq<u8>, b: Seq<u8>)
    requires
        covers(x, a),
        covers(y, b),
        x.exact is None,
        y.exact is None,
    ensures
        set_query(canon(products(x.suffix, y.prefix), false)).sat(trigrams(a + b)),
{
    let p = choose|p: Seq<u8>| #[trigger] x.suffix.contains(p) && at_end(p, a, false);
    let q = choose|q: Seq<u8>| #[trigger] y.prefix.contains(q) && at_end(q, b, true);
    lemma_products(x.suffix, y.prefix, p, q);
    lemma_canon(products(x.suffix, y.prefix), false);
    let set = canon(products(x.suffix, y.prefix), false);
    assert(set.contains(p + q));
    let from = a.len() - p.len();
    let to = (a.len() + q.len()) as int;
    assert((a + b).subrange(from, to) =~= p + q);
    law_part(a + b, from, to);
    lemma_set_query(set, p + q, trigrams(a + b));
}

proof fn lemma_then(x: Facts, y: Facts, a: Seq<u8>, b: Seq<u8>)
    requires
        covers(x, a),
        covers(y, b),
    ensures
        covers(x.then_match(y), a + b),
{
    reveal(Facts::then_match);
    let s = a + b;
    lemma_concat_parts(a, b);
    law_monotone(x.m, trigrams(a), trigrams(s));
    law_monotone(y.m, trigrams(b), trigrams(s));
    lemma_and_sat(x.m, y.m, trigrams(s));
    let m = combine(x.m, y.m, Op::And);
    if x.exact is None && y.exact is None {
        lemma_straddled(x, y, a, b);
        lemma_and_sat(m, set_query(canon(products(x.suffix, y.prefix), false)), trigrams(s));
    }
    if x.exact is Some && y.exact is Some {
        let (xe, ye) = (x.exact.unwrap(), y.exact.unwrap());
        lemma_products(xe, ye, a, b);
        lemma_canon(products(xe, ye), false);
        assert(canon(products(xe, ye), false).contains(s));
        let f = Facts {
            can_empty: x.can_empty && y.can_empty,
            exact: Some(canon(products(xe, ye), false)),
            prefix: seq![],
            suffix: seq![],
            m,
        };
        lemma_simplified(f, false, s);
    } else {
        lemma_then_prefix(x, y, a, b);
        lemma_then_suffix(x, y, a, b);
        let prefix = match x.exact {
            Some(xe) => canon(products(xe, y.prefix), false),
            None => if x.can_empty {
                canon(x.prefix + y.prefix, false)
            } else {
                x.prefix
            },
        };
        let suffix = match y.exact {
            Some(ye) => canon(products(x.suffix, ye), true),
            None => if y.can_empty {
                canon(y.suffix + x.suffix, true)
            } else {
                y.suffix
            },
        };
        let f = Facts { can_empty: x.can_empty && y.can_empty, exact: None, prefix, suffix, m };
        let g = Facts {
            m: combine(m, set_query(canon(products(x.suffix, y.prefix), false)), Op::And),
            ..f
        };
        lemma_simplified(f, false, s);
        if x.exact is None && y.exact is None {
            lemma_simplified(g, false, s);
        }
    }
}

proof fn lemma_starts(f: Facts, s: Seq<u8>)
    requires
        covers(f, s),
    ensures
        has_end(f.starts(), s, true),
        has_end(f.ends(), s, false),
{
    if let Some(e) = f.exact {
        lemma_self_end(e, s, true);
        lemma_self_end(e, s, false);
    }
}

proof fn lemma_or(x: Facts, y: Facts, s: Seq<u8>)
    requires
        covers(x, s) || covers(y, s),
    ensures
        covers(x.or_match(y), s),
{
    reveal(Facts::or_match);
    let t = trigrams(s);
    law_combine(x.m, y.m, Op::Or, t);
    law_combine(x.with_exact().m, y.with_exact().m, Op::Or, t);
    if covers(x, s) {
        lemma_with_exact(x, s);
        lemma_starts(x, s);
    } else {
        lemma_with_exact(y, s);
        lemma_starts(y, s);
    }
    let both = x.exact is Some && y.exact is Some;
    if both {
        let (xe, ye) = (x.exact.unwrap(), y.exact.unwrap());
        lemma_sum_contains(xe, ye, s);
        lemma_canon(xe + ye, false);
        assert(canon(xe + ye, false).contains(s));
    } else {
        lemma_sum_end(x.starts(), y.starts(), s, true);
        lemma_sum_end(x.ends(), y.ends(), s, false);
        lemma_canon_end(x.starts() + y.starts(), false, s, true);
        lemma_canon_end(x.ends() + y.ends(), true, s, false);
    }
    let one = x.exact is Some != y.exact is Some;
    let f = Facts {
        can_empty: x.can_empty || y.can_empty,
        exact: if both {
            Some(canon(x.exact.unwrap() + y.exact.unwrap(), false))
        } else {
            None
        },
        prefix: if both {
            seq![]
        } else {
            canon(x.starts() + y.starts(), false)
        },
        suffix: if both {
            seq![]
        } else {
            canon(x.ends() + y.ends(), true)
        },
        m: if one {
            combine(x.with_exact().m, y.with_exact().m, Op::Or)
        } else {
            combine(x.m, y.m, Op::Or)
        },
    };
    assert(covers(f, s));
    lemma_simplified(f, false, s);
}

/// A string that a match starts and a match ends.
proof fn lemma_repeated(x: Facts, a: Seq<u8>, b: Seq<u8>, s: Seq<u8>)
    requires
        covers(x, a),
        covers(x, b),
        at_end(a, s, true),
        at_end(b, s, false),
    ensures
        covers(x.repeated(), s),
{
    lemma_end_part(a, s, true);
    law_monotone(x.m, trigrams(a), trigrams(s));
    lemma_starts(x, a);
    lemma_starts(x, b);
    let (st, en) = (x.starts(), x.ends());
    let p = choose|p: Seq<u8>| #[trigger] st.contains(p) && at_end(p, a, true);
    let q = choose|q: Seq<u8>| #[trigger] en.contains(q) && at_end(q, b, false);
    lemma_at_end_trans(p, a, s, true);
    lemma_at_end_trans(q, b, s, false);
    assert(has_end(st, s, true));
    assert(has_end(en, s, false));
    lemma_canon_end(en, true, s, false);
}

proof fn lemma_any(can_empty: bool, s: Seq<u8>)
    requires
        s.len() == 0 ==> can_empty,
    ensures
        covers(facts_any(can_empty), s),
{
    let e: Seq<u8> = seq![];
    let set: Seq<Seq<u8>> = seq![e];
    assert(set[0] == e);
    assert(set.contains(e));
    assert(s.take(0) =~= e);
    assert(s.skip(s.len() as int) =~= e);
    assert(at_end(e, s, true) && at_end(e, s, false));
}

proof fn lemma_power(p: Pattern, x: Facts, n: nat, s: Seq<u8>)
    requires
        n >= 1,
        p.matches_times(n, s),
        forall|t: Seq<u8>| #[trigger] p.matches(t) ==> covers(x, t),
    ensures
        covers(x.power(n), s),
    decreases n,
{
    let k = choose|k: int|
        0 <= k <= s.len() && p.matches_times((n - 1) as nat, #[trigger] s.take(k)) && p.matches(
            s.skip(k),
        );
    assert(s.take(k) + s.skip(k) =~= s);
    if n == 1 {
        assert(s.skip(k) =~= s);
    } else {
        lemma_power(p, x, (n - 1) as nat, s.take(k));
        lemma_then(x.power((n - 1) as nat), x, s.take(k), s.skip(k));
    }
}

/// A row of matches starts with a match.
proof fn lemma_first(p: Pattern, n: nat, s: Seq<u8>) -> (a: Seq<u8>)
    requires
        n >= 1,
        p.matches_times(n, s),
    ensures
        p.matches(a),
        at_end(a, s, true),
    decreases n,
{
    let k = choose|k: int|
        0 <= k <= s.len() && p.matches_times((n - 1) as nat, #[trigger] s.take(k)) && p.matches(
            s.skip(k),
        );
    if n == 1 {
        assert(s.skip(k) =~= s);
        assert(s.take(s.len() as int) =~= s);
        s
    } else {
        let a = lemma_first(p, (n - 1) as nat, s.take(k));
        assert(s.take(k).take(a.len() as int) =~= s.take(a.len() as int));
        a
    }
}

/// A row of matches ends with a match.
proof fn lemma_last(p: Pattern, n: nat, s: Seq<u8>) -> (b: Seq<u8>)
    requires
        n >= 1,
        p.matches_times(n, s),
    ensures
        p.matches(b),
        at_end(b, s, false),
{
    let k = choose|k: int|
        0 <= k <= s.len() && p.matches_times((n - 1) as nat, #[trigger] s.take(k)) && p.matches(
            s.skip(k),
        );
    s.skip(k)
}

/// A row of `n` matches is a row of `a` matches and a row of `n - a`.
proof fn lemma_split(p: Pattern, n: nat, a: nat, s: Seq<u8>) -> (k: int)
    requires
        a <= n,
        p.matches_times(n, s),
    ensures
        0 <= k <= s.len(),
        p.matches_times(a, s.take(k)),
        p.matches_times((n - a) as nat, s.skip(k)),
    decreases n,
{
    if a == n {
        assert(s.take(s.len() as int) =~= s);
        s.len() as int
    } else {
        let j = choose|j: int|
            0 <= j <= s.len() && p.matches_times((n - 1) as nat, #[trigger] s.take(j)) && p.matches(
                s.skip(j),
            );
        let k = lemma_split(p, (n - 1) as nat, a, s.take(j));
        assert(s.take(j).take(k) =~= s.take(k));
        assert(s.skip(k).take(j - k) =~= s.take(j).skip(k));
        assert(s.skip(k).skip(j - k) =~= s.skip(j));
        k
    }
}

proof fn lemma_range_texts(lo: int, hi: int, cp: u32)
    requires
        0 <= lo <= cp <= hi <= u32::MAX,
        is_scalar(cp),
    ensures
        range_texts(lo, hi).contains(encode_scalar(cp)),
    decreases hi - lo,
{
    let all = range_texts(lo, hi);
    let rest = range_texts(lo, hi - 1);
    if cp == hi {
        assert(all[rest.len() as int] == encode_scalar(cp));
    } else {
        lemma_range_texts(lo, hi - 1, cp);
        let k = choose|k: int| 0 <= k < rest.len() && rest[k] == encode_scalar(cp);
        assert(all[k] == encode_scalar(cp));
    }
}

proof fn lemma_scalar_texts(ranges: Seq<(char, char)>, n: nat, i: int, cp: u32)
    requires
        0 <= i < n <= ranges.len(),
        ranges[i].0 as u32 <= cp <= ranges[i].1 as u32,
        is_scalar(cp),
    ensures
        scalar_texts(ranges, n).contains(encode_scalar(cp)),
    decreases n,
{
    let front = scalar_texts(ranges, (n - 1) as nat);
    let last = range_texts(ranges[n - 1].0 as u32 as int, ranges[n - 1].1 as u32 as int);
    if i == n - 1 {
        lemma_range_texts(ranges[i].0 as u32 as int, ranges[i].1 as u32 as int, cp);
    } else {
        lemma_scalar_texts(ranges, (n - 1) as nat, i, cp);
    }
    lemma_sum_contains(front, last, encode_scalar(cp));
}

proof fn lemma_byte_texts(ranges: Seq<(u8, u8)>, n: nat, i: int, b: u8)
    requires
        0 <= i < n <= ranges.len(),
        ranges[i].0 <= b <= ranges[i].1,
    ensures
        byte_texts(ranges, n).contains(seq![b]),
    decreases n,
{
    let front = byte_texts(ranges, (n - 1) as nat);
    let last = byte_range_texts(ranges[n - 1].0, ranges[n - 1].1);
    if i == n - 1 {
        assert(last[b - ranges[i].0] == seq![b]);
        assert(last.contains(seq![b]));
    } else {
        lemma_byte_texts(ranges, (n - 1) as nat, i, b);
    }
    lemma_sum_contains(front, last, seq![b]);
}

proof fn lemma_class(set: Option<Seq<Seq<u8>>>, s: Seq<u8>)
    requires
        set matches Some(e) ==> e.contains(s),
        s.len() > 0,
    ensures
        covers(class_facts(set), s),
{
    match set {
        Some(e) => {
            lemma_canon(e, false);
            assert(canon(e, false).contains(s));
        },
        None => {
            lemma_any(false, s);
        },
    }
}

proof fn lemma_empty(s: Seq<u8>)
    requires
        s.len() == 0,
    ensures
        covers(facts_empty(), s),
{
    let e: Seq<u8> = seq![];
    let set: Seq<Seq<u8>> = seq![e];
    assert(s =~= e);
    assert(set[0] == s);
}

proof fn lemma_repetition(p: Pattern, x: Facts, min: u32, max: Option<u32>, n: nat, s: Seq<u8>)
    requires
        x == facts_of(p),
        allowed(n, min, max),
        p.matches_times(n, s),
        forall|t: Seq<u8>| #[trigger] p.matches(t) ==> covers(x, t),
    ensures
        covers(facts_of(Pattern::Repetition { min, max, sub: Box::new(p) }), s),
{
    if min == 0 {
        if max == Some(1u32) {
            if n == 0 {
                lemma_empty(s);
            } else {
                lemma_power(p, x, 1, s);
            }
            lemma_or(x, facts_empty(), s);
        } else {
            lemma_any(true, s);
        }
    } else if max == Some(min) {
        lemma_power(p, x, n, s);
    } else if max is Some {
        let k = lemma_split(p, n, min as nat, s);
        assert(s.take(k) + s.skip(k) =~= s);
        lemma_power(p, x, min as nat, s.take(k));
        lemma_any(true, s.skip(k));
        lemma_then(x.power(min as nat), facts_any(true), s.take(k), s.skip(k));
    } else {
        let k = lemma_split(p, n, (min - 1) as nat, s);
        let rest = s.skip(k);
        assert(s.take(k) + rest =~= s);
        let left = (n - (min - 1)) as nat;
        let a = lemma_first(p, left, rest);
        let b = lemma_last(p, left, rest);
        lemma_repeated(x, a, b, rest);
        if min == 1 {
            assert(rest =~= s);
        } else {
            lemma_power(p, x, (min - 1) as nat, s.take(k));
            lemma_then(x.power((min - 1) as nat), x.repeated(), s.take(k), rest);
        }
    }
}

/// What is known of a pattern is true of every string that it matches.
pub proof fn law_facts(p: Pattern, s: Seq<u8>)
    requires
        p.matches(s),
    ensures
        covers(facts_of(p), s),
    decreases p, 0nat,
{
    match p {
        Pattern::Empty => {
            lemma_empty(s);
        },
        Pattern::Look => {
            lemma_empty(s);
        },
        Pattern::Literal(bytes) => {
            assert(seq![bytes][0] == s);
        },
        Pattern::Unicode(ranges) => {
            let cp = choose|cp: u32| #[trigger]
                in_ranges(ranges, cp) && is_scalar(cp) && s == encode_scalar(cp);
            let i = choose|i: int|
                0 <= i < ranges.len() && (#[trigger] ranges[i]).0 as u32 <= cp <= ranges[i].1 as u32;
            lemma_scalar_texts(ranges, ranges.len(), i, cp);
            lemma_class(unicode_set(ranges), s);
        },
        Pattern::Bytes(ranges) => {
            let i = choose|i: int|
                0 <= i < ranges.len() && (#[trigger] ranges[i]).0 <= s[0] <= ranges[i].1;
            assert(s =~= seq![s[0]]);
            lemma_byte_texts(ranges, ranges.len(), i, s[0]);
            lemma_class(byte_set(ranges), s);
        },
        Pattern::Capture(sub) => {
            law_facts(*sub, s);
        },
        Pattern::Repetition { min, max, sub } => {
            let n = choose|n: nat| #[trigger] allowed(n, min, max) && sub.matches_times(n, s);
            assert forall|t: Seq<u8>| #[trigger] sub.matches(t) implies covers(
                facts_of(*sub),
                t,
            ) by {
                law_facts(*sub, t);
            }
            lemma_repetition(*sub, facts_of(*sub), min, max, n, s);
        },
        Pattern::Concat(subs) => {
            lemma_concat(subs, subs.len(), s);
        },
        Pattern::Alternation(subs) => {
            let i = choose|i: int| 0 <= i < subs.len() && (#[trigger] subs[i]).matches(s);
            law_facts(subs[i], s);
            lemma_alternation(subs, subs.len(), i, s);
        },
    }
}

proof fn lemma_concat(subs: Seq<Pattern>, n: nat, s: Seq<u8>)
    requires
        n <= subs.len(),
        matches_each(subs, n, s),
    ensures
        covers(concat_facts(subs, n), s),
    decreases subs, n,
{
    if n == 0 {
        lemma_empty(s);
    } else {
        let k = choose|k: int|
            0 <= k <= s.len() && matches_each(subs, (n - 1) as nat, #[trigger] s.take(k))
                && subs[n - 1].matches(s.skip(k));
        assert(s.take(k) + s.skip(k) =~= s);
        lemma_concat(subs, (n - 1) as nat, s.take(k));
        law_facts(subs[n - 1], s.skip(k));
        lemma_then(
            concat_facts(subs, (n - 1) as nat),
            facts_of(subs[n - 1]),
            s.take(k),
            s.skip(k),
        );
    }
}

proof fn lemma_alternation(subs: Seq<Pattern>, n: nat, i: int, s: Seq<u8>)
    requires
        0 <= i < n <= subs.len(),
        covers(facts_of(subs[i]), s),
    ensures
        covers(alternate_facts(subs, n), s),
    decreases n,
{
    if i < n - 1 {
        lemma_alternation(subs, (n - 1) as nat, i, s);
    }
    lemma_or(alternate_facts(subs, (n - 1) as nat), facts_of(subs[n - 1]), s);
}

/// A document in which the pattern matches somewhere satisfies the pattern's
/// query: no file with a match is ever missed.
pub proof fn law_no_match_missed(p: Pattern, document: Seq<u8>, from: int, to: int)
    requires
        0 <= from <= to <= document.len(),
        p.matches(document.subrange(from, to)),
    ensures
        pattern_query(p).sat(trigrams(document)),
{
    let s = document.subrange(from, to);
    law_facts(p, s);
    lemma_simplified(facts_of(p), true, s);
    lemma_with_exact(facts_of(p).simplified(true), s);
    law_part(document, from, to);
    law_monotone(pattern_query(p), trigrams(s), trigrams(document));
}

} // verus!

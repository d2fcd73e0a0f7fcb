//! The query of a pattern is no wider than it needs to be.

use vstd::prelude::*;
use vstd::seq_lib::seq_to_set_is_finite;
use vstd::set_lib::lemma_len_subset;
use vstd::utf8::{char_is_scalar, encode_scalar, is_scalar};

use crate::bounds::{
    law_sets_stay_small, lemma_canon_len, lemma_concat_kept, lemma_power_kept, lemma_thinned_len,
};
use crate::cover::{
    law_part, lemma_concat_parts, lemma_cut_all, lemma_set_query, lemma_sum_contains, lemma_thinned,
};
use crate::expr::{allowed, in_ranges, law_concat_matches, matches_each, Pattern};
use crate::facts::{
    any_text, at_end, cut, cut_all, facts_any, facts_empty, facts_none, narrowed, set_query,
    thinned, Facts, MAX_SET,
};
use crate::query::{combine, each_of, law_combine, Op};
use crate::regexp::{
    alternate_facts, byte_range_texts, byte_set, byte_texts, class_facts, concat_facts, facts_of,
    pattern_query, range_texts, scalar_texts, unicode_set, wide,
};
use crate::sets::{lemma_sorted_set, sorted_set};
use crate::strset::{
    before, canon, lemma_before_order, lemma_canon, lemma_products, products, shortest,
};
use crate::trigram::{packed, tri, trigrams};

verus! {

/// Whether all trigrams of one of the strings are present.
pub open spec fn held(set: Seq<Seq<u8>>, present: Set<u32>) -> bool {
    exists|p: Seq<u8>| #[trigger] set.contains(p) && trigrams(p).subset_of(present)
}

proof fn lemma_short(p: Seq<u8>, present: Set<u32>)
    requires
        p.len() < 3,
    ensures
        trigrams(p).subset_of(present),
{
    assert forall|t: u32| #[trigger] trigrams(p).contains(t) implies present.contains(t) by {
        assert(packed(p).contains(t));
    }
}

proof fn lemma_any_text_held(set: Seq<Seq<u8>>, present: Set<u32>)
    requires
        any_text(set).sat(present),
    ensures
        held(set, present),
    decreases set.len(),
{
    if set.len() > 0 {
        let short = set.drop_last();
        let last = set.last();
        let each = each_of(sorted_set(packed(last)));
        law_combine(any_text(short), each, Op::Or, present);
        if any_text(short).sat(present) {
            lemma_any_text_held(short, present);
            let p = choose|p: Seq<u8>| #[trigger]
                short.contains(p) && trigrams(p).subset_of(present);
            let k = choose|k: int| 0 <= k < short.len() && short[k] == p;
            assert(set[k] == p);
            assert(set.contains(p));
        } else {
            lemma_sorted_set(packed(last));
            assert forall|t: u32| #[trigger] trigrams(last).contains(t) implies present.contains(
                t,
            ) by {
                assert(packed(last).contains(t));
                assert(each.trigrams.contains(t));
            }
            assert(set[set.len() - 1] == last);
            assert(set.contains(last));
        }
    }
}

/// What the query of a set of strings asks for.
proof fn lemma_held(set: Seq<Seq<u8>>, present: Set<u32>)
    ensures
        set_query(set).sat(present) == held(set, present),
{
    if held(set, present) {
        let p = choose|p: Seq<u8>| #[trigger] set.contains(p) && trigrams(p).subset_of(present);
        lemma_set_query(set, p, present);
    }
    if set_query(set).sat(present) {
        if exists|i: int| 0 <= i < set.len() && (#[trigger] set[i]).len() < 3 {
            let i = choose|i: int| 0 <= i < set.len() && (#[trigger] set[i]).len() < 3;
            lemma_short(set[i], present);
            assert(set.contains(set[i]));
        } else {
            lemma_any_text_held(set, present);
        }
    }
}

proof fn lemma_held_same(a: Seq<Seq<u8>>, b: Seq<Seq<u8>>, present: Set<u32>)
    requires
        forall|x: Seq<u8>| #[trigger] a.contains(x) ==> b.contains(x),
    ensures
        held(a, present) ==> held(b, present),
{
    if held(a, present) {
        let p = choose|p: Seq<u8>| #[trigger] a.contains(p) && trigrams(p).subset_of(present);
        assert(b.contains(p));
    }
}

proof fn lemma_held_canon(set: Seq<Seq<u8>>, is_suffix: bool, present: Set<u32>)
    ensures
        held(canon(set, is_suffix), present) == held(set, present),
{
    lemma_canon(set, is_suffix);
    lemma_held_same(set, canon(set, is_suffix), present);
    lemma_held_same(canon(set, is_suffix), set, present);
}

proof fn lemma_sum_split(a: Seq<Seq<u8>>, b: Seq<Seq<u8>>, p: Seq<u8>)
    ensures
        (a + b).contains(p) <==> a.contains(p) || b.contains(p),
{
    if a.contains(p) || b.contains(p) {
        lemma_sum_contains(a, b, p);
    }
    if (a + b).contains(p) {
        let k = choose|k: int| 0 <= k < (a + b).len() && (a + b)[k] == p;
        if k < a.len() {
            assert(a[k] == p);
        } else {
            assert(b[k - a.len()] == p);
        }
    }
}

proof fn lemma_held_sum(a: Seq<Seq<u8>>, b: Seq<Seq<u8>>, present: Set<u32>)
    ensures
        held(a + b, present) == (held(a, present) || held(b, present)),
{
    assert forall|x: Seq<u8>| #[trigger] a.contains(x) implies (a + b).contains(x) by {
        lemma_sum_split(a, b, x);
    }
    assert forall|x: Seq<u8>| #[trigger] b.contains(x) implies (a + b).contains(x) by {
        lemma_sum_split(a, b, x);
    }
    lemma_held_same(a, a + b, present);
    lemma_held_same(b, a + b, present);
    if held(a + b, present) {
        let p = choose|p: Seq<u8>| #[trigger] (a + b).contains(p) && trigrams(p).subset_of(present);
        lemma_sum_split(a, b, p);
    }
}

proof fn lemma_product_split(a: Seq<Seq<u8>>, b: Seq<Seq<u8>>, z: Seq<u8>) -> (r: (
    Seq<u8>,
    Seq<u8>,
))
    requires
        products(a, b).contains(z),
    ensures
        a.contains(r.0),
        b.contains(r.1),
        z == r.0 + r.1,
    decreases a.len(),
{
    let all = products(a, b);
    let k = choose|k: int| 0 <= k < all.len() && all[k] == z;
    let front = products(a.drop_last(), b);
    if k < front.len() {
        assert(front[k] == z);
        let (x, y) = lemma_product_split(a.drop_last(), b, z);
        let i = choose|i: int| 0 <= i < a.drop_last().len() && a.drop_last()[i] == x;
        assert(a[i] == x);
        (x, y)
    } else {
        let j = k - front.len();
        assert(a[a.len() - 1] == a.last());
        assert(b.contains(b[j]));
        (a.last(), b[j])
    }
}

/// Whether all trigrams of two strings together are present.
pub open spec fn joined_present(x: Seq<u8>, y: Seq<u8>, present: Set<u32>) -> bool {
    trigrams(x + y).subset_of(present)
}

proof fn lemma_held_products(a: Seq<Seq<u8>>, b: Seq<Seq<u8>>, present: Set<u32>) -> (r: (
    Seq<u8>,
    Seq<u8>,
))
    requires
        held(products(a, b), present),
    ensures
        a.contains(r.0),
        b.contains(r.1),
        joined_present(r.0, r.1, present),
        held(a, present),
        held(b, present),
{
    let z = choose|z: Seq<u8>| #[trigger]
        products(a, b).contains(z) && trigrams(z).subset_of(present);
    let (x, y) = lemma_product_split(a, b, z);
    lemma_concat_parts(x, y);
    (x, y)
}

/// What the facts ask of the trigrams that are present.
pub open spec fn asks(f: Facts, present: Set<u32>) -> bool {
    &&& f.m.sat(present)
    &&& match f.exact {
        Some(e) => held(e, present),
        None => held(f.prefix, present) && held(f.suffix, present),
    }
}

/// Whether the facts are in the form in which they are passed on: an exact set
/// stands alone, the empty string is listed where it may match, and prefixes
/// and suffixes ask for the same.
pub open spec fn settled(f: Facts) -> bool {
    &&& f.exact is Some ==> f.prefix.len() == 0 && f.suffix.len() == 0 && forall|present: Set<u32>|
        #[trigger] f.m.sat(present)
    &&& f.can_empty ==> f.starts().contains(seq![]) && f.ends().contains(seq![])
    &&& f.exact is None ==> forall|present: Set<u32>| #[trigger]
        f.m.sat(present) ==> held(f.prefix, present) == held(f.suffix, present)
}

/// Whether the query alone asks for all that the sets ask for.
pub open spec fn folded(f: Facts) -> bool {
    f.exact is None ==> forall|present: Set<u32>| #[trigger]
        f.m.sat(present) ==> held(f.prefix, present) && held(f.suffix, present)
}

proof fn lemma_narrowed_short(set: Seq<Seq<u8>>, keep: nat, is_prefix: bool)
    requires
        keep <= 2,
    ensures
        forall|x: Seq<u8>| #[trigger] narrowed(set, keep, is_prefix).contains(x) ==> x.len() <= 2,
        set.len() > 0 ==> narrowed(set, keep, is_prefix).len() > 0,
        set.len() == 0 ==> narrowed(set, keep, is_prefix).len() == 0,
        set.contains(seq![]) ==> narrowed(set, keep, is_prefix).contains(seq![]),
    decreases keep,
{
    let all = cut_all(set, keep, is_prefix);
    let t = canon(all, !is_prefix);
    lemma_canon(all, !is_prefix);
    assert forall|x: Seq<u8>| #[trigger] t.contains(x) implies x.len() <= 2 by {
        assert(all.contains(x));
        let k = choose|k: int| 0 <= k < all.len() && all[k] == x;
        assert(all[k] == cut(set[k], keep, is_prefix));
    }
    if set.len() > 0 {
        assert(all.contains(all[0]));
        assert(t.contains(all[0]));
    } else {
        lemma_canon_len(all, !is_prefix);
    }
    if set.contains(seq![]) {
        lemma_cut_all(set, keep, is_prefix, seq![]);
        assert(t.contains(seq![]));
    }
    if keep > 0 && t.len() > MAX_SET {
        lemma_narrowed_short(t, (keep - 1) as nat, is_prefix);
    }
}

proof fn lemma_thinned_part(set: Seq<Seq<u8>>, is_prefix: bool)
    ensures
        forall|x: Seq<u8>| #[trigger] thinned(set, is_prefix).contains(x) ==> set.contains(x),
    decreases set.len(),
{
    if set.len() > 0 {
        let short = set.drop_last();
        lemma_thinned_part(short, is_prefix);
        let out = thinned(set, is_prefix);
        assert forall|x: Seq<u8>| #[trigger] out.contains(x) implies set.contains(x) by {
            let kept = thinned(short, is_prefix);
            let k = choose|k: int| 0 <= k < out.len() && out[k] == x;
            if k < kept.len() {
                assert(kept[k] == x);
                assert(kept.contains(x));
                assert(short.contains(x));
                let i = choose|i: int| 0 <= i < short.len() && short[i] == x;
                assert(set[i] == x);
            } else {
                assert(set[set.len() - 1] == x);
            }
        }
    }
}

/// The strings that a set is shortened to.
spec fn shortened(set: Seq<Seq<u8>>, is_prefix: bool) -> Seq<Seq<u8>> {
    thinned(narrowed(canon(set, !is_prefix), 2, is_prefix), is_prefix)
}

proof fn lemma_shortened(set: Seq<Seq<u8>>, is_prefix: bool)
    ensures
        forall|present: Set<u32>| #[trigger]
            held(set, present) ==> held(shortened(set, is_prefix), present),
        set.contains(seq![]) ==> shortened(set, is_prefix).contains(seq![]),
{
    let t = canon(set, !is_prefix);
    let n = narrowed(t, 2, is_prefix);
    let out = thinned(n, is_prefix);
    lemma_canon(set, !is_prefix);
    lemma_narrowed_short(t, 2, is_prefix);
    lemma_thinned_part(n, is_prefix);
    assert forall|present: Set<u32>| #[trigger] held(set, present) implies held(out, present) by {
        let p = choose|p: Seq<u8>| #[trigger] set.contains(p) && trigrams(p).subset_of(present);
        assert(t.contains(p));
        assert(n.contains(n[0]));
        lemma_thinned(n, is_prefix, n[0]);
        let q = choose|q: Seq<u8>| #[trigger] out.contains(q) && at_end(q, n[0], is_prefix);
        assert(n.contains(q));
        lemma_short(q, present);
    }
    if set.contains(seq![]) {
        assert(t.contains(seq![]));
        assert(n.contains(seq![]));
        lemma_thinned(n, is_prefix, seq![]);
        let q = choose|q: Seq<u8>| #[trigger] out.contains(q) && at_end(q, seq![], is_prefix);
        assert(q =~= seq![]);
    }
}

proof fn lemma_with_set_asks(f: Facts, is_prefix: bool)
    requires
        f.exact is None,
    ensures
        ({
            let g = f.with_set(is_prefix);
            &&& g.exact is None
            &&& g.can_empty == f.can_empty
            &&& is_prefix ==> g.suffix == f.suffix && g.prefix == shortened(f.prefix, true)
            &&& !is_prefix ==> g.prefix == f.prefix && g.suffix == shortened(f.suffix, false)
            &&& forall|present: Set<u32>| #[trigger]
                g.m.sat(present) == (f.m.sat(present) && held(
                    if is_prefix {
                        f.prefix
                    } else {
                        f.suffix
                    },
                    present,
                ))
        }),
{
    reveal(Facts::with_set);
    let set = if is_prefix { f.prefix } else { f.suffix };
    let t = canon(set, !is_prefix);
    let g = f.with_set(is_prefix);
    assert forall|present: Set<u32>| #[trigger]
        g.m.sat(present) == (f.m.sat(present) && held(set, present)) by {
        law_combine(f.m, set_query(t), Op::And, present);
        lemma_held(t, present);
        lemma_held_canon(set, !is_prefix, present);
    }
}

/// Shortening the sets of facts changes nothing of what they ask.
proof fn lemma_simplified_asks(f: Facts, force: bool)
    requires
        f.exact is Some ==> f.prefix.len() == 0 && f.suffix.len() == 0,
        f.exact is Some ==> forall|present: Set<u32>| #[trigger] f.m.sat(present),
        f.can_empty ==> f.starts().contains(seq![]) && f.ends().contains(seq![]),
    ensures
        settled(f.simplified(force)),
        folded(f.simplified(force)),
        forall|present: Set<u32>| #[trigger]
            asks(f.simplified(force), present) == asks(f, present),
        !f.too_big(force) && f.exact is Some ==> f.simplified(force) == f,
{
    reveal(Facts::simplified);
    let g = if f.too_big(force) { f.inexact() } else { f };
    if f.too_big(force) {
        lemma_inexact_asks(f);
    }
    if g.exact is None {
        let h = g.with_set(true);
        let k = h.with_set(false);
        lemma_with_set_asks(g, true);
        lemma_with_set_asks(h, false);
        lemma_shortened(g.prefix, true);
        lemma_shortened(g.suffix, false);
        assert forall|present: Set<u32>| #[trigger] asks(k, present) == asks(g, present) by {
            assert(k.m.sat(present) == (h.m.sat(present) && held(h.suffix, present)));
            assert(h.m.sat(present) == (g.m.sat(present) && held(g.prefix, present)));
        }
        assert forall|present: Set<u32>| #[trigger] k.m.sat(present) implies held(k.prefix, present)
            && held(k.suffix, present) by {
            assert(h.m.sat(present));
        }
        assert forall|present: Set<u32>| #[trigger] asks(k, present) == asks(f, present) by {
            assert(asks(k, present) == asks(g, present));
            if f.too_big(force) {
                assert(asks(f.inexact(), present) == asks(f, present));
            }
        }
    }
}

proof fn lemma_inexact_asks(f: Facts)
    requires
        f.exact is Some,
        f.prefix.len() == 0,
        f.suffix.len() == 0,
        f.can_empty ==> f.exact.unwrap().contains(seq![]),
    ensures
        f.inexact().exact is None,
        f.inexact().can_empty == f.can_empty,
        f.can_empty ==> f.inexact().prefix.contains(seq![]) && f.inexact().suffix.contains(seq![]),
        forall|present: Set<u32>| #[trigger] asks(f.inexact(), present) == asks(f, present),
{
    let e = f.exact.unwrap();
    let g = f.inexact();
    let (a, b) = (cut_all(e, 2, true), cut_all(e, 2, false));
    assert(f.prefix + a =~= a);
    assert(f.suffix + b =~= b);
    lemma_canon(a, false);
    lemma_canon(b, true);
    if f.can_empty {
        lemma_cut_all(e, 2, true, seq![]);
        lemma_cut_all(e, 2, false, seq![]);
    }
    assert forall|present: Set<u32>| #[trigger] asks(g, present) == asks(f, present) by {
        law_combine(f.m, set_query(e), Op::And, present);
        lemma_held(e, present);
        if held(e, present) {
            let p = choose|p: Seq<u8>| #[trigger] e.contains(p) && trigrams(p).subset_of(present);
            lemma_cut_all(e, 2, true, p);
            lemma_cut_all(e, 2, false, p);
            lemma_short(cut(p, 2, true), present);
            lemma_short(cut(p, 2, false), present);
            assert(g.prefix.contains(cut(p, 2, true)));
            assert(g.suffix.contains(cut(p, 2, false)));
        }
    }
}

/// The query of a pattern asks for what is known of the pattern.
proof fn lemma_query_asks(p: Pattern, present: Set<u32>)
    requires
        settled(facts_of(p)),
    ensures
        pattern_query(p).sat(present) == asks(facts_of(p), present),
{
    let f = facts_of(p);
    let g = f.simplified(true);
    lemma_simplified_asks(f, true);
    assert(asks(g, present) == asks(f, present));
    if let Some(e) = g.exact {
        law_combine(g.m, set_query(e), Op::And, present);
        lemma_held(e, present);
    }
}

/// The strings from which facts of two matches in a row take their prefixes.
spec fn then_prefix(x: Facts, y: Facts) -> Seq<Seq<u8>> {
    match x.exact {
        Some(xe) => canon(products(xe, y.prefix), false),
        None => if x.can_empty {
            canon(x.prefix + y.prefix, false)
        } else {
            x.prefix
        },
    }
}

/// The strings from which facts of two matches in a row take their suffixes.
spec fn then_suffix(x: Facts, y: Facts) -> Seq<Seq<u8>> {
    match y.exact {
        Some(ye) => canon(products(x.suffix, ye), true),
        None => if y.can_empty {
            canon(y.suffix + x.suffix, true)
        } else {
            y.suffix
        },
    }
}

spec fn is_straddled(x: Facts, y: Facts) -> bool {
    x.exact is None && y.exact is None && x.suffix.len() <= MAX_SET && y.prefix.len()
        <= MAX_SET && shortest(x.suffix) + shortest(y.prefix) >= 3
}

/// The facts of two matches in a row before their sets are shortened.
spec fn raw_then(x: Facts, y: Facts) -> Facts {
    let m = combine(x.m, y.m, Op::And);
    let both = x.exact is Some && y.exact is Some;
    Facts {
        can_empty: x.can_empty && y.can_empty,
        exact: if both {
            Some(canon(products(x.exact.unwrap(), y.exact.unwrap()), false))
        } else {
            None
        },
        prefix: if both {
            seq![]
        } else {
            then_prefix(x, y)
        },
        suffix: if both {
            seq![]
        } else {
            then_suffix(x, y)
        },
        m: if is_straddled(x, y) {
            combine(m, set_query(canon(products(x.suffix, y.prefix), false)), Op::And)
        } else {
            m
        },
    }
}

proof fn lemma_raw_then(x: Facts, y: Facts)
    ensures
        x.then_match(y) == raw_then(x, y).simplified(false),
{
    reveal(Facts::then_match);
}

proof fn lemma_shortest(set: Seq<Seq<u8>>)
    ensures
        set.len() > 0 ==> exists|p: Seq<u8>| #[trigger]
            set.contains(p) && p.len() == shortest(set),
    decreases set.len(),
{
    if set.len() > 0 {
        let short = set.drop_last();
        assert(set[set.len() - 1] == set.last());
        assert(set.contains(set.last()));
        if !(set.len() == 1 || set.last().len() < shortest(short)) {
            lemma_shortest(short);
            let p = choose|p: Seq<u8>| #[trigger] short.contains(p) && p.len() == shortest(short);
            let k = choose|k: int| 0 <= k < short.len() && short[k] == p;
            assert(set[k] == p);
            assert(set.contains(p));
        }
    }
}

/// What a match followed by a match asks for: what either asks for, and the
/// trigrams of an end of the one and a start of the other together.
proof fn lemma_raw_then_asks(x: Facts, y: Facts, present: Set<u32>)
    requires
        settled(x),
        settled(y),
        asks(raw_then(x, y), present),
    ensures
        asks(x, present),
        asks(y, present),
{
    let f = raw_then(x, y);
    let m = combine(x.m, y.m, Op::And);
    law_combine(x.m, y.m, Op::And, present);
    law_combine(m, set_query(canon(products(x.suffix, y.prefix), false)), Op::And, present);
    assert(x.m.sat(present) && y.m.sat(present));
    let none: Seq<u8> = seq![];
    match (x.exact, y.exact) {
        (Some(xe), Some(ye)) => {
            lemma_held_canon(products(xe, ye), false, present);
            let _ = lemma_held_products(xe, ye, present);
        },
        (Some(xe), None) => {
            lemma_held_canon(products(xe, y.prefix), false, present);
            let _ = lemma_held_products(xe, y.prefix, present);
        },
        (None, Some(ye)) => {
            lemma_held_canon(products(x.suffix, ye), true, present);
            let _ = lemma_held_products(x.suffix, ye, present);
        },
        (None, None) => {
            lemma_short(none, present);
            if x.can_empty {
                assert(x.prefix.contains(none));
                assert(held(x.prefix, present));
            }
            if y.can_empty {
                assert(y.suffix.contains(none));
                assert(held(y.suffix, present));
            }
        },
    }
}

proof fn lemma_straddle(x: Facts, y: Facts, present: Set<u32>) -> (r: (Seq<u8>, Seq<u8>))
    requires
        settled(x),
        settled(y),
        x.suffix.len() <= MAX_SET,
        y.prefix.len() <= MAX_SET,
        asks(raw_then(x, y), present),
    ensures
        x.ends().contains(r.0),
        y.starts().contains(r.1),
        joined_present(r.0, r.1, present),
{
    let f = raw_then(x, y);
    let m = combine(x.m, y.m, Op::And);
    let mid = products(x.suffix, y.prefix);
    lemma_raw_then_asks(x, y, present);
    law_combine(m, set_query(canon(mid, false)), Op::And, present);
    match (x.exact, y.exact) {
        (Some(xe), Some(ye)) => {
            lemma_held_canon(products(xe, ye), false, present);
            lemma_held_products(xe, ye, present)
        },
        (Some(xe), None) => {
            lemma_held_canon(products(xe, y.prefix), false, present);
            lemma_held_products(xe, y.prefix, present)
        },
        (None, Some(ye)) => {
            lemma_held_canon(products(x.suffix, ye), true, present);
            lemma_held_products(x.suffix, ye, present)
        },
        (None, None) => {
            if is_straddled(x, y) {
                lemma_held(canon(mid, false), present);
                lemma_held_canon(mid, false, present);
                lemma_held_products(x.suffix, y.prefix, present)
            } else {
                lemma_shortest(x.suffix);
                lemma_shortest(y.prefix);
                let u = choose|u: Seq<u8>| #[trigger]
                    x.suffix.contains(u) && trigrams(u).subset_of(present);
                let v = choose|v: Seq<u8>| #[trigger]
                    y.prefix.contains(v) && trigrams(v).subset_of(present);
                let p = choose|p: Seq<u8>| #[trigger]
                    x.suffix.contains(p) && p.len() == shortest(x.suffix);
                let q = choose|q: Seq<u8>| #[trigger]
                    y.prefix.contains(q) && q.len() == shortest(y.prefix);
                lemma_short(p + q, present);
                (p, q)
            }
        },
    }
}

proof fn lemma_then_settled(x: Facts, y: Facts)
    requires
        settled(x),
        settled(y),
    ensures
        settled(x.then_match(y)),
        folded(x.then_match(y)),
        forall|present: Set<u32>| #[trigger]
            asks(x.then_match(y), present) == asks(raw_then(x, y), present),
        forall|present: Set<u32>| #[trigger]
            asks(x.then_match(y), present) ==> asks(x, present) && asks(y, present),
{
    let f = raw_then(x, y);
    let none: Seq<u8> = seq![];
    lemma_raw_then(x, y);
    if f.exact is Some {
        assert forall|present: Set<u32>| #[trigger] f.m.sat(present) by {
            assert(x.m.sat(present) && y.m.sat(present));
            law_combine(x.m, y.m, Op::And, present);
        }
    }
    if f.can_empty {
        assert(none + none =~= none);
        assert(x.starts().contains(none) && x.ends().contains(none));
        assert(y.starts().contains(none) && y.ends().contains(none));
        match (x.exact, y.exact) {
            (Some(xe), Some(ye)) => {
                lemma_products(xe, ye, none, none);
                lemma_canon(products(xe, ye), false);
            },
            (Some(xe), None) => {
                lemma_products(xe, y.prefix, none, none);
                lemma_canon(products(xe, y.prefix), false);
                lemma_canon(y.suffix + x.suffix, true);
                lemma_sum_split(y.suffix, x.suffix, none);
            },
            (None, Some(ye)) => {
                lemma_products(x.suffix, ye, none, none);
                lemma_canon(products(x.suffix, ye), true);
                lemma_canon(x.prefix + y.prefix, false);
                lemma_sum_split(x.prefix, y.prefix, none);
            },
            (None, None) => {
                lemma_canon(x.prefix + y.prefix, false);
                lemma_sum_split(x.prefix, y.prefix, none);
                lemma_canon(y.suffix + x.suffix, true);
                lemma_sum_split(y.suffix, x.suffix, none);
            },
        }
    }
    lemma_simplified_asks(f, false);
    assert forall|present: Set<u32>| #[trigger] asks(x.then_match(y), present) implies asks(
        x,
        present,
    ) && asks(y, present) by {
        assert(asks(f, present));
        lemma_raw_then_asks(x, y, present);
    }
}

/// The facts of a match of either before their sets are shortened.
spec fn raw_or(x: Facts, y: Facts) -> Facts {
    let both = x.exact is Some && y.exact is Some;
    Facts {
        can_empty: x.can_empty || y.can_empty,
        exact: if both {
            Some(canon(x.exact.unwrap() + y.exact.unwrap(), false))
        } else {
            None
        },
        prefix: if both {
            seq![]
        } else {
            canon(x.starts() + y.starts(), false)
        },
        suffix: if both {
            seq![]
        } else {
            canon(x.ends() + y.ends(), true)
        },
        m: if x.exact is Some != y.exact is Some {
            combine(x.with_exact().m, y.with_exact().m, Op::Or)
        } else {
            combine(x.m, y.m, Op::Or)
        },
    }
}

proof fn lemma_raw_or(x: Facts, y: Facts)
    ensures
        x.or_match(y) == raw_or(x, y).simplified(false),
{
    reveal(Facts::or_match);
}

proof fn lemma_raw_or_asks(x: Facts, y: Facts, present: Set<u32>)
    requires
        settled(x),
        settled(y),
    ensures
        asks(x, present) || asks(y, present) ==> asks(raw_or(x, y), present),
        folded(x) && folded(y) && asks(raw_or(x, y), present) ==> asks(x, present) || asks(
            y,
            present,
        ),
{
    law_combine(x.m, y.m, Op::Or, present);
    law_combine(x.with_exact().m, y.with_exact().m, Op::Or, present);
    lemma_held_canon(x.starts() + y.starts(), false, present);
    lemma_held_canon(x.ends() + y.ends(), true, present);
    lemma_held_sum(x.starts(), y.starts(), present);
    lemma_held_sum(x.ends(), y.ends(), present);
    if let Some(e) = x.exact {
        law_combine(x.m, set_query(e), Op::And, present);
        lemma_held(e, present);
    }
    if let Some(e) = y.exact {
        law_combine(y.m, set_query(e), Op::And, present);
        lemma_held(e, present);
    }
    assert(x.exact is Some ==> x.m.sat(present));
    assert(y.exact is Some ==> y.m.sat(present));
}

proof fn lemma_or_settled(x: Facts, y: Facts)
    requires
        settled(x),
        settled(y),
    ensures
        settled(x.or_match(y)),
        folded(x.or_match(y)),
        forall|present: Set<u32>| #[trigger]
            asks(x.or_match(y), present) == asks(raw_or(x, y), present),
{
    let f = raw_or(x, y);
    let none: Seq<u8> = seq![];
    lemma_raw_or(x, y);
    if f.exact is Some {
        assert forall|present: Set<u32>| #[trigger] f.m.sat(present) by {
            assert(x.m.sat(present) && y.m.sat(present));
            law_combine(x.m, y.m, Op::Or, present);
        }
    }
    if f.can_empty {
        lemma_sum_split(x.starts(), y.starts(), none);
        lemma_sum_split(x.ends(), y.ends(), none);
        lemma_canon(x.starts() + y.starts(), false);
        lemma_canon(x.ends() + y.ends(), true);
    }
    lemma_simplified_asks(f, false);
}

proof fn lemma_repeated_settled(x: Facts)
    requires
        settled(x),
    ensures
        settled(x.repeated()),
        forall|present: Set<u32>| #[trigger]
            asks(x.repeated(), present) == asks(x, present),
{
    if let Some(e) = x.exact {
        let f = x.repeated();
        lemma_canon(e, true);
        assert forall|present: Set<u32>| held(f.prefix, present) == #[trigger] held(
            f.suffix,
            present,
        ) by {
            lemma_held_canon(e, true, present);
        }
        assert forall|present: Set<u32>| #[trigger] f.m.sat(present) implies held(f.prefix, present)
            == held(f.suffix, present) by {
            assert(held(f.prefix, present) == held(f.suffix, present));
        }
        assert forall|present: Set<u32>| #[trigger] asks(f, present) == asks(x, present) by {
            assert(held(f.prefix, present) == held(f.suffix, present));
        }
    }
}

proof fn lemma_power_settled(x: Facts, k: nat)
    requires
        settled(x),
    ensures
        settled(x.power(k)),
        folded(x) ==> folded(x.power(k)),
        forall|present: Set<u32>| #[trigger] asks(x.power(k), present) ==> asks(x, present),
    decreases k,
{
    if k > 1 {
        let y = x.power((k - 1) as nat);
        lemma_power_settled(x, (k - 1) as nat);
        lemma_then_settled(y, x);
        assert forall|present: Set<u32>| #[trigger] asks(x.power(k), present) implies asks(
            x,
            present,
        ) by {
            assert(asks(y.then_match(x), present));
        }
    }
}

proof fn lemma_simple_settled()
    ensures
        settled(facts_none()),
        folded(facts_none()),
        settled(facts_empty()),
        settled(facts_any(true)),
        settled(facts_any(false)),
        folded(facts_any(true)),
        folded(facts_any(false)),
{
    let none: Seq<u8> = seq![];
    let one: Seq<Seq<u8>> = seq![none];
    assert(one[0] == none);
    assert(one.contains(none));
    assert forall|present: Set<u32>| #[trigger] held(one, present) by {
        lemma_short(none, present);
    }
    assert forall|present: Set<u32>| !(#[trigger] facts_none().m.sat(present)) by {}
    assert forall|present: Set<u32>| #[trigger] facts_any(true).m.sat(present) by {}
    assert(facts_empty().exact.unwrap() == one);
    assert(facts_any(true).prefix == one);
}

proof fn lemma_class_settled(set: Option<Seq<Seq<u8>>>)
    ensures
        settled(class_facts(set)),
        folded(class_facts(set)),
{
    lemma_simple_settled();
}

/// Whether a pattern is one or more matches of another, in a group or not.
pub open spec fn is_plus(p: Pattern) -> bool
    decreases p,
{
    match p {
        Pattern::Capture(sub) => is_plus(*sub),
        Pattern::Repetition { min, max, sub } => min == 1 && (max is None || max == Some(1u32)
            && is_plus(*sub)),
        _ => false,
    }
}

proof fn lemma_settled(p: Pattern)
    ensures
        settled(facts_of(p)),
        !is_plus(p) ==> folded(facts_of(p)),
    decreases p,
{
    lemma_simple_settled();
    match p {
        Pattern::Empty => {},
        Pattern::Look => {},
        Pattern::Literal(bytes) => {
            let e: Seq<Seq<u8>> = seq![bytes];
            assert(e[0] == bytes);
            if bytes.len() == 0 {
                assert(bytes =~= seq![]);
            }
            assert(e.contains(bytes));
        },
        Pattern::Unicode(ranges) => {
            lemma_class_settled(unicode_set(ranges));
        },
        Pattern::Bytes(ranges) => {
            lemma_class_settled(byte_set(ranges));
        },
        Pattern::Capture(sub) => {
            lemma_settled(*sub);
        },
        Pattern::Repetition { min, max, sub } => {
            let x = facts_of(*sub);
            lemma_settled(*sub);
            lemma_or_settled(x, facts_empty());
            lemma_repeated_settled(x);
            if min >= 1 {
                lemma_power_settled(x, min as nat);
                lemma_then_settled(x.power(min as nat), facts_any(true));
                if min > 1 {
                    lemma_power_settled(x, (min - 1) as nat);
                    lemma_then_settled(x.power((min - 1) as nat), x);
                    lemma_then_settled(x.power((min - 1) as nat), x.repeated());
                }
            }
        },
        Pattern::Concat(subs) => {
            lemma_concat_settled(subs, subs.len());
        },
        Pattern::Alternation(subs) => {
            lemma_alternate_settled(subs, subs.len());
        },
    }
}

proof fn lemma_concat_settled(subs: Seq<Pattern>, n: nat)
    requires
        n <= subs.len(),
    ensures
        settled(concat_facts(subs, n)),
        folded(concat_facts(subs, n)),
    decreases subs, n,
{
    lemma_simple_settled();
    if n > 0 {
        lemma_concat_settled(subs, (n - 1) as nat);
        lemma_settled(subs[n - 1]);
        lemma_then_settled(concat_facts(subs, (n - 1) as nat), facts_of(subs[n - 1]));
    }
}

proof fn lemma_alternate_settled(subs: Seq<Pattern>, n: nat)
    requires
        n <= subs.len(),
    ensures
        settled(alternate_facts(subs, n)),
        folded(alternate_facts(subs, n)),
    decreases subs, n,
{
    lemma_simple_settled();
    if n > 0 {
        lemma_alternate_settled(subs, (n - 1) as nat);
        lemma_settled(subs[n - 1]);
        lemma_or_settled(alternate_facts(subs, (n - 1) as nat), facts_of(subs[n - 1]));
    }
}

/// The query of a literal asks for every trigram of the literal, and for
/// nothing else.
pub proof fn law_literal_query(bytes: Seq<u8>, present: Set<u32>)
    ensures
        pattern_query(Pattern::Literal(bytes)).sat(present) <==> forall|i: int|
            0 <= i && i + 2 < bytes.len() ==> present.contains(
                (#[trigger] bytes[i] * 0x1_0000 + bytes[i + 1] * 0x100 + bytes[i + 2]) as u32,
            ),
{
    let p = Pattern::Literal(bytes);
    let e: Seq<Seq<u8>> = seq![bytes];
    lemma_settled(p);
    lemma_query_asks(p, present);
    assert(facts_of(p).m.sat(present));
    assert(e[0] == bytes);
    assert(e.contains(bytes));
    assert(held(e, present) == trigrams(bytes).subset_of(present));
    if trigrams(bytes).subset_of(present) {
        assert forall|i: int| 0 <= i && i + 2 < bytes.len() implies present.contains(
            (#[trigger] bytes[i] * 0x1_0000 + bytes[i + 1] * 0x100 + bytes[i + 2]) as u32,
        ) by {
            assert(packed(bytes)[i] == tri(bytes[i], bytes[i + 1], bytes[i + 2]));
            assert(packed(bytes).contains(packed(bytes)[i]));
            assert(trigrams(bytes).contains(packed(bytes)[i]));
        }
    }
    if forall|i: int|
        0 <= i && i + 2 < bytes.len() ==> present.contains(
            (#[trigger] bytes[i] * 0x1_0000 + bytes[i + 1] * 0x100 + bytes[i + 2]) as u32,
        ) {
        assert forall|t: u32| #[trigger] trigrams(bytes).contains(t) implies present.contains(
            t,
        ) by {
            assert(packed(bytes).contains(t));
            let i = choose|i: int| 0 <= i < packed(bytes).len() && packed(bytes)[i] == t;
            assert(bytes[i] == bytes[i]);
            assert(t == tri(bytes[i], bytes[i + 1], bytes[i + 2]));
        }
    }
}

/// A group asks for what its pattern asks for.
pub proof fn law_group_query(p: Pattern)
    ensures
        pattern_query(Pattern::Capture(Box::new(p))) == pattern_query(p),
{
}

/// Patterns one after the other ask for all that each of them asks for.
pub proof fn law_concat_query(subs: Seq<Pattern>, i: int, present: Set<u32>)
    requires
        0 <= i < subs.len(),
        pattern_query(Pattern::Concat(subs)).sat(present),
    ensures
        pattern_query(subs[i]).sat(present),
{
    let p = Pattern::Concat(subs);
    lemma_settled(p);
    lemma_query_asks(p, present);
    lemma_concat_asks(subs, subs.len(), i, present);
    lemma_settled(subs[i]);
    lemma_query_asks(subs[i], present);
}

proof fn lemma_concat_asks(subs: Seq<Pattern>, n: nat, i: int, present: Set<u32>)
    requires
        0 <= i < n <= subs.len(),
        asks(concat_facts(subs, n), present),
    ensures
        asks(facts_of(subs[i]), present),
        asks(concat_facts(subs, (i + 1) as nat), present),
    decreases n,
{
    let front = concat_facts(subs, (n - 1) as nat);
    lemma_concat_settled(subs, (n - 1) as nat);
    lemma_settled(subs[n - 1]);
    lemma_then_settled(front, facts_of(subs[n - 1]));
    assert(asks(front.then_match(facts_of(subs[n - 1])), present));
    if i < n - 1 {
        lemma_concat_asks(subs, (n - 1) as nat, i, present);
    }
}

/// Of alternatives it is enough that what one of them asks for is there, and it
/// is needed, unless one of them is repeated.
pub proof fn law_alternation_query(subs: Seq<Pattern>, present: Set<u32>)
    ensures
        (exists|i: int| 0 <= i < subs.len() && pattern_query(#[trigger] subs[i]).sat(present))
            ==> pattern_query(Pattern::Alternation(subs)).sat(present),
        pattern_query(Pattern::Alternation(subs)).sat(present) && (forall|i: int|
            0 <= i < subs.len() ==> !is_plus(#[trigger] subs[i])) ==> exists|i: int|
            0 <= i < subs.len() && pattern_query(#[trigger] subs[i]).sat(present),
{
    let p = Pattern::Alternation(subs);
    lemma_settled(p);
    lemma_query_asks(p, present);
    if exists|i: int| 0 <= i < subs.len() && pattern_query(#[trigger] subs[i]).sat(present) {
        let i = choose|i: int|
            0 <= i < subs.len() && pattern_query(#[trigger] subs[i]).sat(present);
        lemma_settled(subs[i]);
        lemma_query_asks(subs[i], present);
        lemma_alternate_asks(subs, subs.len(), i, present);
    }
    if pattern_query(p).sat(present) && forall|i: int|
        0 <= i < subs.len() ==> !is_plus(#[trigger] subs[i]) {
        let i = lemma_alternate_asked(subs, subs.len(), present);
        lemma_settled(subs[i]);
        lemma_query_asks(subs[i], present);
    }
}

proof fn lemma_alternate_asks(subs: Seq<Pattern>, n: nat, i: int, present: Set<u32>)
    requires
        0 <= i < n <= subs.len(),
        asks(facts_of(subs[i]), present),
    ensures
        asks(alternate_facts(subs, n), present),
    decreases n,
{
    let front = alternate_facts(subs, (n - 1) as nat);
    let last = facts_of(subs[n - 1]);
    if i < n - 1 {
        lemma_alternate_asks(subs, (n - 1) as nat, i, present);
    }
    lemma_alternate_settled(subs, (n - 1) as nat);
    lemma_settled(subs[n - 1]);
    lemma_or_settled(front, last);
    lemma_raw_or_asks(front, last, present);
    assert(asks(front.or_match(last), present) == asks(raw_or(front, last), present));
}

proof fn lemma_alternate_asked(subs: Seq<Pattern>, n: nat, present: Set<u32>) -> (i: int)
    requires
        n <= subs.len(),
        asks(alternate_facts(subs, n), present),
        forall|i: int| 0 <= i < subs.len() ==> !is_plus(#[trigger] subs[i]),
    ensures
        0 <= i < n,
        asks(facts_of(subs[i]), present),
    decreases n,
{
    if n == 0 {
        assert(!facts_none().m.sat(present));
        0
    } else {
        let front = alternate_facts(subs, (n - 1) as nat);
        let last = facts_of(subs[n - 1]);
        lemma_alternate_settled(subs, (n - 1) as nat);
        lemma_settled(subs[n - 1]);
        lemma_or_settled(front, last);
        lemma_raw_or_asks(front, last, present);
        assert(asks(front.or_match(last), present) == asks(raw_or(front, last), present));
        assert(!is_plus(subs[n - 1]));
        if asks(last, present) {
            n - 1
        } else {
            lemma_alternate_asked(subs, (n - 1) as nat, present)
        }
    }
}

/// A repetition that may be left out asks for nothing; any other asks for what
/// its pattern asks for, and one or more matches for no more than that.
pub proof fn law_repetition_query(min: u32, max: Option<u32>, sub: Pattern, present: Set<u32>)
    ensures
        ({
            let q = pattern_query(Pattern::Repetition { min, max, sub: Box::new(sub) });
            &&& min == 0 ==> q.sat(present)
            &&& min > 0 && q.sat(present) ==> pattern_query(sub).sat(present)
            &&& min == 1 && max is None ==> q.sat(present) == pattern_query(sub).sat(present)
        }),
{
    let p = Pattern::Repetition { min, max, sub: Box::new(sub) };
    let x = facts_of(sub);
    let none: Seq<u8> = seq![];
    lemma_settled(p);
    lemma_settled(sub);
    lemma_query_asks(p, present);
    lemma_query_asks(sub, present);
    lemma_simple_settled();
    lemma_short(none, present);
    if min == 0 {
        let f = facts_of(p);
        if max == Some(1u32) {
            lemma_or_settled(x, facts_empty());
            lemma_raw_or_asks(x, facts_empty(), present);
            let one: Seq<Seq<u8>> = seq![none];
            assert(one[0] == none);
            assert(facts_empty().exact.unwrap().contains(none));
            assert(asks(facts_empty(), present));
            assert(asks(x.or_match(facts_empty()), present));
        } else {
            assert(f == facts_any(true));
            assert(f.prefix.contains(none)) by {
                assert(f.prefix[0] == none);
            }
            assert(f.suffix.contains(none)) by {
                assert(f.suffix[0] == none);
            }
        }
    } else {
        lemma_repeated_settled(x);
        lemma_power_settled(x, min as nat);
        let xn = x.power(min as nat);
        lemma_then_settled(xn, facts_any(true));
        assert(asks(xn.then_match(facts_any(true)), present) ==> asks(xn, present));
        assert(asks(xn, present) ==> asks(x, present));
        assert(asks(x.repeated(), present) == asks(x, present));
        if min > 1 {
            let xm = x.power((min - 1) as nat);
            lemma_power_settled(x, (min - 1) as nat);
            lemma_then_settled(xm, x.repeated());
            assert(asks(xm.then_match(x.repeated()), present) ==> asks(x.repeated(), present));
        }
    }
}

/// How many code points the first `n` ranges hold, both ends included.
pub open spec fn char_span(ranges: Seq<(char, char)>, n: nat) -> nat
    decreases n,
{
    if n == 0 || n > ranges.len() {
        0
    } else {
        let (lo, hi) = (ranges[n - 1].0 as u32, ranges[n - 1].1 as u32);
        char_span(ranges, (n - 1) as nat) + if lo <= hi {
            (hi - lo + 1) as nat
        } else {
            0
        }
    }
}

/// How many bytes the first `n` ranges hold, both ends included.
pub open spec fn byte_span(ranges: Seq<(u8, u8)>, n: nat) -> nat
    decreases n,
{
    if n == 0 || n > ranges.len() {
        0
    } else {
        let (lo, hi) = (ranges[n - 1].0, ranges[n - 1].1);
        byte_span(ranges, (n - 1) as nat) + if lo <= hi {
            (hi - lo + 1) as nat
        } else {
            0
        }
    }
}

/// `base` multiplied by itself, `k` factors.
pub open spec fn times(base: nat, k: nat) -> nat
    decreases k,
{
    if k == 0 {
        1
    } else {
        times(base, (k - 1) as nat) * base
    }
}

/// How many strings a pattern of literals, classes, options and fixed
/// repetitions one after the other can match, at most; 0 for any other pattern.
pub open spec fn strings_of(p: Pattern) -> nat
    decreases p,
{
    match p {
        Pattern::Empty => 1,
        Pattern::Look => 1,
        Pattern::Literal(_) => 1,
        Pattern::Unicode(ranges) => char_span(ranges, ranges.len()),
        Pattern::Bytes(ranges) => byte_span(ranges, ranges.len()),
        Pattern::Capture(sub) => strings_of(*sub),
        Pattern::Repetition { min, max, sub } => if min == 0 && max == Some(1u32) && strings_of(
            *sub,
        ) > 0 {
            strings_of(*sub) + 1
        } else if min > 0 && max == Some(min) {
            times(strings_of(*sub), min as nat)
        } else {
            0
        },
        Pattern::Concat(subs) => strings_in(subs, subs.len()),
        Pattern::Alternation(_) => 0,
    }
}

/// How many strings the first `n` patterns one after the other can match, at
/// most.
pub open spec fn strings_in(subs: Seq<Pattern>, n: nat) -> nat
    decreases subs, n,
{
    if n == 0 || n > subs.len() {
        1
    } else {
        strings_in(subs, (n - 1) as nat) * strings_of(subs[n - 1])
    }
}

proof fn lemma_product_bounds(a: nat, b: nat)
    requires
        a * b >= 1,
    ensures
        a >= 1,
        b >= 1,
        a <= a * b,
        b <= a * b,
{
    assert(a >= 1 && b >= 1) by (nonlinear_arith)
        requires
            a * b >= 1,
    ;
    assert(a <= a * b && b <= a * b) by (nonlinear_arith)
        requires
            a >= 1,
            b >= 1,
    ;
}

proof fn lemma_products_len(a: Seq<Seq<u8>>, b: Seq<Seq<u8>>)
    ensures
        products(a, b).len() == a.len() * b.len(),
    decreases a.len(),
{
    if a.len() > 0 {
        lemma_products_len(a.drop_last(), b);
        assert((a.len() - 1) * b.len() + b.len() == a.len() * b.len()) by (nonlinear_arith);
    }
}

/// Exact sets of few strings stay exact when joined.
proof fn lemma_exact_then(x: Facts, y: Facts, a: nat, b: nat)
    requires
        settled(x),
        settled(y),
        x.exact is Some,
        y.exact is Some,
        x.exact.unwrap().len() <= a,
        y.exact.unwrap().len() <= b,
        a * b <= 20,
    ensures
        x.then_match(y).exact is Some,
        x.then_match(y).exact.unwrap().len() <= a * b,
        forall|z: Seq<u8>| #[trigger]
            x.then_match(y).exact.unwrap().contains(z) ==> products(
                x.exact.unwrap(),
                y.exact.unwrap(),
            ).contains(z),
{
    let (xe, ye) = (x.exact.unwrap(), y.exact.unwrap());
    let all = products(xe, ye);
    lemma_raw_then(x, y);
    lemma_products_len(xe, ye);
    lemma_canon_len(all, false);
    lemma_canon(all, false);
    assert(xe.len() * ye.len() <= a * b) by (nonlinear_arith)
        requires
            xe.len() <= a,
            ye.len() <= b,
    ;
    let f = raw_then(x, y);
    reveal(Facts::simplified);
    assert(!f.too_big(false));
    assert(f.simplified(false) == f);
}

proof fn lemma_range_strings(lo: int, hi: int)
    requires
        0 <= lo,
        hi <= u32::MAX,
    ensures
        range_texts(lo, hi).len() <= if lo <= hi {
            hi - lo + 1
        } else {
            0
        },
        forall|x: Seq<u8>| #[trigger]
            range_texts(lo, hi).contains(x) ==> exists|cp: u32| #[trigger]
                is_scalar(cp) && lo <= cp <= hi && x == encode_scalar(cp),
    decreases hi - lo + 1,
{
    if lo <= hi {
        lemma_range_strings(lo, hi - 1);
        let rest = range_texts(lo, hi - 1);
        let all = range_texts(lo, hi);
        assert forall|x: Seq<u8>| #[trigger] all.contains(x) implies exists|cp: u32| #[trigger]
            is_scalar(cp) && lo <= cp <= hi && x == encode_scalar(cp) by {
            let k = choose|k: int| 0 <= k < all.len() && all[k] == x;
            if k < rest.len() {
                assert(rest[k] == x);
                assert(rest.contains(x));
                let cp = choose|cp: u32| #[trigger]
                    is_scalar(cp) && lo <= cp <= hi - 1 && x
                        == encode_scalar(cp);
                assert(is_scalar(cp) && lo <= cp <= hi);
            } else {
                assert(is_scalar(hi as u32));
            }
        }
    }
}

proof fn lemma_class_matches(ranges: Seq<(char, char)>, cp: u32)
    requires
        in_ranges(ranges, cp),
        is_scalar(cp),
    ensures
        Pattern::Unicode(ranges).matches(encode_scalar(cp)),
{
    let p = Pattern::Unicode(ranges);
    assert(p->Unicode_0 == ranges);
    assert(in_ranges(p->Unicode_0, cp));
}

proof fn lemma_scalar_strings(ranges: Seq<(char, char)>, n: nat)
    requires
        n <= ranges.len(),
    ensures
        scalar_texts(ranges, n).len() <= char_span(ranges, n),
        char_span(ranges, n) > 0 ==> scalar_texts(ranges, n).len() > 0,
        forall|x: Seq<u8>| #[trigger]
            scalar_texts(ranges, n).contains(x) ==> Pattern::Unicode(ranges).matches(x),
        forall|i: int|
            0 <= i < n ==> (#[trigger] ranges[i]).1 as u32 - ranges[i].0 as u32 + 1 <= char_span(
                ranges,
                n,
            ),
    decreases n,
{
    if n > 0 {
        let front = scalar_texts(ranges, (n - 1) as nat);
        let (lo, hi) = (ranges[n - 1].0 as u32, ranges[n - 1].1 as u32);
        let last = range_texts(lo as int, hi as int);
        lemma_scalar_strings(ranges, (n - 1) as nat);
        lemma_range_strings(lo as int, hi as int);
        char_is_scalar(ranges[n - 1].1);
        assert(lo <= hi ==> last.len() > 0);
        assert(scalar_texts(ranges, n) == front + last);
        assert forall|x: Seq<u8>| #[trigger] scalar_texts(ranges, n).contains(
            x,
        ) implies Pattern::Unicode(ranges).matches(x) by {
            lemma_sum_split(front, last, x);
            if last.contains(x) {
                let cp = choose|cp: u32| #[trigger]
                    is_scalar(cp) && lo <= cp <= hi && x == encode_scalar(
                        cp,
                    );
                assert(ranges[n - 1].0 as u32 <= cp <= ranges[n - 1].1 as u32);
                assert(in_ranges(ranges, cp));
                lemma_class_matches(ranges, cp);
            } else {
                assert(scalar_texts(ranges, (n - 1) as nat).contains(x));
                assert(Pattern::Unicode(ranges).matches(x));
            }
        }
    }
}

proof fn lemma_byte_strings(ranges: Seq<(u8, u8)>, n: nat)
    requires
        n <= ranges.len(),
    ensures
        byte_texts(ranges, n).len() == byte_span(ranges, n),
        forall|x: Seq<u8>| #[trigger]
            byte_texts(ranges, n).contains(x) ==> Pattern::Bytes(ranges).matches(x),
    decreases n,
{
    if n > 0 {
        let front = byte_texts(ranges, (n - 1) as nat);
        let (lo, hi) = ranges[n - 1];
        let last = byte_range_texts(lo, hi);
        lemma_byte_strings(ranges, (n - 1) as nat);
        assert forall|x: Seq<u8>| #[trigger] byte_texts(ranges, n).contains(
            x,
        ) implies Pattern::Bytes(ranges).matches(x) by {
            lemma_sum_split(front, last, x);
            if last.contains(x) {
                let k = choose|k: int| 0 <= k < last.len() && last[k] == x;
                assert(x == seq![(lo + k) as u8]);
                assert(ranges[n - 1].0 <= x[0] <= ranges[n - 1].1);
            }
        }
    }
}

/// Whether the facts list strings that the pattern matches, `n` at most.
spec fn lists(f: Facts, p: Pattern, n: nat) -> bool {
    &&& f.exact is Some
    &&& f.exact.unwrap().len() <= n
    &&& forall|x: Seq<u8>| #[trigger] f.exact.unwrap().contains(x) ==> p.matches(x)
}

proof fn lemma_class_lists(set: Seq<Seq<u8>>, p: Pattern, n: nat)
    requires
        0 < set.len() <= n,
        forall|x: Seq<u8>| #[trigger] set.contains(x) ==> p.matches(x),
    ensures
        lists(class_facts(Some(set)), p, n),
{
    lemma_canon(set, false);
    lemma_canon_len(set, false);
}

proof fn lemma_lists(p: Pattern)
    requires
        1 <= strings_of(p) <= 20,
    ensures
        lists(facts_of(p), p, strings_of(p)),
    decreases p,
{
    let none: Seq<u8> = seq![];
    let one: Seq<Seq<u8>> = seq![none];
    assert forall|x: Seq<u8>| #[trigger] one.contains(x) implies x == none by {}
    match p {
        Pattern::Empty => {},
        Pattern::Look => {},
        Pattern::Literal(bytes) => {},
        Pattern::Unicode(ranges) => {
            lemma_scalar_strings(ranges, ranges.len());
            assert forall|i: int| 0 <= i < ranges.len() implies !wide(#[trigger] ranges[i]) by {}
            lemma_class_lists(scalar_texts(ranges, ranges.len()), p, strings_of(p));
        },
        Pattern::Bytes(ranges) => {
            lemma_byte_strings(ranges, ranges.len());
            lemma_class_lists(byte_texts(ranges, ranges.len()), p, strings_of(p));
        },
        Pattern::Capture(sub) => {
            lemma_lists(*sub);
        },
        Pattern::Repetition { min, max, sub } => {
            if min == 0 {
                lemma_lists(*sub);
                lemma_settled(*sub);
                lemma_simple_settled();
                lemma_option_lists(*sub);
            } else {
                let n = strings_of(*sub);
                lemma_times(n, min as nat);
                lemma_lists(*sub);
                lemma_power_lists(*sub, min as nat);
                let f = facts_of(p);
                assert forall|x: Seq<u8>| #[trigger] f.exact.unwrap().contains(
                    x,
                ) implies p.matches(x) by {
                    assert(sub.matches_times(min as nat, x));
                    assert(allowed(min as nat, min, max));
                }
            }
        },
        Pattern::Concat(subs) => {
            lemma_concat_lists(subs, subs.len());
        },
        Pattern::Alternation(_) => {},
    }
}

proof fn lemma_times(base: nat, k: nat)
    requires
        k >= 1,
        times(base, k) >= 1,
    ensures
        1 <= base <= times(base, k),
    decreases k,
{
    lemma_product_bounds(times(base, (k - 1) as nat), base);
}

proof fn lemma_option_lists(sub: Pattern)
    requires
        lists(facts_of(sub), sub, strings_of(sub)),
        strings_of(sub) < 20,
        settled(facts_of(sub)),
    ensures
        ({
            let p = Pattern::Repetition { min: 0, max: Some(1), sub: Box::new(sub) };
            lists(facts_of(p), p, strings_of(sub) + 1)
        }),
{
    let p = Pattern::Repetition { min: 0, max: Some(1), sub: Box::new(sub) };
    let x = facts_of(sub);
    let y = facts_empty();
    let none: Seq<u8> = seq![];
    let e = x.exact.unwrap();
    let one: Seq<Seq<u8>> = seq![none];
    assert(y.exact.unwrap() == one);
    lemma_raw_or(x, y);
    lemma_canon(e + one, false);
    lemma_canon_len(e + one, false);
    let f = raw_or(x, y);
    reveal(Facts::simplified);
    assert(!f.too_big(false));
    assert(facts_of(p) == f);
    assert forall|z: Seq<u8>| #[trigger] f.exact.unwrap().contains(z) implies p.matches(z) by {
        lemma_sum_split(e, one, z);
        if e.contains(z) {
            assert(sub.matches(z));
            assert(z.take(0) =~= none);
            assert(z.skip(0) =~= z);
            assert(sub.matches_times(0, z.take(0)));
            assert(sub.matches_times(1, z));
            assert(allowed(1, 0, Some(1u32)));
        } else {
            assert(z =~= none);
            assert(sub.matches_times(0, z));
            assert(allowed(0, 0, Some(1u32)));
        }
    }
}

proof fn lemma_power_lists(sub: Pattern, k: nat)
    requires
        k >= 1,
        lists(facts_of(sub), sub, strings_of(sub)),
        1 <= times(strings_of(sub), k) <= 20,
    ensures
        ({
            let f = facts_of(sub).power(k);
            &&& f.exact is Some
            &&& f.exact.unwrap().len() <= times(strings_of(sub), k)
            &&& forall|x: Seq<u8>| #[trigger]
                f.exact.unwrap().contains(x) ==> sub.matches_times(k, x)
        }),
    decreases k,
{
    let x = facts_of(sub);
    let n = strings_of(sub);
    let none: Seq<u8> = seq![];
    if k == 1 {
        assert(times(n, 0) == 1);
        assert(times(n, 1) == times(n, 0) * n);
        assert(1 * n == n);
        assert(x.power(1) == x);
        assert forall|z: Seq<u8>| #[trigger] x.exact.unwrap().contains(
            z,
        ) implies sub.matches_times(1, z) by {
            assert(z.take(0) =~= none);
            assert(z.skip(0) =~= z);
            assert(sub.matches_times(0, z.take(0)));
        }
    } else {
        let y = x.power((k - 1) as nat);
        lemma_product_bounds(times(n, (k - 1) as nat), n);
        lemma_power_lists(sub, (k - 1) as nat);
        lemma_settled(sub);
        lemma_power_settled(x, (k - 1) as nat);
        lemma_exact_then(y, x, times(n, (k - 1) as nat), n);
        assert forall|z: Seq<u8>| #[trigger] x.power(k).exact.unwrap().contains(
            z,
        ) implies sub.matches_times(k, z) by {
            assert(y.then_match(x).exact.unwrap().contains(z));
            let (a, b) = lemma_product_split(y.exact.unwrap(), x.exact.unwrap(), z);
            let j = a.len() as int;
            assert(z.take(j) =~= a);
            assert(z.skip(j) =~= b);
            assert(sub.matches_times((k - 1) as nat, z.take(j)) && sub.matches(z.skip(j)));
        }
    }
}

proof fn lemma_concat_lists(subs: Seq<Pattern>, n: nat)
    requires
        n <= subs.len(),
        1 <= strings_in(subs, n) <= 20,
    ensures
        ({
            let f = concat_facts(subs, n);
            &&& f.exact is Some
            &&& f.exact.unwrap().len() <= strings_in(subs, n)
            &&& forall|x: Seq<u8>| #[trigger]
                f.exact.unwrap().contains(x) ==> matches_each(subs, n, x)
        }),
    decreases subs, n,
{
    if n == 0 {
        let none: Seq<u8> = seq![];
        let one: Seq<Seq<u8>> = seq![none];
        assert forall|x: Seq<u8>| #[trigger] one.contains(x) implies x == none by {}
        assert(concat_facts(subs, n).exact.unwrap() == one);
    } else {
        let m = (n - 1) as nat;
        let x = concat_facts(subs, m);
        let y = facts_of(subs[n - 1]);
        lemma_product_bounds(strings_in(subs, m), strings_of(subs[n - 1]));
        lemma_concat_lists(subs, m);
        lemma_lists(subs[n - 1]);
        lemma_concat_settled(subs, m);
        lemma_settled(subs[n - 1]);
        lemma_exact_then(x, y, strings_in(subs, m), strings_of(subs[n - 1]));
        assert forall|z: Seq<u8>| #[trigger] concat_facts(subs, n).exact.unwrap().contains(
            z,
        ) implies matches_each(subs, n, z) by {
            let (a, b) = lemma_product_split(x.exact.unwrap(), y.exact.unwrap(), z);
            let j = a.len() as int;
            assert(z.take(j) =~= a);
            assert(z.skip(j) =~= b);
            assert(matches_each(subs, m, z.take(j)) && subs[n - 1].matches(z.skip(j)));
        }
    }
}

/// The query of a pattern that can match no more than twenty strings asks for
/// all trigrams of one of its matches.
pub proof fn law_few_strings_query(p: Pattern, present: Set<u32>)
    requires
        1 <= strings_of(p) <= 20,
        pattern_query(p).sat(present),
    ensures
        exists|w: Seq<u8>| #[trigger] p.matches(w) && trigrams(w).subset_of(present),
{
    lemma_settled(p);
    lemma_query_asks(p, present);
    lemma_lists(p);
    let e = facts_of(p).exact.unwrap();
    let w = choose|w: Seq<u8>| #[trigger] e.contains(w) && trigrams(w).subset_of(present);
    assert(p.matches(w));
}

/// How many strings the first `n` alternatives can match, at most; 0 if one of
/// them is not made of literals, classes, options and fixed repetitions.
pub open spec fn strings_among(subs: Seq<Pattern>, n: nat) -> nat
    decreases n,
{
    if n == 0 || n > subs.len() {
        0
    } else if n > 1 && strings_among(subs, (n - 1) as nat) == 0 || strings_of(subs[n - 1]) == 0 {
        0
    } else {
        strings_among(subs, (n - 1) as nat) + strings_of(subs[n - 1])
    }
}

/// Whether a pattern, or all of its alternatives together, can match no more
/// than twenty strings.
pub open spec fn is_brief(p: Pattern) -> bool
    decreases p,
{
    match p {
        Pattern::Capture(sub) => is_brief(*sub),
        Pattern::Alternation(subs) => 1 <= strings_among(subs, subs.len()) <= 20,
        _ => 1 <= strings_of(p) <= 20,
    }
}

/// Whether `q` is a match of `p`, or what it is cut to at one end.
spec fn is_end_of(q: Seq<u8>, p: Pattern, is_prefix: bool) -> bool {
    exists|w: Seq<u8>| #[trigger] p.matches(w) && (q == w || q == cut(w, 2, is_prefix))
}

/// Whether every string of a set is a match of `p`, or what it is cut to.
spec fn ends_of(set: Seq<Seq<u8>>, p: Pattern, is_prefix: bool) -> bool {
    forall|q: Seq<u8>| #[trigger] set.contains(q) ==> is_end_of(q, p, is_prefix)
}

/// Whether what the facts list are matches, and no more than their ends are
/// missing.
spec fn is_tight(f: Facts, p: Pattern) -> bool {
    ends_of(f.starts(), p, true) && ends_of(f.ends(), p, false)
}

proof fn lemma_cut_end_of(q: Seq<u8>, p: Pattern, is_prefix: bool)
    requires
        is_end_of(q, p, is_prefix),
    ensures
        is_end_of(cut(q, 2, is_prefix), p, is_prefix),
{
    let w = choose|w: Seq<u8>| #[trigger]
        p.matches(w) && (q == w || q == cut(w, 2, is_prefix));
    assert(cut(q, 2, is_prefix) == cut(w, 2, is_prefix));
}

/// A set of no more than twenty strings is cut to two bytes and no further.
proof fn lemma_shortened_ends(set: Seq<Seq<u8>>, p: Pattern, is_prefix: bool)
    requires
        set.len() <= 20,
        ends_of(set, p, is_prefix),
    ensures
        ends_of(shortened(set, is_prefix), p, is_prefix),
        shortened(set, is_prefix).len() <= set.len(),
{
    let t = canon(set, !is_prefix);
    let c = cut_all(t, 2, is_prefix);
    let n = canon(c, !is_prefix);
    lemma_canon(set, !is_prefix);
    lemma_canon_len(set, !is_prefix);
    lemma_canon(c, !is_prefix);
    lemma_canon_len(c, !is_prefix);
    assert(narrowed(t, 2, is_prefix) == n);
    lemma_thinned_part(n, is_prefix);
    lemma_thinned_len(n, is_prefix);
    assert forall|q: Seq<u8>| #[trigger] shortened(set, is_prefix).contains(q) implies is_end_of(
        q,
        p,
        is_prefix,
    ) by {
        assert(n.contains(q));
        assert(c.contains(q));
        let k = choose|k: int| 0 <= k < c.len() && c[k] == q;
        assert(q == cut(t[k], 2, is_prefix));
        assert(t.contains(t[k]));
        lemma_cut_end_of(t[k], p, is_prefix);
    }
}

proof fn lemma_simplified_ends(f: Facts, p: Pattern)
    requires
        f.exact is None,
        f.prefix.len() <= 20,
        f.suffix.len() <= 20,
        is_tight(f, p),
    ensures
        f.simplified(false).exact is None,
        f.simplified(false).prefix.len() <= f.prefix.len(),
        f.simplified(false).suffix.len() <= f.suffix.len(),
        is_tight(f.simplified(false), p),
{
    reveal(Facts::simplified);
    let g = f.with_set(true);
    lemma_with_set_asks(f, true);
    lemma_with_set_asks(g, false);
    lemma_shortened_ends(f.prefix, p, true);
    lemma_shortened_ends(f.suffix, p, false);
}

proof fn lemma_wider(set: Seq<Seq<u8>>, p: Pattern, q: Pattern, is_prefix: bool)
    requires
        ends_of(set, p, is_prefix),
        forall|w: Seq<u8>| #[trigger] p.matches(w) ==> q.matches(w),
    ensures
        ends_of(set, q, is_prefix),
{
    assert forall|e: Seq<u8>| #[trigger] set.contains(e) implies is_end_of(e, q, is_prefix) by {
        let w = choose|w: Seq<u8>| #[trigger]
            p.matches(w) && (e == w || e == cut(w, 2, is_prefix));
        assert(q.matches(w));
    }
}

proof fn lemma_alternate_tight(subs: Seq<Pattern>, n: nat)
    requires
        n <= subs.len(),
        n > 0 ==> 1 <= strings_among(subs, n) <= 20,
    ensures
        alternate_facts(subs, n).exact is None,
        alternate_facts(subs, n).prefix.len() <= strings_among(subs, n),
        alternate_facts(subs, n).suffix.len() <= strings_among(subs, n),
        is_tight(alternate_facts(subs, n), Pattern::Alternation(subs)),
    decreases n,
{
    let p = Pattern::Alternation(subs);
    if n > 0 {
        let x = alternate_facts(subs, (n - 1) as nat);
        let y = facts_of(subs[n - 1]);
        lemma_alternate_tight(subs, (n - 1) as nat);
        lemma_lists(subs[n - 1]);
        lemma_raw_or(x, y);
        let e = y.exact.unwrap();
        let f = raw_or(x, y);
        assert forall|q: Seq<u8>| #[trigger] e.contains(q) implies p.matches(q) by {
            assert(subs[n - 1].matches(q));
            assert(p->Alternation_0 == subs);
        }
        lemma_canon(x.prefix + e, false);
        lemma_canon(x.suffix + e, true);
        lemma_canon_len(x.prefix + e, false);
        lemma_canon_len(x.suffix + e, true);
        assert forall|q: Seq<u8>| #[trigger] f.prefix.contains(q) implies is_end_of(
            q,
            p,
            true,
        ) by {
            assert((x.prefix + e).contains(q));
            lemma_sum_split(x.prefix, e, q);
        }
        assert forall|q: Seq<u8>| #[trigger] f.suffix.contains(q) implies is_end_of(
            q,
            p,
            false,
        ) by {
            assert((x.suffix + e).contains(q));
            lemma_sum_split(x.suffix, e, q);
        }
        lemma_simplified_ends(f, p);
    }
}

proof fn lemma_tight(p: Pattern)
    requires
        is_brief(p),
    ensures
        is_tight(facts_of(p), p),
        facts_of(p).starts().len() <= 20,
        facts_of(p).ends().len() <= 20,
    decreases p,
{
    match p {
        Pattern::Capture(sub) => {
            lemma_tight(*sub);
            assert forall|w: Seq<u8>| #[trigger] sub.matches(w) implies p.matches(w) by {}
            lemma_wider(facts_of(*sub).starts(), *sub, p, true);
            lemma_wider(facts_of(*sub).ends(), *sub, p, false);
        },
        Pattern::Alternation(subs) => {
            lemma_alternate_tight(subs, subs.len());
        },
        _ => {
            lemma_lists(p);
            let e = facts_of(p).exact.unwrap();
            assert forall|q: Seq<u8>| #[trigger] e.contains(q) implies p.matches(q) by {}
            assert(ends_of(e, p, true));
            assert(ends_of(e, p, false));
        },
    }
}

/// What follows nothing starts and ends as it does alone.
proof fn lemma_first_tight(p: Pattern)
    requires
        is_brief(p),
    ensures
        is_tight(facts_empty().then_match(facts_of(p)), p),
        facts_empty().then_match(facts_of(p)).suffix.len() <= 20,
{
    let x = facts_empty();
    let y = facts_of(p);
    let f = raw_then(x, y);
    let none: Seq<u8> = seq![];
    let one: Seq<Seq<u8>> = seq![none];
    lemma_tight(p);
    lemma_settled(p);
    lemma_simple_settled();
    lemma_raw_then(x, y);
    assert(x.exact.unwrap() == one);
    let all = products(one, y.starts());
    lemma_products_len(one, y.starts());
    lemma_canon(all, false);
    lemma_canon_len(all, false);
    assert forall|z: Seq<u8>| #[trigger] all.contains(z) implies y.starts().contains(z) by {
        let (a, b) = lemma_product_split(one, y.starts(), z);
        assert(a =~= none);
        assert(a + b =~= b);
    }
    if y.exact is Some {
        assert forall|q: Seq<u8>| #[trigger] f.exact.unwrap().contains(q) implies is_end_of(
            q,
            p,
            true,
        ) && is_end_of(q, p, false) by {
            assert(all.contains(q));
            assert(y.exact.unwrap().contains(q));
        }
        lemma_simple_settled();
        reveal(Facts::simplified);
        assert(!f.too_big(false));
    } else {
        assert(x.suffix =~= seq![]);
        assert(y.suffix + x.suffix =~= y.suffix);
        lemma_canon(y.suffix, true);
        lemma_canon_len(y.suffix, true);
        assert forall|q: Seq<u8>| #[trigger] f.prefix.contains(q) implies is_end_of(q, p, true) by {
            assert(all.contains(q));
        }
        assert forall|q: Seq<u8>| #[trigger] f.suffix.contains(q) implies is_end_of(
            q,
            p,
            false,
        ) by {
            assert(y.suffix.contains(q));
        }
        lemma_simplified_ends(f, p);
    }
}

proof fn lemma_cut_join(w: Seq<u8>, v: Seq<u8>, a: Seq<u8>, b: Seq<u8>, present: Set<u32>)
    requires
        a == w || a == cut(w, 2, false),
        b == v || b == cut(v, 2, true),
        trigrams(a + b).subset_of(present),
    ensures
        trigrams(last_two(w) + first_two(v)).subset_of(present),
{
    let (c, d) = (last_two(w), first_two(v));
    assert(c =~= cut(w, 2, false));
    assert(d =~= cut(v, 2, true));
    let whole = a + b;
    let from = a.len() - c.len();
    let to = a.len() + d.len();
    assert(whole.subrange(from as int, to as int) =~= c + d);
    law_part(whole, from as int, to as int);
}

/// The last two bytes of a string, or all of it.
pub open spec fn last_two(s: Seq<u8>) -> Seq<u8> {
    if s.len() > 2 {
        s.subrange(s.len() - 2, s.len() as int)
    } else {
        s
    }
}

/// The first two bytes of a string, or all of it.
pub open spec fn first_two(s: Seq<u8>) -> Seq<u8> {
    if s.len() > 2 {
        s.subrange(0, 2)
    } else {
        s
    }
}

/// Where one pattern follows another and neither can match more than twenty
/// strings, the query asks for the trigrams at the seam: those of the end of a
/// match of the one and the start of a match of the other together.
pub proof fn law_seam_query(x: Pattern, y: Pattern, present: Set<u32>)
    requires
        is_brief(x),
        is_brief(y),
        pattern_query(Pattern::Concat(seq![x, y])).sat(present),
    ensures
        exists|w: Seq<u8>, v: Seq<u8>| #[trigger]
            x.matches(w) && #[trigger] y.matches(v) && trigrams(
                last_two(w) + first_two(v),
            ).subset_of(present),
{
    let subs = seq![x, y];
    let p = Pattern::Concat(subs);
    let f = facts_empty().then_match(facts_of(x));
    let g = facts_of(y);
    lemma_settled(p);
    lemma_query_asks(p, present);
    lemma_settled(x);
    lemma_settled(y);
    lemma_simple_settled();
    lemma_then_settled(facts_empty(), facts_of(x));
    lemma_then_settled(f, g);
    assert(concat_facts(subs, 0) == facts_empty());
    assert(concat_facts(subs, 1) == f);
    assert(concat_facts(subs, 2) == f.then_match(g));
    assert(asks(f.then_match(g), present));
    lemma_first_tight(x);
    lemma_tight(y);
    let (a, b) = lemma_straddle(f, g, present);
    assert(is_end_of(a, x, false));
    assert(is_end_of(b, y, true));
    let w = choose|w: Seq<u8>| #[trigger] x.matches(w) && (a == w || a == cut(w, 2, false));
    let v = choose|v: Seq<u8>| #[trigger] y.matches(v) && (b == v || b == cut(v, 2, true));
    lemma_cut_join(w, v, a, b, present);
}

/// One or more matches after a match ask for what one match there asks for.
proof fn lemma_then_repeated(f: Facts, x: Facts, present: Set<u32>)
    requires
        settled(f),
        settled(x),
        f.suffix.len() <= MAX_SET,
        x.starts().len() <= MAX_SET,
        asks(f.then_match(x.repeated()), present),
    ensures
        asks(f.then_match(x), present),
{
    let y = x.repeated();
    lemma_repeated_settled(x);
    lemma_then_settled(f, x);
    lemma_then_settled(f, y);
    assert(asks(raw_then(f, y), present));
    if let Some(e) = x.exact {
        assert(asks(f, present) && asks(y, present));
        law_combine(f.m, x.m, Op::And, present);
        let (a, b) = lemma_straddle(f, y, present);
        assert(y.prefix == e);
        assert(f.ends().contains(a) && e.contains(b));
        lemma_products(f.ends(), e, a, b);
        assert(held(products(f.ends(), e), present));
        match f.exact {
            Some(fe) => {
                lemma_held_canon(products(fe, e), false, present);
            },
            None => {
                lemma_held_canon(products(f.suffix, e), true, present);
                assert(f.prefix + x.prefix =~= f.prefix);
                lemma_held_canon(f.prefix, false, present);
            },
        }
        assert(asks(raw_then(f, x), present));
    }
    assert(asks(f.then_match(x), present) == asks(raw_then(f, x), present));
}

/// A repetition asks for all that as many matches in a row as it needs ask for.
pub proof fn law_least_repetition_query(
    min: u32,
    max: Option<u32>,
    sub: Pattern,
    present: Set<u32>,
)
    requires
        min > 0,
        pattern_query(Pattern::Repetition { min, max, sub: Box::new(sub) }).sat(present),
    ensures
        pattern_query(Pattern::Repetition { min, max: Some(min), sub: Box::new(sub) }).sat(present),
{
    let p = Pattern::Repetition { min, max, sub: Box::new(sub) };
    let q = Pattern::Repetition { min, max: Some(min), sub: Box::new(sub) };
    let x = facts_of(sub);
    lemma_settled(p);
    lemma_settled(q);
    lemma_settled(sub);
    lemma_query_asks(p, present);
    lemma_query_asks(q, present);
    lemma_simple_settled();
    lemma_power_settled(x, min as nat);
    lemma_repeated_settled(x);
    let xn = x.power(min as nat);
    assert(facts_of(q) == xn);
    if max == Some(min) {
    } else if max is Some {
        lemma_then_settled(xn, facts_any(true));
        assert(asks(xn.then_match(facts_any(true)), present) ==> asks(xn, present));
    } else if min == 1 {
        assert(xn == x);
        assert(asks(x.repeated(), present) == asks(x, present));
    } else {
        let xm = x.power((min - 1) as nat);
        lemma_power_settled(x, (min - 1) as nat);
        law_sets_stay_small(sub);
        lemma_power_kept(x, (min - 1) as nat);
        lemma_then_repeated(xm, x, present);
    }
}

/// Whether the last two bytes of every match are listed.
pub open spec fn lists_ends(ends: Seq<Seq<u8>>, p: Pattern) -> bool {
    forall|w: Seq<u8>| #[trigger] p.matches(w) ==> ends.contains(last_two(w))
}

/// Whether the matches of a pattern end in no more than twenty ways.
pub open spec fn has_few_ends(p: Pattern) -> bool {
    exists|ends: Seq<Seq<u8>>| ends.len() <= 20 && #[trigger] lists_ends(ends, p)
}

/// Distinct strings that are all among others are no more than those.
proof fn lemma_no_more(a: Seq<Seq<u8>>, b: Seq<Seq<u8>>)
    requires
        a.no_duplicates(),
        forall|x: Seq<u8>| #[trigger] a.contains(x) ==> b.contains(x),
    ensures
        a.len() <= b.len(),
{
    a.unique_seq_to_set();
    seq_to_set_is_finite(b);
    b.lemma_cardinality_of_set();
    assert(a.to_set().subset_of(b.to_set())) by {
        assert forall|x: Seq<u8>| #[trigger] a.to_set().contains(x) implies b.to_set().contains(
            x,
        ) by {
            assert(a.contains(x));
        }
    }
    lemma_len_subset(a.to_set(), b.to_set());
}

/// Whether `q` ends in the same two bytes as a match of `p`.
spec fn ends_alike(q: Seq<u8>, p: Pattern) -> bool {
    exists|w: Seq<u8>| #[trigger] p.matches(w) && cut(q, 2, false) == cut(w, 2, false)
}

/// Where matches end in few ways, their ends are cut to two bytes and no
/// further.
proof fn lemma_few_ends_kept(set: Seq<Seq<u8>>, p: Pattern)
    requires
        forall|q: Seq<u8>| #[trigger] set.contains(q) ==> ends_alike(q, p),
        has_few_ends(p),
    ensures
        ends_of(shortened(set, false), p, false),
{
    let ends = choose|ends: Seq<Seq<u8>>| ends.len() <= 20 && #[trigger] lists_ends(ends, p);
    let t = canon(set, true);
    let c = cut_all(t, 2, false);
    let n = canon(c, true);
    lemma_canon(set, true);
    lemma_canon(c, true);
    assert forall|q: Seq<u8>| #[trigger] n.contains(q) implies ends.contains(q) && is_end_of(
        q,
        p,
        false,
    ) by {
        assert(c.contains(q));
        let k = choose|k: int| 0 <= k < c.len() && c[k] == q;
        assert(q == cut(t[k], 2, false));
        assert(t.contains(t[k]));
        assert(ends_alike(t[k], p));
        let w = choose|w: Seq<u8>| #[trigger]
            p.matches(w) && cut(t[k], 2, false) == cut(w, 2, false);
        assert(q =~= last_two(w));
    }
    assert forall|i: int, j: int| 0 <= i < n.len() && 0 <= j < n.len() && i != j implies n[i]
        != n[j] by {
        lemma_before_order(n[i], n[j], n[i], true);
        if i < j {
            assert(before(n[i], n[j], true));
        } else {
            assert(before(n[j], n[i], true));
        }
    }
    lemma_no_more(n, ends);
    assert(narrowed(t, 2, false) == n);
    lemma_thinned_part(n, false);
}

/// Whether the facts list matches, or what matches are cut to at their end.
spec fn is_tail(f: Facts, p: Pattern) -> bool {
    match f.exact {
        Some(e) => forall|q: Seq<u8>| #[trigger] e.contains(q) ==> p.matches(q),
        None => ends_of(f.suffix, p, false),
    }
}

proof fn lemma_simplified_tail(f: Facts, p: Pattern)
    requires
        settled(f) || f.exact is None,
        match f.exact {
            Some(e) => forall|q: Seq<u8>| #[trigger] e.contains(q) ==> p.matches(q),
            None => forall|q: Seq<u8>| #[trigger] f.suffix.contains(q) ==> ends_alike(q, p),
        },
        has_few_ends(p),
    ensures
        is_tail(f.simplified(false), p),
{
    reveal(Facts::simplified);
    let g = if f.too_big(false) { f.inexact() } else { f };
    if g.exact is None {
        if let Some(e) = f.exact {
            let b = cut_all(e, 2, false);
            assert(f.suffix + b =~= b);
            lemma_canon(b, true);
            assert forall|q: Seq<u8>| #[trigger] g.suffix.contains(q) implies ends_alike(q, p) by {
                assert(b.contains(q));
                let k = choose|k: int| 0 <= k < b.len() && b[k] == q;
                assert(e.contains(e[k]));
                assert(p.matches(e[k]));
                assert(cut(q, 2, false) == cut(e[k], 2, false));
            }
        }
        lemma_with_set_asks(g, true);
        lemma_with_set_asks(g.with_set(true), false);
        lemma_few_ends_kept(g.suffix, p);
    }
}

/// Patterns one after the other, of few strings each, end as their matches do.
proof fn lemma_concat_ends(subs: Seq<Pattern>, n: nat)
    requires
        n <= subs.len(),
        forall|i: int| 0 <= i < subs.len() ==> 1 <= strings_of(#[trigger] subs[i]) <= 20,
        forall|k: int|
            0 <= k <= subs.len() ==> has_few_ends(Pattern::Concat(#[trigger] subs.take(k))),
    ensures
        is_tail(concat_facts(subs, n), Pattern::Concat(subs.take(n as int))),
    decreases n,
{
    let p = Pattern::Concat(subs.take(n as int));
    let none: Seq<u8> = seq![];
    if n == 0 {
        let one: Seq<Seq<u8>> = seq![none];
        let front = subs.take(0);
        assert(concat_facts(subs, 0).exact.unwrap() == one);
        assert(p->Concat_0 == front);
        assert(matches_each(front, front.len(), none));
        assert(p.matches(none));
        assert forall|q: Seq<u8>| #[trigger] one.contains(q) implies p.matches(q) by {
            assert(q == none);
        }
    } else {
        let m = (n - 1) as nat;
        let front = subs.take(m as int);
        let whole = Pattern::Concat(front);
        let last = subs[n - 1];
        let (x, y) = (concat_facts(subs, m), facts_of(last));
        lemma_concat_ends(subs, m);
        lemma_lists(last);
        lemma_concat_settled(subs, m);
        lemma_settled(last);
        lemma_raw_then(x, y);
        let e = y.exact.unwrap();
        let f = raw_then(x, y);
        let all = products(x.ends(), e);
        lemma_canon(all, false);
        lemma_canon(all, true);
        assert(subs.take(n as int) =~= front.push(last));
        assert forall|z: Seq<u8>| #[trigger] all.contains(z) implies ends_alike(z, p) && (x.exact
            is Some ==> p.matches(z)) by {
            let (a, b) = lemma_product_split(x.ends(), e, z);
            if x.exact is Some {
                law_concat_matches(front, last, a, b);
            } else {
                assert(is_end_of(a, whole, false));
                let w = choose|w: Seq<u8>| #[trigger]
                    whole.matches(w) && (a == w || a == cut(w, 2, false));
                law_concat_matches(front, last, w, b);
                assert(p.matches(w + b));
                assert(cut(a + b, 2, false) =~= cut(w + b, 2, false));
            }
        }
        if x.exact is Some {
            assert(settled(f)) by {
                lemma_then_exact_settled(x, y);
            }
        }
        lemma_simplified_tail(f, p);
    }
}

proof fn lemma_then_exact_settled(x: Facts, y: Facts)
    requires
        settled(x),
        settled(y),
        x.exact is Some,
        y.exact is Some,
    ensures
        settled(raw_then(x, y)),
{
    let f = raw_then(x, y);
    let none: Seq<u8> = seq![];
    assert forall|present: Set<u32>| #[trigger] f.m.sat(present) by {
        assert(x.m.sat(present) && y.m.sat(present));
        law_combine(x.m, y.m, Op::And, present);
    }
    if f.can_empty {
        assert(none + none =~= none);
        lemma_products(x.exact.unwrap(), y.exact.unwrap(), none, none);
        lemma_canon(products(x.exact.unwrap(), y.exact.unwrap()), false);
    }
}

/// Patterns one after the other ask for all that those in front ask for by
/// themselves.
pub proof fn law_front_query(subs: Seq<Pattern>, n: int, present: Set<u32>)
    requires
        0 <= n <= subs.len(),
        pattern_query(Pattern::Concat(subs)).sat(present),
    ensures
        pattern_query(Pattern::Concat(subs.take(n))).sat(present),
{
    let front = subs.take(n);
    lemma_settled(Pattern::Concat(subs));
    lemma_settled(Pattern::Concat(front));
    lemma_query_asks(Pattern::Concat(subs), present);
    lemma_query_asks(Pattern::Concat(front), present);
    lemma_same_front(subs, front, n as nat);
    if n > 0 {
        lemma_concat_asks(subs, subs.len(), n - 1, present);
    } else {
        let none: Seq<u8> = seq![];
        let one: Seq<Seq<u8>> = seq![none];
        assert(one[0] == none);
        lemma_short(none, present);
        assert(facts_empty().exact.unwrap() == one);
        assert(one.contains(none));
        assert(facts_empty().m.sat(present));
    }
}

proof fn lemma_same_front(subs: Seq<Pattern>, front: Seq<Pattern>, n: nat)
    requires
        n <= front.len() <= subs.len(),
        forall|i: int| 0 <= i < front.len() ==> front[i] == subs[i],
    ensures
        concat_facts(front, n) == concat_facts(subs, n),
    decreases n,
{
    if n > 0 {
        lemma_same_front(subs, front, (n - 1) as nat);
    }
}

/// However long a sequence of patterns that match few strings each, such as the
/// letters of a word in either case, the query asks for the trigrams all the
/// way along: at every place, for those of the last two bytes of a match of
/// what stands before it and a match of what stands there together. The matches
/// of what stands before end in no more than twenty ways.
pub proof fn law_long_sequence_query(subs: Seq<Pattern>, n: int, present: Set<u32>)
    requires
        0 <= n < subs.len(),
        forall|i: int| 0 <= i < subs.len() ==> 1 <= strings_of(#[trigger] subs[i]) <= 20,
        forall|k: int|
            0 <= k <= subs.len() ==> has_few_ends(Pattern::Concat(#[trigger] subs.take(k))),
        pattern_query(Pattern::Concat(subs)).sat(present),
    ensures
        exists|w: Seq<u8>, v: Seq<u8>| #[trigger]
            Pattern::Concat(subs.take(n)).matches(w) && #[trigger] subs[n].matches(v) && trigrams(
                last_two(w) + v,
            ).subset_of(present),
{
    let p = Pattern::Concat(subs);
    let before = Pattern::Concat(subs.take(n));
    let (f, g) = (concat_facts(subs, n as nat), facts_of(subs[n]));
    lemma_settled(p);
    lemma_query_asks(p, present);
    lemma_concat_asks(subs, subs.len(), n, present);
    lemma_concat_settled(subs, n as nat);
    lemma_settled(subs[n]);
    lemma_then_settled(f, g);
    assert(asks(f.then_match(g), present));
    lemma_concat_ends(subs, n as nat);
    lemma_lists(subs[n]);
    lemma_concat_kept(subs, n as nat);
    let (a, v) = lemma_straddle(f, g, present);
    assert(subs[n].matches(v));
    if f.exact is Some {
        assert(before.matches(a));
        lemma_end_joined(a, v, a, present);
    } else {
        assert(is_end_of(a, before, false));
        let w = choose|w: Seq<u8>| #[trigger]
            before.matches(w) && (a == w || a == cut(w, 2, false));
        lemma_end_joined(w, v, a, present);
        assert(before.matches(w));
    }
}

proof fn lemma_end_joined(w: Seq<u8>, v: Seq<u8>, a: Seq<u8>, present: Set<u32>)
    requires
        a == w || a == cut(w, 2, false),
        trigrams(a + v).subset_of(present),
    ensures
        trigrams(last_two(w) + v).subset_of(present),
{
    let c = last_two(w);
    let whole = a + v;
    let from = a.len() - c.len();
    assert(c =~= cut(w, 2, false));
    assert(whole.subrange(from as int, whole.len() as int) =~= c + v);
    law_part(whole, from as int, whole.len() as int);
}

/// Whatever stands before a match of two bytes or more, the end is that of the
/// match.
proof fn lemma_last_ends(f: Facts, x: Pattern)
    requires
        settled(f),
        is_brief(x),
        has_few_ends(x),
        forall|w: Seq<u8>| #[trigger] x.matches(w) ==> w.len() >= 2,
    ensures
        forall|q: Seq<u8>| #[trigger]
            f.then_match(facts_of(x)).ends().contains(q) ==> ends_alike(q, x),
{
    let g = facts_of(x);
    let r = raw_then(f, g);
    let none: Seq<u8> = seq![];
    lemma_tight(x);
    lemma_settled(x);
    lemma_raw_then(f, g);
    if g.can_empty {
        assert(g.ends().contains(none));
        assert(is_end_of(none, x, false));
    }
    assert forall|b: Seq<u8>| #[trigger] g.ends().contains(b) implies ends_alike(b, x) by {
        assert(is_end_of(b, x, false));
        let w = choose|w: Seq<u8>| #[trigger] x.matches(w) && (b == w || b == cut(w, 2, false));
        assert(cut(b, 2, false) == cut(w, 2, false));
    }
    if let Some(e) = g.exact {
        let all = products(f.ends(), e);
        lemma_canon(all, false);
        lemma_canon(all, true);
        assert forall|z: Seq<u8>| #[trigger] all.contains(z) implies ends_alike(z, x) by {
            let (a, b) = lemma_product_split(f.ends(), e, z);
            assert(is_end_of(b, x, false));
            let w = choose|w: Seq<u8>| #[trigger] x.matches(w) && (b == w || b == cut(w, 2, false));
            assert(b.len() >= 2);
            assert(cut(a + b, 2, false) =~= cut(w, 2, false));
        }
    }
    reveal(Facts::simplified);
    let s = if r.too_big(false) { r.inexact() } else { r };
    if s.exact is None {
        if let Some(e) = r.exact {
            let c = cut_all(e, 2, false);
            assert(r.suffix + c =~= c);
            lemma_canon(c, true);
            assert forall|q: Seq<u8>| #[trigger] s.suffix.contains(q) implies ends_alike(q, x) by {
                assert(c.contains(q));
                let k = choose|k: int| 0 <= k < c.len() && c[k] == q;
                assert(e.contains(e[k]));
                assert(ends_alike(e[k], x));
                assert(cut(q, 2, false) == cut(e[k], 2, false));
            }
        }
        lemma_with_set_asks(s, true);
        lemma_with_set_asks(s.with_set(true), false);
        lemma_few_ends_kept(s.suffix, x);
        let out = f.then_match(g);
        assert(out.suffix == shortened(s.suffix, false));
        assert forall|q: Seq<u8>| #[trigger] out.suffix.contains(q) implies ends_alike(q, x) by {
            assert(is_end_of(q, x, false));
            let w = choose|w: Seq<u8>| #[trigger] x.matches(w) && (q == w || q == cut(w, 2, false));
            assert(cut(q, 2, false) == cut(w, 2, false));
        }
    }
}

/// The seam is asked for wherever in a sequence it is, and whatever stands
/// around it, if the matches before it have two bytes or more and end in no
/// more than twenty ways.
pub proof fn law_inner_seam_query(subs: Seq<Pattern>, i: int, present: Set<u32>)
    requires
        0 <= i,
        i + 1 < subs.len(),
        is_brief(subs[i]),
        is_brief(subs[i + 1]),
        has_few_ends(subs[i]),
        forall|w: Seq<u8>| #[trigger] subs[i].matches(w) ==> w.len() >= 2,
        pattern_query(Pattern::Concat(subs)).sat(present),
    ensures
        exists|w: Seq<u8>, v: Seq<u8>| #[trigger]
            subs[i].matches(w) && #[trigger] subs[i + 1].matches(v) && trigrams(
                last_two(w) + first_two(v),
            ).subset_of(present),
{
    let p = Pattern::Concat(subs);
    let (x, y) = (subs[i], subs[i + 1]);
    let f = concat_facts(subs, i as nat);
    let g = f.then_match(facts_of(x));
    let h = facts_of(y);
    lemma_settled(p);
    lemma_query_asks(p, present);
    lemma_concat_asks(subs, subs.len(), i + 1, present);
    lemma_concat_settled(subs, i as nat);
    lemma_concat_settled(subs, (i + 1) as nat);
    lemma_settled(y);
    assert(concat_facts(subs, (i + 1) as nat) == g);
    lemma_then_settled(g, h);
    assert(asks(g.then_match(h), present));
    lemma_concat_kept(subs, (i + 1) as nat);
    lemma_last_ends(f, x);
    lemma_tight(y);
    let (a, b) = lemma_straddle(g, h, present);
    assert(ends_alike(a, x));
    assert(is_end_of(b, y, true));
    let w = choose|w: Seq<u8>| #[trigger] x.matches(w) && cut(a, 2, false) == cut(w, 2, false);
    let v = choose|v: Seq<u8>| #[trigger] y.matches(v) && (b == v || b == cut(v, 2, true));
    lemma_cut_join(a, v, a, b, present);
    assert(last_two(a) =~= cut(a, 2, false));
    assert(last_two(w) =~= cut(w, 2, false));
}

} // verus!

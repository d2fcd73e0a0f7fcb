//! What the analysis of a regular expression keeps stays small and sorted.

use vstd::prelude::*;

use crate::expr::Pattern;
use crate::facts::{
    any_text, cut, cut_all, facts_any, facts_empty, narrowed, set_query, thinned, Facts, MAX_SET,
};
use crate::query::{combine, each_of, law_combine_sorted, Op};
use crate::regexp::{
    alternate_facts, byte_set, class_facts, concat_facts, facts_of, pattern_query, unicode_set,
};
use crate::sets::{lemma_sorted_set, sorted_set};
use crate::strset::{canon, lemma_before_order, lemma_canon, merge_texts, products, shortest};
use crate::trigram::packed;

verus! {

/// Whether every set holds at most `MAX_SET` strings, and every list of
/// trigrams is sorted.
pub open spec fn well_kept(f: Facts) -> bool {
    &&& f.m.tidy()
    &&& match f.exact {
        Some(e) => e.len() <= MAX_SET,
        None => true,
    }
    &&& f.prefix.len() <= MAX_SET
    &&& f.suffix.len() <= MAX_SET
}

proof fn lemma_any_text_tidy(s: Seq<Seq<u8>>)
    ensures
        any_text(s).tidy(),
    decreases s.len(),
{
    if s.len() > 0 {
        lemma_any_text_tidy(s.drop_last());
        let each = each_of(sorted_set(packed(s.last())));
        lemma_sorted_set(packed(s.last()));
        assert(each.tidy());
        law_combine_sorted(any_text(s.drop_last()), each, Op::Or);
    }
}

proof fn lemma_with_query(f: Facts, s: Seq<Seq<u8>>)
    requires
        f.m.tidy(),
    ensures
        combine(f.m, set_query(s), Op::And).tidy(),
{
    lemma_any_text_tidy(s);
    law_combine_sorted(f.m, set_query(s), Op::And);
}

/// Of strings without a byte a canonical list holds at most one.
proof fn lemma_narrowed_len(s: Seq<Seq<u8>>, keep: nat, is_prefix: bool)
    ensures
        narrowed(s, keep, is_prefix).len() <= MAX_SET,
    decreases keep,
{
    let all = cut_all(s, keep, is_prefix);
    let t = canon(all, !is_prefix);
    if keep > 0 {
        if t.len() > MAX_SET {
            lemma_narrowed_len(t, (keep - 1) as nat, is_prefix);
        }
    } else {
        lemma_canon(all, !is_prefix);
        assert forall|i: int| 0 <= i < t.len() implies (#[trigger] t[i]) =~= seq![] by {
            assert(t.contains(t[i]));
            assert(all.contains(t[i]));
            let k = choose|k: int| 0 <= k < all.len() && all[k] == t[i];
            assert(cut(s[k], 0, is_prefix).len() == 0);
        }
        if t.len() > 1 {
            assert(t[0] == t[1]);
            lemma_before_order(t[0], t[1], t[0], !is_prefix);
        }
    }
}

pub proof fn lemma_thinned_len(s: Seq<Seq<u8>>, is_prefix: bool)
    ensures
        thinned(s, is_prefix).len() <= s.len(),
    decreases s.len(),
{
    if s.len() > 0 {
        lemma_thinned_len(s.drop_last(), is_prefix);
    }
}

proof fn lemma_with_set_kept(f: Facts, is_prefix: bool)
    requires
        f.m.tidy(),
    ensures
        f.with_set(is_prefix).m.tidy(),
        is_prefix ==> f.with_set(is_prefix).prefix.len() <= MAX_SET,
        is_prefix ==> f.with_set(is_prefix).suffix == f.suffix,
        !is_prefix ==> f.with_set(is_prefix).suffix.len() <= MAX_SET,
        !is_prefix ==> f.with_set(is_prefix).prefix == f.prefix,
        f.with_set(is_prefix).exact == f.exact,
{
    reveal(Facts::with_set);
    let t = canon(if is_prefix { f.prefix } else { f.suffix }, !is_prefix);
    lemma_with_query(f, t);
    lemma_narrowed_len(t, 2, is_prefix);
    lemma_thinned_len(narrowed(t, 2, is_prefix), is_prefix);
}

proof fn lemma_simplified_kept(f: Facts, force: bool)
    requires
        f.m.tidy(),
        f.exact is Some ==> f.prefix.len() <= MAX_SET && f.suffix.len() <= MAX_SET,
    ensures
        well_kept(f.simplified(force)),
{
    reveal(Facts::simplified);
    let g = if f.too_big(force) { f.inexact() } else { f };
    if f.too_big(force) {
        lemma_with_query(f, f.exact.unwrap());
    }
    if g.exact is None {
        lemma_with_set_kept(g, true);
        lemma_with_set_kept(g.with_set(true), false);
    }
}

proof fn lemma_then_kept(x: Facts, y: Facts)
    requires
        well_kept(x),
        well_kept(y),
    ensures
        well_kept(x.then_match(y)),
{
    reveal(Facts::then_match);
    law_combine_sorted(x.m, y.m, Op::And);
    let m = combine(x.m, y.m, Op::And);
    let set = canon(products(x.suffix, y.prefix), false);
    lemma_any_text_tidy(set);
    law_combine_sorted(m, set_query(set), Op::And);
    let both = x.exact is Some && y.exact is Some;
    let prefix = match x.exact {
        Some(xe) => canon(products(xe, y.prefix), false),
        None => if x.can_empty {
            canon(x.prefix + y.prefix, false)
        } else {
            x.prefix
        },
    };
    let suffix = match y.exact {
        Some(ye) => canon(products(x.suffix, ye), true),
        None => if y.can_empty {
            canon(y.suffix + x.suffix, true)
        } else {
            y.suffix
        },
    };
    let straddled = x.exact is None && y.exact is None && x.suffix.len() <= MAX_SET
        && y.prefix.len() <= MAX_SET && shortest(x.suffix) + shortest(y.prefix) >= 3;
    let f = Facts {
        can_empty: x.can_empty && y.can_empty,
        exact: if both {
            Some(canon(products(x.exact.unwrap(), y.exact.unwrap()), false))
        } else {
            None
        },
        prefix: if both {
            seq![]
        } else {
            prefix
        },
        suffix: if both {
            seq![]
        } else {
            suffix
        },
        m: if straddled {
            combine(m, set_query(set), Op::And)
        } else {
            m
        },
    };
    lemma_simplified_kept(f, false);
}

proof fn lemma_or_kept(x: Facts, y: Facts)
    requires
        well_kept(x),
        well_kept(y),
    ensures
        well_kept(x.or_match(y)),
{
    reveal(Facts::or_match);
    if let Some(e) = x.exact {
        lemma_with_query(x, e);
    }
    if let Some(e) = y.exact {
        lemma_with_query(y, e);
    }
    law_combine_sorted(x.m, y.m, Op::Or);
    law_combine_sorted(x.with_exact().m, y.with_exact().m, Op::Or);
    let both = x.exact is Some && y.exact is Some;
    let one = x.exact is Some != y.exact is Some;
    let f = Facts {
        can_empty: x.can_empty || y.can_empty,
        exact: if both {
            Some(canon(x.exact.unwrap() + y.exact.unwrap(), false))
        } else {
            None
        },
        prefix: if both {
            seq![]
        } else {
            canon(x.starts() + y.starts(), false)
        },
        suffix: if both {
            seq![]
        } else {
            canon(x.ends() + y.ends(), true)
        },
        m: if one {
            combine(x.with_exact().m, y.with_exact().m, Op::Or)
        } else {
            combine(x.m, y.m, Op::Or)
        },
    };
    lemma_simplified_kept(f, false);
}

proof fn lemma_merged_len(a: Seq<Seq<u8>>, b: Seq<Seq<u8>>, is_suffix: bool)
    ensures
        merge_texts(a, b, is_suffix).len() <= a.len() + b.len(),
    decreases a.len() + b.len(),
{
    if a.len() > 0 && b.len() > 0 {
        lemma_merged_len(a.skip(1), b, is_suffix);
        lemma_merged_len(a, b.skip(1), is_suffix);
        lemma_merged_len(a.skip(1), b.skip(1), is_suffix);
    }
}

pub proof fn lemma_canon_len(s: Seq<Seq<u8>>, is_suffix: bool)
    ensures
        canon(s, is_suffix).len() <= s.len(),
    decreases s.len(),
{
    if s.len() > 1 {
        let h = s.len() as int / 2;
        lemma_canon_len(s.take(h), is_suffix);
        lemma_canon_len(s.skip(h), is_suffix);
        lemma_merged_len(
            canon(s.take(h), is_suffix),
            canon(s.skip(h), is_suffix),
            is_suffix,
        );
    }
}

proof fn lemma_repeated_kept(x: Facts)
    requires
        well_kept(x),
    ensures
        well_kept(x.repeated()),
{
    if let Some(e) = x.exact {
        lemma_canon_len(e, true);
    }
}

pub proof fn lemma_power_kept(x: Facts, k: nat)
    requires
        well_kept(x),
    ensures
        well_kept(x.power(k)),
    decreases k,
{
    if k > 1 {
        lemma_power_kept(x, (k - 1) as nat);
        lemma_then_kept(x.power((k - 1) as nat), x);
    }
}

proof fn lemma_class_kept(set: Option<Seq<Seq<u8>>>)
    requires
        set matches Some(e) ==> e.len() <= MAX_SET,
    ensures
        well_kept(class_facts(set)),
{
    if let Some(e) = set {
        lemma_canon_len(e, false);
    }
}

/// What is kept of a pattern stays within bounds: no set holds more than
/// `MAX_SET` strings, and the trigrams of the query are sorted throughout.
pub proof fn law_sets_stay_small(p: Pattern)
    ensures
        well_kept(facts_of(p)),
    decreases p,
{
    match p {
        Pattern::Empty => {},
        Pattern::Look => {},
        Pattern::Literal(_) => {},
        Pattern::Unicode(ranges) => {
            lemma_class_kept(unicode_set(ranges));
        },
        Pattern::Bytes(ranges) => {
            lemma_class_kept(byte_set(ranges));
        },
        Pattern::Capture(sub) => {
            law_sets_stay_small(*sub);
        },
        Pattern::Repetition { min, max, sub } => {
            law_sets_stay_small(*sub);
            let x = facts_of(*sub);
            lemma_repeated_kept(x);
            lemma_or_kept(x, facts_empty());
            if min > 0 {
                lemma_power_kept(x, min as nat);
                lemma_power_kept(x, (min - 1) as nat);
                lemma_then_kept(x.power(min as nat), facts_any(true));
                lemma_then_kept(x.power((min - 1) as nat), x.repeated());
            }
        },
        Pattern::Concat(subs) => {
            lemma_concat_kept(subs, subs.len());
        },
        Pattern::Alternation(subs) => {
            lemma_alternate_kept(subs, subs.len());
        },
    }
}

pub proof fn lemma_concat_kept(subs: Seq<Pattern>, n: nat)
    requires
        n <= subs.len(),
    ensures
        well_kept(concat_facts(subs, n)),
    decreases subs, n,
{
    if n > 0 {
        lemma_concat_kept(subs, (n - 1) as nat);
        law_sets_stay_small(subs[n - 1]);
        lemma_then_kept(concat_facts(subs, (n - 1) as nat), facts_of(subs[n - 1]));
    }
}

proof fn lemma_alternate_kept(subs: Seq<Pattern>, n: nat)
    requires
        n <= subs.len(),
    ensures
        well_kept(alternate_facts(subs, n)),
    decreases subs, n,
{
    if n > 0 {
        lemma_alternate_kept(subs, (n - 1) as nat);
        law_sets_stay_small(subs[n - 1]);
        lemma_or_kept(alternate_facts(subs, (n - 1) as nat), facts_of(subs[n - 1]));
    }
}

/// The query of a pattern lists its trigrams sorted, without repetition, at
/// every level.
pub proof fn law_query_sorted(p: Pattern)
    ensures
        pattern_query(p).tidy(),
{
    law_sets_stay_small(p);
    let f = facts_of(p);
    lemma_simplified_kept(f, true);
    let g = f.simplified(true);
    if let Some(e) = g.exact {
        lemma_with_query(g, e);
    }
}

} // verus!

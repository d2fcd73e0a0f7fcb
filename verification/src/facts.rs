//! What is known of the strings that a regular expression matches.
//!
//! For every sub-expression we track: whether it can match the empty string;
//! if bounded, the exact set of strings it matches; otherwise the sets of
//! possible prefixes and suffixes; and a trigram query that any match must
//! satisfy. Sets are capped at `MAX_SET` entries: when a set grows past that,
//! its trigrams are folded into the query and the set is shortened, so the
//! result is always conservative (never misses a file).

use vstd::prelude::*;

use crate::query::{always, combine, each_of, never, Formula, Op, Query};
use crate::sets::sorted_set;
use crate::strset::{
    canon, clean, copy, copy_set, cross, min_len, products, shortest, texts, union,
};
use crate::trigram::{pack_trigrams, packed};

verus! {

/// How many strings a set may hold before it is shortened.
pub const MAX_SET: usize = 20;

/// What is known of a match, as a mathematical value.
pub struct Facts {
    /// Whether the empty string may match.
    pub can_empty: bool,
    /// Every string that may match, if few enough.
    pub exact: Option<Seq<Seq<u8>>>,
    /// One of these starts every match, where `exact` is absent.
    pub prefix: Seq<Seq<u8>>,
    /// One of these ends every match, where `exact` is absent.
    pub suffix: Seq<Seq<u8>>,
    /// What the trigrams of every match satisfy.
    pub m: Formula,
}

/// The disjunction, over the strings, of the conjunction of the string's
/// trigrams.
pub open spec fn any_text(s: Seq<Seq<u8>>) -> Formula
    decreases s.len(),
{
    if s.len() == 0 {
        never()
    } else {
        combine(any_text(s.drop_last()), each_of(sorted_set(packed(s.last()))), Op::Or)
    }
}

/// What a document that holds one of the strings satisfies. A string shorter
/// than three bytes contributes no constraint, making the whole thing `All`.
pub open spec fn set_query(s: Seq<Seq<u8>>) -> Formula {
    if exists|i: int| 0 <= i < s.len() && (#[trigger] s[i]).len() < 3 {
        always()
    } else {
        any_text(s)
    }
}

/// At most `keep` bytes of `s`: the first ones, or the last ones.
pub open spec fn cut(s: Seq<u8>, keep: nat, is_prefix: bool) -> Seq<u8> {
    if s.len() <= keep {
        s
    } else if is_prefix {
        s.take(keep as int)
    } else {
        s.skip(s.len() - keep)
    }
}

/// Every string cut to `keep` bytes.
pub open spec fn cut_all(s: Seq<Seq<u8>>, keep: nat, is_prefix: bool) -> Seq<Seq<u8>> {
    Seq::new(s.len(), |i: int| cut(s[i], keep, is_prefix))
}

/// The set cut to strings of `keep` bytes, and to shorter ones while it is
/// still too large.
pub open spec fn narrowed(s: Seq<Seq<u8>>, keep: nat, is_prefix: bool) -> Seq<Seq<u8>>
    decreases keep,
{
    let t = canon(cut_all(s, keep, is_prefix), !is_prefix);
    if keep > 0 && t.len() > MAX_SET {
        narrowed(t, (keep - 1) as nat, is_prefix)
    } else {
        t
    }
}

/// Whether `a` starts `b`, or ends it.
pub open spec fn at_end(a: Seq<u8>, b: Seq<u8>, is_prefix: bool) -> bool {
    &&& a.len() <= b.len()
    &&& a == if is_prefix {
        b.take(a.len() as int)
    } else {
        b.skip(b.len() - a.len())
    }
}

/// The set without the entries that the last entry kept before them makes
/// redundant.
pub open spec fn thinned(s: Seq<Seq<u8>>, is_prefix: bool) -> Seq<Seq<u8>>
    decreases s.len(),
{
    if s.len() == 0 {
        seq![]
    } else {
        let kept = thinned(s.drop_last(), is_prefix);
        if kept.len() > 0 && at_end(kept.last(), s.last(), is_prefix) {
            kept
        } else {
            kept.push(s.last())
        }
    }
}

impl Facts {
    /// With the trigrams of the exact set folded into the query.
    pub open spec fn with_exact(self) -> Facts {
        match self.exact {
            Some(e) => Facts { m: combine(self.m, set_query(e), Op::And), ..self },
            None => self,
        }
    }

    /// With the trigrams of the prefixes (or suffixes) folded into the query,
    /// and the set shortened.
    #[verifier::opaque]
    pub open spec fn with_set(self, is_prefix: bool) -> Facts {
        let t = canon(
            if is_prefix {
                self.prefix
            } else {
                self.suffix
            },
            !is_prefix,
        );
        let m = combine(self.m, set_query(t), Op::And);
        let out = thinned(narrowed(t, 2, is_prefix), is_prefix);
        if is_prefix {
            Facts { m, prefix: out, ..self }
        } else {
            Facts { m, suffix: out, ..self }
        }
    }

    /// Whether the exact set is to be given up.
    pub open spec fn too_big(self, force: bool) -> bool {
        match self.exact {
            Some(e) => e.len() > MAX_SET || force && e.len() > 1,
            None => false,
        }
    }

    /// With an exact set that is too big exchanged for its prefixes and
    /// suffixes.
    pub open spec fn inexact(self) -> Facts {
        let e = self.exact.unwrap();
        Facts {
            exact: None,
            prefix: canon(self.prefix + cut_all(e, 2, true), false),
            suffix: canon(self.suffix + cut_all(e, 2, false), true),
            ..self.with_exact()
        }
    }

    /// With every set within bounds.
    #[verifier::opaque]
    pub open spec fn simplified(self, force: bool) -> Facts {
        let f = if self.too_big(force) {
            self.inexact()
        } else {
            self
        };
        if f.exact is None {
            f.with_set(true).with_set(false)
        } else {
            f
        }
    }

    /// The facts of a match followed by a match.
    #[verifier::opaque]
    pub open spec fn then_match(self, y: Facts) -> Facts {
        let x = self;
        let m = combine(x.m, y.m, Op::And);
        let both = x.exact is Some && y.exact is Some;
        let prefix = match x.exact {
            Some(xe) => canon(products(xe, y.prefix), false),
            None => if x.can_empty {
                canon(x.prefix + y.prefix, false)
            } else {
                x.prefix
            },
        };
        let suffix = match y.exact {
            Some(ye) => canon(products(x.suffix, ye), true),
            None => if y.can_empty {
                canon(y.suffix + x.suffix, true)
            } else {
                y.suffix
            },
        };
        let straddled = x.exact is None && y.exact is None && x.suffix.len() <= MAX_SET
            && y.prefix.len() <= MAX_SET && shortest(x.suffix) + shortest(y.prefix) >= 3;
        Facts {
            can_empty: x.can_empty && y.can_empty,
            exact: if both {
                Some(canon(products(x.exact.unwrap(), y.exact.unwrap()), false))
            } else {
                None
            },
            prefix: if both {
                seq![]
            } else {
                prefix
            },
            suffix: if both {
                seq![]
            } else {
                suffix
            },
            m: if straddled {
                combine(m, set_query(canon(products(x.suffix, y.prefix), false)), Op::And)
            } else {
                m
            },
        }.simplified(false)
    }

    /// The prefixes, or the exact set that stands for them.
    pub open spec fn starts(self) -> Seq<Seq<u8>> {
        match self.exact {
            Some(e) => e,
            None => self.prefix,
        }
    }

    /// The suffixes, or the exact set that stands for them.
    pub open spec fn ends(self) -> Seq<Seq<u8>> {
        match self.exact {
            Some(e) => e,
            None => self.suffix,
        }
    }

    /// The facts of a match of either.
    #[verifier::opaque]
    pub open spec fn or_match(self, y: Facts) -> Facts {
        let x = self;
        let both = x.exact is Some && y.exact is Some;
        let one = x.exact is Some != y.exact is Some;
        Facts {
            can_empty: x.can_empty || y.can_empty,
            exact: if both {
                Some(canon(x.exact.unwrap() + y.exact.unwrap(), false))
            } else {
                None
            },
            prefix: if both {
                seq![]
            } else {
                canon(x.starts() + y.starts(), false)
            },
            suffix: if both {
                seq![]
            } else {
                canon(x.ends() + y.ends(), true)
            },
            m: if one {
                combine(x.with_exact().m, y.with_exact().m, Op::Or)
            } else {
                combine(x.m, y.m, Op::Or)
            },
        }.simplified(false)
    }

    /// The facts of one match or more.
    pub open spec fn repeated(self) -> Facts {
        match self.exact {
            Some(e) => Facts { exact: None, prefix: e, suffix: canon(e, true), ..self },
            None => self,
        }
    }

    /// The facts of `k` matches in a row, for `k` at least 1.
    pub open spec fn power(self, k: nat) -> Facts
        decreases k,
    {
        if k <= 1 {
            self
        } else {
            self.power((k - 1) as nat).then_match(self)
        }
    }
}

/// Nothing matches.
pub open spec fn facts_none() -> Facts {
    Facts { can_empty: false, exact: None, prefix: seq![], suffix: seq![], m: never() }
}

/// The empty string matches.
pub open spec fn facts_empty() -> Facts {
    facts_exact(seq![seq![]], true)
}

/// The given strings match.
pub open spec fn facts_exact(e: Seq<Seq<u8>>, can_empty: bool) -> Facts {
    Facts { can_empty, exact: Some(e), prefix: seq![], suffix: seq![], m: always() }
}

/// Anything may match.
pub open spec fn facts_any(can_empty: bool) -> Facts {
    Facts { can_empty, exact: None, prefix: seq![seq![]], suffix: seq![seq![]], m: always() }
}

/// What is known of a match.
#[derive(Debug)]
pub struct Info {
    pub can_empty: bool,
    pub exact: Option<Vec<Vec<u8>>>,
    pub prefix: Vec<Vec<u8>>,
    pub suffix: Vec<Vec<u8>>,
    pub m: Query,
}

impl View for Info {
    type V = Facts;

    open spec fn view(&self) -> Facts {
        Facts {
            can_empty: self.can_empty,
            exact: match self.exact {
                Some(e) => Some(texts(e@)),
                None => None,
            },
            prefix: texts(self.prefix@),
            suffix: texts(self.suffix@),
            m: self.m@,
        }
    }
}

/// The query that a document with one of the strings satisfies.
pub fn set_trigrams(s: &[Vec<u8>]) -> (q: Query)
    ensures
        q@ == set_query(texts(s@)),
{
    let ghost x = texts(s@);
    let mut q = Query::none();
    let mut i: usize = 0;
    while i < s.len()
        invariant
            i <= s@.len(),
            x == texts(s@),
            q@ == any_text(x.take(i as int)),
            forall|k: int| 0 <= k < i ==> (#[trigger] x[k]).len() >= 3,
        decreases s@.len() - i,
    {
        if s[i].len() < 3 {
            assert(x[i as int].len() < 3);
            return Query::all();
        }
        let mut t: Vec<u32> = Vec::new();
        t.resize(s[i].len() - 2, 0);
        pack_trigrams(&s[i], t.as_mut_slice());
        proof {
            assert(x.take(i + 1).drop_last() =~= x.take(i as int));
            assert(x.take(i + 1).last() == s@[i as int]@);
        }
        q = q.or(Query::and_trigrams(t));
        i = i + 1;
    }
    assert(x.take(s@.len() as int) =~= x);
    q
}

/// The set with every string cut to `keep` bytes.
fn shorten(s: &[Vec<u8>], keep: usize, is_prefix: bool) -> (out: Vec<Vec<u8>>)
    ensures
        texts(out@) == cut_all(texts(s@), keep as nat, is_prefix),
{
    let mut out: Vec<Vec<u8>> = Vec::new();
    let mut i: usize = 0;
    while i < s.len()
        invariant
            i <= s@.len(),
            out@.len() == i,
            forall|k: int|
                0 <= k < i ==> (#[trigger] out@[k])@ == cut(s@[k]@, keep as nat, is_prefix),
        decreases s@.len() - i,
    {
        let n: usize = s[i].len();
        let ghost whole = s@[i as int]@;
        if n <= keep {
            out.push(copy(&s[i]));
        } else if is_prefix {
            assert(whole.subrange(0, keep as int) =~= whole.take(keep as int));
            out.push(copy(&s[i].as_slice()[0..keep]));
        } else {
            assert(whole.subrange(n - keep, n as int) =~= whole.skip(n - keep));
            out.push(copy(&s[i].as_slice()[n - keep..n]));
        }
        i = i + 1;
    }
    assert(texts(out@) =~= cut_all(texts(s@), keep as nat, is_prefix));
    out
}

/// Whether `a` starts `b`, or ends it.
fn is_at_end(a: &Vec<u8>, b: &Vec<u8>, is_prefix: bool) -> (r: bool)
    ensures
        r == at_end(a@, b@, is_prefix),
{
    if a.len() > b.len() {
        return false;
    }
    let n: usize = b.len();
    let off: usize = if is_prefix { 0 } else { n - a.len() };
    let ghost piece = if is_prefix { b@.take(a@.len() as int) } else { b@.skip(off as int) };
    let mut i: usize = 0;
    while i < a.len()
        invariant
            i <= a@.len(),
            a@.len() + off <= n,
            n == b@.len(),
            at_end(a@, b@, is_prefix) == (a@ == piece),
            piece.len() == a@.len(),
            forall|k: int| 0 <= k < piece.len() ==> piece[k] == b@[k + off],
            forall|k: int| 0 <= k < i ==> a@[k] == piece[k],
        decreases a@.len() - i,
    {
        if a[i] != b[off + i] {
            assert(a@[i as int] != piece[i as int]);
            return false;
        }
        i = i + 1;
    }
    assert(a@ =~= piece);
    true
}

/// The set shortened until it is small enough, and thinned.
fn shrink(s: &[Vec<u8>], is_prefix: bool) -> (out: Vec<Vec<u8>>)
    ensures
        texts(out@) == thinned(narrowed(texts(s@), 2, is_prefix), is_prefix),
{
    let mut t = clean(&shorten(s, 2, is_prefix), !is_prefix);
    let mut keep: usize = 2;
    while keep > 0 && t.len() > MAX_SET
        invariant
            keep <= 2,
            narrowed(texts(s@), 2, is_prefix) == if keep > 0 && t@.len() > MAX_SET {
                narrowed(texts(t@), (keep - 1) as nat, is_prefix)
            } else {
                texts(t@)
            },
        decreases keep,
    {
        t = clean(&shorten(&t, keep - 1, is_prefix), !is_prefix);
        keep = keep - 1;
    }
    let ghost x = texts(t@);
    let mut out: Vec<Vec<u8>> = Vec::new();
    let mut i: usize = 0;
    assert(texts(out@) =~= thinned(x.take(0), is_prefix));
    while i < t.len()
        invariant
            i <= t@.len(),
            x == texts(t@),
            texts(out@) == thinned(x.take(i as int), is_prefix),
        decreases t@.len() - i,
    {
        let ghost so_far = texts(out@);
        proof {
            assert(x.take(i + 1).drop_last() =~= x.take(i as int));
            assert(x.take(i + 1).last() == x[i as int]);
        }
        let n: usize = out.len();
        if n == 0 || !is_at_end(&out[n - 1], &t[i], is_prefix) {
            out.push(copy(&t[i]));
            assert(texts(out@) =~= so_far.push(x[i as int]));
        }
        i = i + 1;
    }
    assert(x.take(t@.len() as int) =~= x);
    out
}

impl Info {
    /// A copy.
    pub fn copy(&self) -> (r: Info)
        ensures
            r@ == self@,
    {
        let exact = match &self.exact {
            Some(e) => Some(copy_set(e)),
            None => None,
        };
        Info {
            can_empty: self.can_empty,
            exact,
            prefix: copy_set(&self.prefix),
            suffix: copy_set(&self.suffix),
            m: self.m.clone(),
        }
    }

    /// Fold the trigrams of the exact set into the query.
    pub fn add_exact(self) -> (r: Info)
        ensures
            r@ == self@.with_exact(),
    {
        let mut this = self;
        if let Some(e) = &this.exact {
            let t = set_trigrams(e);
            this.m = this.m.and(t);
        }
        this
    }

    /// Bring every set within bounds. With `force`, give up an exact set of
    /// more than one string.
    pub fn simplify(self, force: bool) -> (r: Info)
        ensures
            r@ == self@.simplified(force),
    {
        proof {
            reveal(Facts::simplified);
        }
        let too_big = match &self.exact {
            Some(e) => e.len() > MAX_SET || (force && e.len() > 1),
            None => false,
        };
        let mut this = self;
        if too_big {
            this = this.add_exact();
            if let Some(e) = &this.exact {
                this.prefix = union(&this.prefix, &shorten(e, 2, true), false);
                this.suffix = union(&this.suffix, &shorten(e, 2, false), true);
            }
            this.exact = None;
        }
        if this.exact.is_none() {
            this.simplify_set(true).simplify_set(false)
        } else {
            this
        }
    }

    /// Fold the set's trigrams into the query, then shrink the set to at most
    /// two-byte strings (fewer if it is still too large) and drop entries made
    /// redundant by a shorter prefix/suffix already present.
    pub fn simplify_set(self, is_prefix: bool) -> (r: Info)
        ensures
            r@ == self@.with_set(is_prefix),
    {
        proof {
            reveal(Facts::with_set);
        }
        let mut this = self;
        if is_prefix {
            let t = clean(&this.prefix, false);
            this.m = this.m.and(set_trigrams(&t));
            this.prefix = shrink(&t, true);
        } else {
            let t = clean(&this.suffix, true);
            this.m = this.m.and(set_trigrams(&t));
            this.suffix = shrink(&t, false);
        }
        this
    }
}

/// Nothing matches.
pub fn no_match() -> (r: Info)
    ensures
        r@ == facts_none(),
{
    let r = Info {
        can_empty: false,
        exact: None,
        prefix: Vec::new(),
        suffix: Vec::new(),
        m: Query::none(),
    };
    assert(r@.prefix =~= seq![]);
    assert(r@.suffix =~= seq![]);
    r
}

/// The given strings match.
pub fn exactly(set: Vec<Vec<u8>>, can_empty: bool) -> (r: Info)
    ensures
        r@ == facts_exact(texts(set@), can_empty),
{
    let r = Info {
        can_empty,
        exact: Some(set),
        prefix: Vec::new(),
        suffix: Vec::new(),
        m: Query::all(),
    };
    assert(r@.prefix =~= seq![]);
    assert(r@.suffix =~= seq![]);
    r
}

/// One string matches.
pub fn literal(bytes: Vec<u8>) -> (r: Info)
    ensures
        r@ == facts_exact(seq![bytes@], bytes@.len() == 0),
{
    let can_empty = bytes.len() == 0;
    let set = vec![bytes];
    assert(texts(set@) =~= seq![bytes@]);
    exactly(set, can_empty)
}

/// The empty string matches.
pub fn empty_string() -> (r: Info)
    ensures
        r@ == facts_empty(),
{
    let empty: Vec<u8> = Vec::new();
    assert(empty@ =~= seq![]);
    literal(empty)
}

fn unbounded(can_empty: bool) -> (r: Info)
    ensures
        r@ == facts_any(can_empty),
{
    let (e, f): (Vec<u8>, Vec<u8>) = (Vec::new(), Vec::new());
    let r = Info {
        can_empty,
        exact: None,
        prefix: vec![e],
        suffix: vec![f],
        m: Query::all(),
    };
    assert(e@ =~= seq![]);
    assert(f@ =~= seq![]);
    assert(r@.prefix =~= seq![seq![]]);
    assert(r@.suffix =~= seq![seq![]]);
    r
}

/// Any one character matches.
pub fn any_char() -> (r: Info)
    ensures
        r@ == facts_any(false),
{
    unbounded(false)
}

/// Anything matches.
pub fn any_match() -> (r: Info)
    ensures
        r@ == facts_any(true),
{
    unbounded(true)
}

/// A match of `x` followed by a match of `y`.
pub fn concat(x: Info, y: Info) -> (r: Info)
    ensures
        r@ == x@.then_match(y@),
{
    proof {
        reveal(Facts::then_match);
    }
    // If every string in x.suffix × y.prefix is at least three bytes, one of
    // those trigrams must appear, and it may not be captured by the prefix or
    // the suffix of the whole.
    let (a, b): (usize, usize) = (min_len(&x.suffix), min_len(&y.prefix));
    let straddled = x.exact.is_none() && y.exact.is_none() && x.suffix.len() <= MAX_SET
        && y.prefix.len() <= MAX_SET && (a >= 3 || b >= 3 || a + b >= 3);
    let between = if straddled {
        Some(set_trigrams(&cross(&x.suffix, &y.prefix, false)))
    } else {
        None
    };
    let mut xy = Info {
        can_empty: x.can_empty && y.can_empty,
        exact: None,
        prefix: Vec::new(),
        suffix: Vec::new(),
        m: Query::all(),
    };
    match (&x.exact, &y.exact) {
        (Some(xe), Some(ye)) => {
            xy.exact = Some(cross(xe, ye, false));
        },
        _ => {
            if let Some(xe) = &x.exact {
                xy.prefix = cross(xe, &y.prefix, false);
            } else if x.can_empty {
                xy.prefix = union(&x.prefix, &y.prefix, false);
            } else {
                xy.prefix = copy_set(&x.prefix);
            }
            if let Some(ye) = &y.exact {
                xy.suffix = cross(&x.suffix, ye, true);
            } else if y.can_empty {
                xy.suffix = union(&y.suffix, &x.suffix, true);
            } else {
                xy.suffix = copy_set(&y.suffix);
            }
        },
    }
    xy.m = x.m.and(y.m);
    if let Some(t) = between {
        xy.m = xy.m.and(t);
    }
    proof {
        if x.exact is Some && y.exact is Some {
            assert(xy@.prefix =~= seq![]);
            assert(xy@.suffix =~= seq![]);
        }
    }
    xy.simplify(false)
}

/// A match of `x` or a match of `y`.
pub fn alternate(x: Info, y: Info) -> (r: Info)
    ensures
        r@ == x@.or_match(y@),
{
    proof {
        reveal(Facts::or_match);
    }
    let mut xy = Info {
        can_empty: x.can_empty || y.can_empty,
        exact: None,
        prefix: Vec::new(),
        suffix: Vec::new(),
        m: Query::all(),
    };
    assert(xy@.prefix =~= seq![]);
    assert(xy@.suffix =~= seq![]);
    match (&x.exact, &y.exact) {
        (Some(xe), Some(ye)) => {
            xy.exact = Some(union(xe, ye, false));
            xy.m = x.m.or(y.m);
        },
        (Some(xe), None) => {
            xy.prefix = union(xe, &y.prefix, false);
            xy.suffix = union(xe, &y.suffix, true);
            xy.m = x.add_exact().m.or(y.m);
        },
        (None, Some(ye)) => {
            xy.prefix = union(&x.prefix, ye, false);
            xy.suffix = union(&x.suffix, ye, true);
            xy.m = x.m.or(y.add_exact().m);
        },
        (None, None) => {
            xy.prefix = union(&x.prefix, &y.prefix, false);
            xy.suffix = union(&x.suffix, &y.suffix, true);
            xy.m = x.m.or(y.m);
        },
    }
    xy.simplify(false)
}

/// At least one match of `x`, so prefixes and suffixes stay; exactness is
/// lost.
pub fn plus(x: Info) -> (r: Info)
    ensures
        r@ == x@.repeated(),
{
    match x.exact {
        Some(e) => {
            let suffix = clean(&e, true);
            Info { can_empty: x.can_empty, exact: None, prefix: e, suffix, m: x.m }
        },
        None => x,
    }
}

/// `k` matches of `x` in a row.
pub fn power(x: &Info, k: u32) -> (r: Info)
    ensures
        r@ == x@.power(k as nat),
{
    let mut r = x.copy();
    let mut i: u32 = 1;
    while i < k
        invariant
            1 <= i,
            i <= k || i == 1,
            r@ == x@.power(i as nat),
        decreases k - i,
    {
        r = concat(r, x.copy());
        i = i + 1;
    }
    assert(k == 0 ==> x@.power(1) == x@.power(0));
    r
}

} // verus!

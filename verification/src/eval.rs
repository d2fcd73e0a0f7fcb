//! Evaluation of queries against an index.

use vstd::prelude::*;
use vstd::relations::{sorted_by, total_ordering};
use vstd::seq_lib::{
    lemma_sorted_unique, to_multiset_build, to_multiset_contains, to_multiset_insert,
};

use crate::query::{Formula, Op, Query};
use crate::read::{count_of, lemma_list, list_of, sections, Index};
use crate::sets::{
    in_order, lemma_in_order_unique, lemma_merge, lemma_shared, merge, merge_sorted, shared,
};

verus! {

/// What two ascending lists share.
pub fn intersect(a: &[u32], b: &[u32]) -> (out: Vec<u32>)
    ensures
        out@ == shared(a@, b@),
        in_order(a@) && in_order(b@) ==> in_order(out@) && forall|x: u32|
            #[trigger] out@.contains(x) <==> a@.contains(x) && b@.contains(x),
{
    let mut out: Vec<u32> = Vec::new();
    let mut i: usize = 0;
    let mut j: usize = 0;
    proof {
        assert(a@.skip(0) =~= a@);
        assert(b@.skip(0) =~= b@);
        if in_order(a@) && in_order(b@) {
            lemma_shared(a@, b@);
        }
    }
    while i < a.len() && j < b.len()
        invariant
            i <= a@.len(),
            j <= b@.len(),
            out@ + shared(a@.skip(i as int), b@.skip(j as int)) =~= shared(a@, b@),
        decreases a@.len() - i + b@.len() - j,
    {
        proof {
            assert(a@.skip(i as int).skip(1) =~= a@.skip(i + 1));
            assert(b@.skip(j as int).skip(1) =~= b@.skip(j + 1));
        }
        if a[i] < b[j] {
            i = i + 1;
        } else if a[i] > b[j] {
            j = j + 1;
        } else {
            out.push(a[i]);
            i = i + 1;
            j = j + 1;
        }
    }
    out
}

/// What either of two ascending lists holds.
pub fn union(a: &[u32], b: &[u32]) -> (out: Vec<u32>)
    ensures
        out@ == merge(a@, b@),
        in_order(a@) && in_order(b@) ==> in_order(out@),
        forall|x: u32| #[trigger] out@.contains(x) <==> a@.contains(x) || b@.contains(x),
{
    proof {
        lemma_merge(a@, b@);
    }
    merge_sorted(a, b)
}

/// The ids of `n` files.
pub open spec fn all_ids(n: int) -> Seq<u32> {
    Seq::new(n as nat, |i: int| i as u32)
}

/// Whether trigram `x` comes no later than trigram `y` when those that fewer
/// files hold come first.
pub open spec fn no_later(b: Seq<u8>) -> spec_fn(u32, u32) -> bool {
    |x: u32, y: u32|
        count_of(b, x) < count_of(b, y) || count_of(b, x) == count_of(b, y) && x <= y
}

/// The files of all the lists, and of `start` where there is one.
pub open spec fn meet_lists(b: Seq<u8>, ts: Seq<u32>, start: Option<Seq<u32>>) -> Option<Seq<u32>>
    decreases ts.len(),
{
    if ts.len() == 0 {
        start
    } else {
        Some(
            match meet_lists(b, ts.drop_last(), start) {
                None => list_of(b, ts.last()),
                Some(l) => shared(l, list_of(b, ts.last())),
            },
        )
    }
}

/// The files of `p` that are in `restrict`, where there is one.
pub open spec fn limited(p: Seq<u32>, restrict: Option<Seq<u32>>) -> Seq<u32> {
    match restrict {
        Some(r) => shared(r, p),
        None => p,
    }
}

/// The files of any of the lists, within `restrict`.
pub open spec fn join_lists(b: Seq<u8>, ts: Seq<u32>, restrict: Option<Seq<u32>>) -> Seq<u32>
    decreases ts.len(),
{
    if ts.len() == 0 {
        seq![]
    } else {
        merge(join_lists(b, ts.drop_last(), restrict), limited(list_of(b, ts.last()), restrict))
    }
}

/// The candidates for a query among the files of `restrict`, or among all.
pub open spec fn candidates(b: Seq<u8>, q: Formula, restrict: Option<Seq<u32>>) -> Seq<u32>
    decreases q,
{
    match q.op {
        Op::Nothing => seq![],
        Op::All => match restrict {
            Some(r) => r,
            None => all_ids(sections(b).nfiles),
        },
        Op::And => match meet_subs(
            b,
            q.subs,
            q.subs.len(),
            meet_lists(b, q.trigrams.sort_by(no_later(b)), restrict),
        ) {
            Some(l) => l,
            None => all_ids(sections(b).nfiles),
        },
        Op::Or => join_subs(
            b,
            q.subs,
            q.subs.len(),
            restrict,
            join_lists(b, q.trigrams, restrict),
        ),
    }
}

/// The candidates for all of the first `n` queries, each among those of the
/// one before, starting with `start`.
pub open spec fn meet_subs(
    b: Seq<u8>,
    subs: Seq<Formula>,
    n: nat,
    start: Option<Seq<u32>>,
) -> Option<Seq<u32>>
    decreases subs, n,
{
    if n == 0 || n > subs.len() {
        start
    } else {
        Some(candidates(b, subs[n - 1], meet_subs(b, subs, (n - 1) as nat, start)))
    }
}

/// The candidates for any of the first `n` queries, and those of `start`.
pub open spec fn join_subs(
    b: Seq<u8>,
    subs: Seq<Formula>,
    n: nat,
    restrict: Option<Seq<u32>>,
    start: Seq<u32>,
) -> Seq<u32>
    decreases subs, n,
{
    if n == 0 || n > subs.len() {
        start
    } else {
        merge(
            join_subs(b, subs, (n - 1) as nat, restrict, start),
            candidates(b, subs[n - 1], restrict),
        )
    }
}

/// Among no files there is no candidate.
proof fn lemma_none_left(b: Seq<u8>, q: Formula)
    ensures
        candidates(b, q, Some(seq![])) == Seq::<u32>::empty(),
    decreases q,
{
    let none = Some(Seq::<u32>::empty());
    if q.op == Op::And {
        let ts = q.trigrams.sort_by(no_later(b));
        lemma_meet_lists_none(b, ts);
        lemma_meet_subs_none(b, q.subs, q.subs.len());
    } else if q.op == Op::Or {
        lemma_join_lists_none(b, q.trigrams);
        lemma_join_subs_none(b, q.subs, q.subs.len());
    }
}

proof fn lemma_meet_lists_none(b: Seq<u8>, ts: Seq<u32>)
    ensures
        meet_lists(b, ts, Some(seq![])) == Some(Seq::<u32>::empty()),
    decreases ts.len(),
{
    if ts.len() > 0 {
        lemma_meet_lists_none(b, ts.drop_last());
    }
}

proof fn lemma_join_lists_none(b: Seq<u8>, ts: Seq<u32>)
    ensures
        join_lists(b, ts, Some(seq![])) == Seq::<u32>::empty(),
    decreases ts.len(),
{
    if ts.len() > 0 {
        lemma_join_lists_none(b, ts.drop_last());
    }
}

proof fn lemma_meet_subs_none(b: Seq<u8>, subs: Seq<Formula>, n: nat)
    requires
        n <= subs.len(),
    ensures
        meet_subs(b, subs, n, Some(seq![])) == Some(Seq::<u32>::empty()),
    decreases subs, n,
{
    if n > 0 {
        lemma_meet_subs_none(b, subs, (n - 1) as nat);
        lemma_none_left(b, subs[n - 1]);
    }
}

proof fn lemma_join_subs_none(b: Seq<u8>, subs: Seq<Formula>, n: nat)
    requires
        n <= subs.len(),
    ensures
        join_subs(b, subs, n, Some(seq![]), seq![]) == Seq::<u32>::empty(),
    decreases subs, n,
{
    if n > 0 {
        lemma_join_subs_none(b, subs, (n - 1) as nat);
        lemma_none_left(b, subs[n - 1]);
    }
}

proof fn lemma_no_later(b: Seq<u8>)
    ensures
        total_ordering(no_later(b)),
{
}

/// Once no file is left, none comes back.
proof fn lemma_meet_lists_stays(b: Seq<u8>, ts: Seq<u32>, i: int, start: Option<Seq<u32>>)
    requires
        0 <= i <= ts.len(),
        meet_lists(b, ts.take(i), start) == Some(Seq::<u32>::empty()),
    ensures
        meet_lists(b, ts, start) == Some(Seq::<u32>::empty()),
    decreases ts.len() - i,
{
    if i < ts.len() {
        assert(ts.take(i + 1).drop_last() =~= ts.take(i));
        lemma_meet_lists_stays(b, ts, i + 1, start);
    } else {
        assert(ts.take(i) =~= ts);
    }
}

/// Once no file is left, none comes back.
proof fn lemma_meet_subs_stays(
    b: Seq<u8>,
    subs: Seq<Formula>,
    i: nat,
    n: nat,
    start: Option<Seq<u32>>,
)
    requires
        i <= n <= subs.len(),
        meet_subs(b, subs, i, start) == Some(Seq::<u32>::empty()),
    ensures
        meet_subs(b, subs, n, start) == Some(Seq::<u32>::empty()),
    decreases n - i,
{
    if i < n {
        lemma_meet_subs_stays(b, subs, i, (n - 1) as nat, start);
        lemma_none_left(b, subs[n - 1]);
    }
}

/// Whether a list, where there is one, is the given one.
spec fn same_list(v: Option<Vec<u32>>, s: Option<Seq<u32>>) -> bool {
    match v {
        Some(l) => s == Some(l@),
        None => s is None,
    }
}

/// A copy of a list.
fn copy_ids(s: &[u32]) -> (r: Vec<u32>)
    ensures
        r@ == s@,
{
    let mut r: Vec<u32> = Vec::new();
    r.extend_from_slice(s);
    assert(r@ =~= s@);
    r
}

impl<'a> Index<'a> {
    /// Evaluate a query, returning the sorted set of candidate file ids: the
    /// files whose listed trigrams satisfy it.
    pub fn posting_query(&self, q: &Query) -> (r: Vec<u32>)
        requires
            self.wf(),
        ensures
            r@ == candidates(self.bytes(), q@, None),
            in_order(r@),
            forall|id: u32| #[trigger]
                r@.contains(id) <==> id < sections(self.bytes()).nfiles && q@.sat(
                    listed_for(self.bytes(), id),
                ),
    {
        proof {
            law_candidates(self.bytes(), q@, None);
        }
        self.eval(q, None)
    }

    /// The ids of all files.
    fn every_id(&self) -> (r: Vec<u32>)
        requires
            self.wf(),
        ensures
            r@ == all_ids(sections(self.bytes()).nfiles),
    {
        let n: u32 = self.num_files();
        let mut out: Vec<u32> = Vec::new();
        let mut i: u32 = 0;
        while i < n
            invariant
                i <= n,
                out@ =~= all_ids(i as int),
            decreases n - i,
        {
            out.push(i);
            i = i + 1;
        }
        out
    }

    /// The trigrams, those that fewest files hold first.
    fn rarest_first(&self, ts: &[u32]) -> (r: Vec<u32>)
        requires
            self.wf(),
        ensures
            r@ == ts@.sort_by(no_later(self.bytes())),
    {
        let ghost b = self.bytes();
        let ghost leq = no_later(b);
        let mut out: Vec<u32> = Vec::new();
        let mut counts: Vec<u32> = Vec::new();
        let mut i: usize = 0;
        proof {
            lemma_no_later(b);
            assert(ts@.take(0) =~= out@);
        }
        while i < ts.len()
            invariant
                i <= ts@.len(),
                self.wf(),
                b == self.bytes(),
                leq == no_later(b),
                total_ordering(leq),
                out@.len() == counts@.len(),
                forall|k: int| 0 <= k < out@.len() ==> counts@[k] == count_of(b, #[trigger] out@[k]),
                sorted_by(out@, leq),
                out@.to_multiset() == ts@.take(i as int).to_multiset(),
            decreases ts@.len() - i,
        {
            let t: u32 = ts[i];
            let c: u32 = self.posting_count(t);
            let mut p: usize = out.len();
            while p > 0 && (c < counts[p - 1] || c == counts[p - 1] && t < out[p - 1])
                invariant
                    p <= out@.len(),
                    out@.len() == counts@.len(),
                    c == count_of(b, t),
                    leq == no_later(b),
                    forall|k: int|
                        0 <= k < out@.len() ==> counts@[k] == count_of(b, #[trigger] out@[k]),
                    forall|k: int| p <= k < out@.len() ==> leq(t, #[trigger] out@[k]),
                decreases p,
            {
                p = p - 1;
            }
            let ghost before = out@;
            out.insert(p, t);
            counts.insert(p, c);
            proof {
                assert(out@ == before.insert(p as int, t));
                to_multiset_insert(before, p as int, t);
                to_multiset_build(ts@.take(i as int), t);
                assert(ts@.take(i + 1) =~= ts@.take(i as int).push(t));
                if p > 0 {
                    assert(leq(before[p - 1], t));
                }
                assert forall|x: int, y: int| 0 <= x < y < out@.len() implies #[trigger] leq(
                    out@[x],
                    out@[y],
                ) by {
                    let bx = if x < p { x } else { x - 1 };
                    let cy = if y < p { y } else { y - 1 };
                    if x != p && y != p {
                        assert(leq(before[bx], before[cy]));
                    } else if y == p {
                        assert(x < p);
                        if x < p - 1 {
                            assert(leq(before[x], before[p - 1]));
                        }
                    }
                }
                assert forall|k: int| 0 <= k < out@.len() implies counts@[k] == count_of(
                    b,
                    #[trigger] out@[k],
                ) by {
                    if k > p {
                        assert(counts@[k] == count_of(b, before[k - 1]));
                    } else if k < p {
                        assert(counts@[k] == count_of(b, before[k]));
                    }
                }
            }
            i = i + 1;
        }
        proof {
            assert(ts@.take(i as int) =~= ts@);
            ts@.lemma_sort_by_ensures(leq);
            lemma_sorted_unique(out@, ts@.sort_by(leq), leq);
        }
        out
    }

    /// The candidates for a query among the files of `restrict`, or among all.
    pub fn eval(&self, q: &Query, restrict: Option<&[u32]>) -> (r: Vec<u32>)
        requires
            self.wf(),
        ensures
            r@ == candidates(
                self.bytes(),
                q@,
                match restrict {
                    Some(s) => Some(s@),
                    None => None,
                },
            ),
        decreases q,
    {
        let ghost b = self.bytes();
        let ghost limit = match restrict {
            Some(s) => Some(s@),
            None => None,
        };
        match q.op {
            Op::Nothing => Vec::new(),
            Op::All => match restrict {
                Some(s) => copy_ids(s),
                None => self.every_id(),
            },
            Op::And => {
                let mut list: Option<Vec<u32>> = match restrict {
                    Some(s) => Some(copy_ids(s)),
                    None => None,
                };
                // Rarest trigrams first so the candidate set shrinks fastest.
                let ts = self.rarest_first(&q.trigrams);
                let ghost met = meet_lists(b, ts@, limit);
                let ghost subs = q@.subs;
                let mut i: usize = 0;
                assert(ts@.take(0) =~= seq![]);
                while i < ts.len()
                    invariant
                        i <= ts@.len(),
                        self.wf(),
                        b == self.bytes(),
                        q.op == Op::And,
                        ts@ == q@.trigrams.sort_by(no_later(b)),
                        met == meet_lists(b, ts@, limit),
                        subs == q@.subs,
                        limit == (match restrict {
                            Some(s) => Some(s@),
                            None => None,
                        }),
                        same_list(list, meet_lists(b, ts@.take(i as int), limit)),
                    decreases ts@.len() - i,
                {
                    let p = self.posting_list(ts[i]);
                    proof {
                        assert(ts@.take(i + 1).drop_last() =~= ts@.take(i as int));
                    }
                    let next = match list {
                        None => p,
                        Some(l) => intersect(&l, &p),
                    };
                    if next.len() == 0 {
                        proof {
                            assert(next@ =~= seq![]);
                            lemma_meet_lists_stays(b, ts@, i + 1, limit);
                            lemma_meet_subs_none(b, subs, subs.len());
                        }
                        return next;
                    }
                    list = Some(next);
                    i = i + 1;
                }
                assert(ts@.take(i as int) =~= ts@);
                let mut i: usize = 0;
                while i < q.subs.len()
                    invariant
                        i <= q.subs@.len(),
                        self.wf(),
                        b == self.bytes(),
                        q.op == Op::And,
                        subs == q@.subs,
                        met == meet_lists(b, q@.trigrams.sort_by(no_later(b)), limit),
                        limit == (match restrict {
                            Some(s) => Some(s@),
                            None => None,
                        }),
                        same_list(list, meet_subs(b, subs, i as nat, met)),
                    decreases q.subs@.len() - i,
                {
                    let r = match &list {
                        Some(l) => self.eval(&q.subs[i], Some(l.as_slice())),
                        None => self.eval(&q.subs[i], None),
                    };
                    if r.len() == 0 {
                        proof {
                            assert(r@ =~= seq![]);
                            lemma_meet_subs_stays(b, subs, (i + 1) as nat, subs.len(), met);
                        }
                        return r;
                    }
                    list = Some(r);
                    i = i + 1;
                }
                match list {
                    Some(l) => l,
                    None => self.every_id(),
                }
            },
            Op::Or => {
                let mut list: Vec<u32> = Vec::new();
                let ghost ts = q@.trigrams;
                let ghost subs = q@.subs;
                let mut i: usize = 0;
                assert(ts.take(0) =~= seq![]);
                assert(list@ =~= seq![]);
                while i < q.trigrams.len()
                    invariant
                        i <= q.trigrams@.len(),
                        self.wf(),
                        b == self.bytes(),
                        ts == q.trigrams@,
                        limit == (match restrict {
                            Some(s) => Some(s@),
                            None => None,
                        }),
                        list@ == join_lists(b, ts.take(i as int), limit),
                    decreases q.trigrams@.len() - i,
                {
                    proof {
                        assert(ts.take(i + 1).drop_last() =~= ts.take(i as int));
                    }
                    let p = self.posting_list(q.trigrams[i]);
                    let p = match restrict {
                        Some(s) => intersect(s, &p),
                        None => p,
                    };
                    list = union(&list, &p);
                    i = i + 1;
                }
                assert(ts.take(i as int) =~= ts);
                let ghost start = list@;
                let mut i: usize = 0;
                while i < q.subs.len()
                    invariant
                        i <= q.subs@.len(),
                        self.wf(),
                        b == self.bytes(),
                        subs == q@.subs,
                        limit == (match restrict {
                            Some(s) => Some(s@),
                            None => None,
                        }),
                        list@ == join_subs(b, subs, i as nat, limit, start),
                    decreases q.subs@.len() - i,
                {
                    let r = self.eval(&q.subs[i], restrict);
                    list = union(&list, &r);
                    i = i + 1;
                }
                list
            },
        }
    }
}

/// The trigrams that the index lists file `id` for.
pub open spec fn listed_for(b: Seq<u8>, id: u32) -> Set<u32> {
    Set::new(|t: u32| list_of(b, t).contains(id))
}

/// Whether file `id` is among the files of `restrict`, or among all.
pub open spec fn eligible(b: Seq<u8>, restrict: Option<Seq<u32>>, id: u32) -> bool {
    match restrict {
        Some(r) => r.contains(id),
        None => id < sections(b).nfiles,
    }
}

/// Whether `restrict`, where there is one, is an ascending list of files.
pub open spec fn valid_restriction(b: Seq<u8>, restrict: Option<Seq<u32>>) -> bool {
    match restrict {
        Some(r) => in_order(r) && forall|id: u32| #[trigger] r.contains(id) ==> id < sections(b).nfiles,
        None => true,
    }
}

proof fn lemma_all_ids(n: int)
    requires
        0 <= n <= u32::MAX,
    ensures
        in_order(all_ids(n)),
        forall|id: u32| #[trigger] all_ids(n).contains(id) <==> id < n,
{
    assert forall|id: u32| #[trigger] all_ids(n).contains(id) <==> id < n by {
        if id < n {
            assert(all_ids(n)[id as int] == id);
        }
    }
}

proof fn lemma_meet_lists(b: Seq<u8>, ts: Seq<u32>, start: Option<Seq<u32>>)
    requires
        valid_restriction(b, start),
    ensures
        valid_restriction(b, meet_lists(b, ts, start)),
        forall|id: u32| #[trigger]
            eligible(b, meet_lists(b, ts, start), id) <==> eligible(b, start, id) && forall|t: u32| #[trigger]
                ts.contains(t) ==> list_of(b, t).contains(id),
    decreases ts.len(),
{
    let m = meet_lists(b, ts, start);
    if ts.len() > 0 {
        let (front, last) = (ts.drop_last(), ts.last());
        lemma_meet_lists(b, front, start);
        lemma_list(b, last);
        let l = list_of(b, last);
        assert(in_order(l));
        let before = meet_lists(b, front, start);
        if let Some(x) = before {
            lemma_shared(x, l);
        }
        assert forall|id: u32| #[trigger] eligible(b, m, id) <==> eligible(b, before, id)
            && l.contains(id) by {
            assert(l.contains(id) ==> id < sections(b).nfiles);
            if let Some(x) = before {
                assert(shared(x, l).contains(id) <==> x.contains(id) && l.contains(id));
            }
        }
        if let Some(x) = m {
            assert forall|id: u32| #[trigger] x.contains(id) implies id < sections(b).nfiles by {
                assert(eligible(b, m, id));
            }
        }
        assert forall|id: u32| #[trigger] eligible(b, m, id) <==> eligible(b, start, id)
            && forall|t: u32| #[trigger] ts.contains(t) ==> list_of(b, t).contains(id) by {
            assert(eligible(b, before, id) <==> eligible(b, start, id) && forall|t: u32| #[trigger]
                front.contains(t) ==> list_of(b, t).contains(id));
            assert forall|t: u32| #[trigger] ts.contains(t) <==> front.contains(t) || t == last by {
                assert(ts =~= front.push(last));
                if front.contains(t) {
                    let k = choose|k: int| 0 <= k < front.len() && front[k] == t;
                    assert(ts[k] == t);
                }
                if ts.contains(t) && t != last {
                    let k = choose|k: int| 0 <= k < ts.len() && ts[k] == t;
                    assert(front[k] == t);
                }
                assert(ts[ts.len() - 1] == last);
            }
            if forall|t: u32| #[trigger] ts.contains(t) ==> list_of(b, t).contains(id) {
                assert(ts.contains(last));
                assert forall|t: u32| #[trigger] front.contains(t) implies list_of(b, t).contains(
                    id,
                ) by {
                    assert(ts.contains(t));
                }
            }
        }
    }
}

proof fn lemma_join_lists(b: Seq<u8>, ts: Seq<u32>, restrict: Option<Seq<u32>>)
    requires
        valid_restriction(b, restrict),
    ensures
        in_order(join_lists(b, ts, restrict)),
        forall|id: u32| #[trigger]
            join_lists(b, ts, restrict).contains(id) <==> eligible(b, restrict, id)
                && exists|t: u32| #[trigger] ts.contains(t) && list_of(b, t).contains(id),
    decreases ts.len(),
{
    let j = join_lists(b, ts, restrict);
    if ts.len() > 0 {
        let (front, last) = (ts.drop_last(), ts.last());
        lemma_join_lists(b, front, restrict);
        lemma_list(b, last);
        let l = list_of(b, last);
        assert(in_order(l));
        if let Some(r) = restrict {
            lemma_shared(r, l);
        }
        let p = limited(l, restrict);
        let before = join_lists(b, front, restrict);
        lemma_merge(before, p);
        assert forall|id: u32| #[trigger] j.contains(id) <==> eligible(b, restrict, id)
            && exists|t: u32| #[trigger] ts.contains(t) && list_of(b, t).contains(id) by {
            assert(p.contains(id) <==> eligible(b, restrict, id) && l.contains(id));
            assert(j.contains(id) <==> before.contains(id) || p.contains(id));
            if before.contains(id) {
                let t = choose|t: u32| #[trigger] front.contains(t) && list_of(b, t).contains(id);
                let k = choose|k: int| 0 <= k < front.len() && front[k] == t;
                assert(ts[k] == t);
                assert(ts.contains(t));
            }
            assert(ts[ts.len() - 1] == last);
            assert(ts.contains(last));
            if eligible(b, restrict, id) && exists|t: u32| #[trigger] ts.contains(t) && list_of(
                b,
                t,
            ).contains(id) {
                let t = choose|t: u32| #[trigger] ts.contains(t) && list_of(b, t).contains(id);
                let k = choose|k: int| 0 <= k < ts.len() && ts[k] == t;
                if k < ts.len() - 1 {
                    assert(front[k] == t);
                    assert(front.contains(t));
                    assert(before.contains(id));
                }
            }
        }
    } else {
        assert forall|id: u32| !(#[trigger] j.contains(id)) by {}
    }
}

/// The candidates for a query are the files whose listed trigrams satisfy it,
/// in ascending order, each once: among those of an ascending list, or among
/// all.
pub proof fn law_candidates(b: Seq<u8>, q: Formula, restrict: Option<Seq<u32>>)
    requires
        valid_restriction(b, restrict),
    ensures
        in_order(candidates(b, q, restrict)),
        forall|id: u32| #[trigger]
            candidates(b, q, restrict).contains(id) <==> eligible(b, restrict, id) && q.sat(
                listed_for(b, id),
            ),
    decreases q,
{
    let c = candidates(b, q, restrict);
    lemma_all_ids(sections(b).nfiles);
    match q.op {
        Op::Nothing => {
            assert forall|id: u32| !(#[trigger] c.contains(id)) by {}
        },
        Op::All => {},
        Op::And => {
            let ts = q.trigrams.sort_by(no_later(b));
            lemma_no_later(b);
            q.trigrams.lemma_sort_by_ensures(no_later(b));
            lemma_meet_lists(b, ts, restrict);
            let met = meet_lists(b, ts, restrict);
            lemma_meet_subs(b, q.subs, q.subs.len(), met);
            let all = meet_subs(b, q.subs, q.subs.len(), met);
            assert forall|t: u32| #[trigger] ts.contains(t) <==> q.trigrams.contains(t) by {
                to_multiset_contains(ts, t);
                to_multiset_contains(q.trigrams, t);
            }
            assert forall|id: u32| #[trigger] c.contains(id) <==> eligible(b, restrict, id)
                && q.sat(listed_for(b, id)) by {
                let has = listed_for(b, id);
                assert(c.contains(id) <==> eligible(b, all, id));
                assert(eligible(b, met, id) <==> eligible(b, restrict, id) && forall|t: u32| #[trigger]
                    ts.contains(t) ==> list_of(b, t).contains(id));
                if eligible(b, met, id) {
                    assert forall|t: u32| #[trigger] q.trigrams.contains(t) implies has.contains(
                        t,
                    ) by {
                        assert(ts.contains(t));
                    }
                }
                if q.sat(has) {
                    assert forall|t: u32| #[trigger] ts.contains(t) implies list_of(b, t).contains(
                        id,
                    ) by {
                        assert(q.trigrams.contains(t));
                        assert(has.contains(t));
                    }
                }
            }
        },
        Op::Or => {
            lemma_join_lists(b, q.trigrams, restrict);
            let start = join_lists(b, q.trigrams, restrict);
            lemma_join_subs(b, q.subs, q.subs.len(), restrict, start);
            assert forall|id: u32| #[trigger] c.contains(id) <==> eligible(b, restrict, id)
                && q.sat(listed_for(b, id)) by {
                let has = listed_for(b, id);
                if start.contains(id) {
                    let t = choose|t: u32| #[trigger]
                        q.trigrams.contains(t) && list_of(b, t).contains(id);
                    assert(has.contains(t));
                }
                if q.sat(has) {
                    if exists|t: u32| #[trigger] q.trigrams.contains(t) && has.contains(t) {
                        let t = choose|t: u32| #[trigger] q.trigrams.contains(t) && has.contains(t);
                        assert(list_of(b, t).contains(id));
                    }
                }
            }
        },
    }
}

/// The candidates among the files of a list are those of the list that are
/// candidates among all files.
pub proof fn law_restriction(b: Seq<u8>, q: Formula, r: Seq<u32>)
    requires
        valid_restriction(b, Some(r)),
    ensures
        candidates(b, q, Some(r)) == shared(r, candidates(b, q, None)),
{
    law_candidates(b, q, Some(r));
    law_candidates(b, q, None);
    let (some, all) = (candidates(b, q, Some(r)), candidates(b, q, None));
    lemma_shared(r, all);
    assert forall|id: u32| #[trigger] some.contains(id) <==> shared(r, all).contains(id) by {
        assert(some.contains(id) <==> r.contains(id) && q.sat(listed_for(b, id)));
        assert(all.contains(id) <==> id < sections(b).nfiles && q.sat(listed_for(b, id)));
    }
    lemma_in_order_unique(some, shared(r, all));
}

proof fn lemma_meet_subs(b: Seq<u8>, subs: Seq<Formula>, n: nat, start: Option<Seq<u32>>)
    requires
        n <= subs.len(),
        valid_restriction(b, start),
    ensures
        valid_restriction(b, meet_subs(b, subs, n, start)),
        forall|id: u32| #[trigger]
            eligible(b, meet_subs(b, subs, n, start), id) <==> eligible(b, start, id) && forall|k: int|
                0 <= k < n ==> (#[trigger] subs[k]).sat(listed_for(b, id)),
    decreases subs, n,
{
    if n > 0 {
        lemma_meet_subs(b, subs, (n - 1) as nat, start);
        let before = meet_subs(b, subs, (n - 1) as nat, start);
        law_candidates(b, subs[n - 1], before);
        let after = meet_subs(b, subs, n, start);
        assert forall|id: u32| #[trigger] eligible(b, after, id) <==> eligible(b, start, id)
            && forall|k: int| 0 <= k < n ==> (#[trigger] subs[k]).sat(listed_for(b, id)) by {
            assert(eligible(b, after, id) <==> eligible(b, before, id) && subs[n - 1].sat(
                listed_for(b, id),
            ));
            assert(eligible(b, before, id) <==> eligible(b, start, id) && forall|k: int|
                0 <= k < n - 1 ==> (#[trigger] subs[k]).sat(listed_for(b, id)));
        }
        let l = after.unwrap();
        assert forall|id: u32| #[trigger] l.contains(id) implies id < sections(b).nfiles by {
            assert(eligible(b, after, id));
            assert(eligible(b, before, id));
        }
    }
}

proof fn lemma_join_subs(
    b: Seq<u8>,
    subs: Seq<Formula>,
    n: nat,
    restrict: Option<Seq<u32>>,
    start: Seq<u32>,
)
    requires
        n <= subs.len(),
        valid_restriction(b, restrict),
        in_order(start),
    ensures
        in_order(join_subs(b, subs, n, restrict, start)),
        forall|id: u32| #[trigger]
            join_subs(b, subs, n, restrict, start).contains(id) <==> start.contains(id) || (eligible(
                b,
                restrict,
                id,
            ) && exists|k: int| 0 <= k < n && (#[trigger] subs[k]).sat(listed_for(b, id))),
    decreases subs, n,
{
    if n > 0 {
        lemma_join_subs(b, subs, (n - 1) as nat, restrict, start);
        law_candidates(b, subs[n - 1], restrict);
        let before = join_subs(b, subs, (n - 1) as nat, restrict, start);
        let last = candidates(b, subs[n - 1], restrict);
        lemma_merge(before, last);
        let after = join_subs(b, subs, n, restrict, start);
        assert forall|id: u32| #[trigger] after.contains(id) <==> start.contains(id) || (eligible(
            b,
            restrict,
            id,
        ) && exists|k: int| 0 <= k < n && (#[trigger] subs[k]).sat(listed_for(b, id))) by {
            assert(after.contains(id) <==> before.contains(id) || last.contains(id));
            assert(last.contains(id) <==> eligible(b, restrict, id) && subs[n - 1].sat(
                listed_for(b, id),
            ));
        }
    }
}

} // verus!

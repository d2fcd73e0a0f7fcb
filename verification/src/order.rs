//! The order of paths.

use vstd::prelude::*;

use crate::strset::{
    before, is_before, law_dictionary_order, lemma_before_order, parts_at, texts,
};

verus! {

/// Whether path `a` comes strictly before path `b`, component by component,
/// each compared byte by byte.
pub open spec fn path_before(a: Seq<Seq<u8>>, b: Seq<Seq<u8>>) -> bool
    decreases a.len(),
{
    if b.len() == 0 {
        false
    } else if a.len() == 0 {
        true
    } else if a[0] != b[0] {
        before(a[0], b[0], false)
    } else {
        path_before(a.skip(1), b.skip(1))
    }
}

/// The paths of a list, each as its components.
pub open spec fn path_texts(paths: Seq<Vec<Vec<u8>>>) -> Seq<Seq<Seq<u8>>> {
    Seq::new(paths.len(), |i: int| texts(paths[i]@))
}

/// Whether path number `a` comes before path number `b`; of equal paths the
/// one with the lower number does.
pub open spec fn precedes(paths: Seq<Seq<Seq<u8>>>, a: usize, b: usize) -> bool {
    ||| path_before(paths[a as int], paths[b as int])
    ||| paths[a as int] == paths[b as int] && a < b
}

/// Whether the numbers are in path order.
pub open spec fn in_path_order(paths: Seq<Seq<Seq<u8>>>, order: Seq<usize>) -> bool {
    forall|i: int, j: int|
        0 <= i < j < order.len() ==> precedes(paths, #[trigger] order[i], #[trigger] order[j])
}

/// Whether `order` holds the number of every path exactly once, in path order.
pub open spec fn is_path_order(paths: Seq<Seq<Seq<u8>>>, order: Seq<usize>) -> bool {
    &&& order.len() == paths.len()
    &&& order.no_duplicates()
    &&& forall|k: usize| #[trigger] order.contains(k) <==> k < paths.len()
    &&& in_path_order(paths, order)
}

proof fn lemma_path_before(a: Seq<Seq<u8>>, b: Seq<Seq<u8>>, c: Seq<Seq<u8>>)
    ensures
        !path_before(a, a),
        path_before(a, b) && path_before(b, c) ==> path_before(a, c),
        path_before(a, b) || path_before(b, a) || a == b,
    decreases a.len(),
{
    if a.len() > 0 && b.len() > 0 {
        lemma_path_before(a.skip(1), b.skip(1), c.skip(1));
        lemma_before_order(a[0], b[0], if c.len() > 0 { c[0] } else { a[0] }, false);
        if a[0] == b[0] && a.skip(1) == b.skip(1) {
            assert(a =~= seq![a[0]] + a.skip(1));
            assert(b =~= seq![b[0]] + b.skip(1));
        }
        if c.len() > 0 {
            lemma_before_order(b[0], a[0], b[0], false);
        }
    } else if a.len() > 0 {
        lemma_path_before(a.skip(1), a.skip(1), a.skip(1));
    } else if b.len() == 0 {
        assert(a =~= b);
    }
}

proof fn lemma_precedes(paths: Seq<Seq<Seq<u8>>>, a: usize, b: usize, c: usize)
    ensures
        !precedes(paths, a, a),
        precedes(paths, a, b) ==> !precedes(paths, b, a),
        precedes(paths, a, b) && precedes(paths, b, c) ==> precedes(paths, a, c),
        precedes(paths, a, b) || precedes(paths, b, a) || a == b,
{
    let (x, y, z) = (paths[a as int], paths[b as int], paths[c as int]);
    lemma_path_before(x, y, z);
    lemma_path_before(x, y, x);
}

/// Whether path `a` comes strictly before path `b`.
fn is_path_before(a: &Vec<Vec<u8>>, b: &Vec<Vec<u8>>) -> (r: bool)
    ensures
        r == path_before(texts(a@), texts(b@)),
{
    let ghost (x, y) = (texts(a@), texts(b@));
    let mut i: usize = 0;
    proof {
        assert(x.skip(0) =~= x);
        assert(y.skip(0) =~= y);
    }
    while i < a.len() && i < b.len()
        invariant
            i <= a@.len(),
            i <= b@.len(),
            x == texts(a@),
            y == texts(b@),
            path_before(x, y) == path_before(x.skip(i as int), y.skip(i as int)),
        decreases a@.len() - i,
    {
        proof {
            let (p, q) = (a@[i as int]@, b@[i as int]@);
            assert(x.skip(i as int)[0] == p);
            assert(y.skip(i as int)[0] == q);
            assert(x.skip(i as int).skip(1) =~= x.skip(i + 1));
            assert(y.skip(i as int).skip(1) =~= y.skip(i + 1));
            lemma_before_order(p, q, p, false);
        }
        if is_before(&a[i], &b[i], false) {
            return true;
        }
        if is_before(&b[i], &a[i], false) {
            return false;
        }
        i = i + 1;
    }
    i < b.len()
}

/// Whether path number `a` comes before path number `b`.
fn comes_first(paths: &[Vec<Vec<u8>>], a: usize, b: usize) -> (r: bool)
    requires
        a < paths@.len(),
        b < paths@.len(),
    ensures
        r == precedes(path_texts(paths@), a, b),
{
    proof {
        lemma_path_before(texts(paths@[a as int]@), texts(paths@[b as int]@), seq![]);
    }
    is_path_before(&paths[a], &paths[b]) || (a < b && !is_path_before(&paths[b], &paths[a]))
}

proof fn lemma_take_contains(s: Seq<usize>, i: int, x: usize)
    requires
        0 <= i < s.len(),
    ensures
        s.take(i + 1).contains(x) <==> s.take(i).contains(x) || s[i] == x,
{
    let (a, b) = (s.take(i), s.take(i + 1));
    assert(b[i] == s[i]);
    if a.contains(x) {
        let k = choose|k: int| 0 <= k < a.len() && a[k] == x;
        assert(b[k] == x);
    }
    if b.contains(x) && s[i] != x {
        let k = choose|k: int| 0 <= k < b.len() && b[k] == x;
        assert(a[k] == x);
    }
}

/// Merge two lists of numbers that are in path order.
fn merge_numbers(paths: &[Vec<Vec<u8>>], a: &[usize], b: &[usize]) -> (out: Vec<usize>)
    requires
        forall|i: int| 0 <= i < a@.len() ==> a@[i] < paths@.len(),
        forall|i: int| 0 <= i < b@.len() ==> b@[i] < paths@.len(),
        forall|i: int, j: int| 0 <= i < a@.len() && 0 <= j < b@.len() ==> a@[i] != b@[j],
        in_path_order(path_texts(paths@), a@),
        in_path_order(path_texts(paths@), b@),
    ensures
        in_path_order(path_texts(paths@), out@),
        out@.len() == a@.len() + b@.len(),
        forall|x: usize| #[trigger] out@.contains(x) <==> a@.contains(x) || b@.contains(x),
{
    let ghost ps = path_texts(paths@);
    let mut out: Vec<usize> = Vec::new();
    let mut i: usize = 0;
    let mut j: usize = 0;
    while i < a.len() || j < b.len()
        invariant
            i <= a@.len(),
            j <= b@.len(),
            ps == path_texts(paths@),
            forall|k: int| 0 <= k < a@.len() ==> a@[k] < paths@.len(),
            forall|k: int| 0 <= k < b@.len() ==> b@[k] < paths@.len(),
            forall|k: int, l: int| 0 <= k < a@.len() && 0 <= l < b@.len() ==> a@[k] != b@[l],
            in_path_order(ps, a@),
            in_path_order(ps, b@),
            in_path_order(ps, out@),
            out@.len() == i + j,
            forall|x: usize| #[trigger]
                out@.contains(x) <==> a@.take(i as int).contains(x) || b@.take(j as int).contains(x),
            forall|k: int, l: int|
                0 <= k < out@.len() && i <= l < a@.len() ==> precedes(
                    ps,
                    #[trigger] out@[k],
                    #[trigger] a@[l],
                ),
            forall|k: int, l: int|
                0 <= k < out@.len() && j <= l < b@.len() ==> precedes(
                    ps,
                    #[trigger] out@[k],
                    #[trigger] b@[l],
                ),
        decreases a@.len() - i + b@.len() - j,
    {
        let ghost before = out@;
        let take_a = j >= b.len() || (i < a.len() && comes_first(paths, a[i], b[j]));
        let x: usize = if take_a { a[i] } else { b[j] };
        out.push(x);
        proof {
            assert forall|y: usize| #[trigger] out@.contains(y) <==> before.contains(y) || y
                == x by {
                assert(out@[before.len() as int] == x);
                if before.contains(y) {
                    let k = choose|k: int| 0 <= k < before.len() && before[k] == y;
                    assert(out@[k] == y);
                }
                if out@.contains(y) && y != x {
                    let k = choose|k: int| 0 <= k < out@.len() && out@[k] == y;
                    assert(before[k] == y);
                }
            }
            if take_a {
                assert forall|y: usize| #[trigger] a@.take(i + 1).contains(y) <==> a@.take(
                    i as int,
                ).contains(y) || y == x by {
                    lemma_take_contains(a@, i as int, y);
                }
                assert forall|l: int| j <= l < b@.len() implies precedes(
                    ps,
                    x,
                    #[trigger] b@[l],
                ) by {
                    lemma_precedes(ps, x, b@[j as int], b@[l]);
                    if l > j {
                        assert(precedes(ps, b@[j as int], b@[l]));
                    }
                }
            } else {
                assert forall|y: usize| #[trigger] b@.take(j + 1).contains(y) <==> b@.take(
                    j as int,
                ).contains(y) || y == x by {
                    lemma_take_contains(b@, j as int, y);
                }
                assert forall|l: int| i <= l < a@.len() implies precedes(
                    ps,
                    x,
                    #[trigger] a@[l],
                ) by {
                    lemma_precedes(ps, x, a@[i as int], a@[l]);
                    if l > i {
                        assert(precedes(ps, a@[i as int], a@[l]));
                    }
                }
            }
        }
        if take_a {
            i = i + 1;
        } else {
            j = j + 1;
        }
    }
    proof {
        assert(a@.take(i as int) =~= a@);
        assert(b@.take(j as int) =~= b@);
    }
    out
}

/// The numbers from `lo` to `hi` in path order.
fn sort_numbers(paths: &[Vec<Vec<u8>>], lo: usize, hi: usize) -> (out: Vec<usize>)
    requires
        lo <= hi <= paths@.len(),
    ensures
        in_path_order(path_texts(paths@), out@),
        out@.len() == hi - lo,
        forall|x: usize| #[trigger] out@.contains(x) <==> lo <= x < hi,
    decreases hi - lo,
{
    if hi - lo <= 1 {
        let mut out: Vec<usize> = Vec::new();
        if lo < hi {
            out.push(lo);
            assert(out@[0] == lo);
        }
        return out;
    }
    let mid: usize = lo + (hi - lo) / 2;
    let a = sort_numbers(paths, lo, mid);
    let b = sort_numbers(paths, mid, hi);
    proof {
        assert forall|i: int| 0 <= i < a@.len() implies a@[i] < mid by {
            assert(a@.contains(a@[i]));
        }
        assert forall|i: int| 0 <= i < b@.len() implies mid <= #[trigger] b@[i] < hi by {
            assert(b@.contains(b@[i]));
        }
    }
    merge_numbers(paths, &a, &b)
}

/// The order in which paths come, a path being its list of components: the
/// number of every path, exactly once, such that no path comes after one that
/// it precedes.
pub fn path_order(paths: &[Vec<Vec<u8>>]) -> (order: Vec<usize>)
    ensures
        is_path_order(path_texts(paths@), order@),
        forall|i: int, j: int|
            0 <= i < j < order@.len() ==> !path_before(
                path_texts(paths@)[#[trigger] order@[j] as int],
                path_texts(paths@)[#[trigger] order@[i] as int],
            ),
{
    let ghost ps = path_texts(paths@);
    let order = sort_numbers(paths, 0, paths.len());
    proof {
        assert forall|i: int, j: int| 0 <= i < j < order@.len() implies order@[i] != order@[j]
            && !path_before(
            ps[#[trigger] order@[j] as int],
            ps[#[trigger] order@[i] as int],
        ) by {
            assert(precedes(ps, order@[i], order@[j]));
            lemma_precedes(ps, order@[i], order@[j], order@[i]);
        }
    }
    order
}

/// There is one path order of given paths.
pub proof fn law_path_order_unique(
    paths: Seq<Seq<Seq<u8>>>,
    a: Seq<usize>,
    b: Seq<usize>,
)
    requires
        is_path_order(paths, a),
        is_path_order(paths, b),
    ensures
        a == b,
{
    lemma_same_order(paths, a, b);
}

proof fn lemma_same_order(paths: Seq<Seq<Seq<u8>>>, a: Seq<usize>, b: Seq<usize>)
    requires
        in_path_order(paths, a),
        in_path_order(paths, b),
        forall|k: usize| #[trigger] a.contains(k) <==> b.contains(k),
    ensures
        a == b,
    decreases a.len(),
{
    if a.len() == 0 {
        if b.len() > 0 {
            assert(b.contains(b[0]));
            assert(a.contains(b[0]));
        }
        assert(a =~= b);
    } else {
        assert(a.contains(a[0]));
        let k = choose|k: int| 0 <= k < b.len() && b[k] == a[0];
        assert(b.contains(b[0]));
        assert(a.contains(b[0]));
        let l = choose|l: int| 0 <= l < a.len() && a[l] == b[0];
        lemma_precedes(paths, a[0], b[0], a[0]);
        if k > 0 {
            assert(precedes(paths, b[0], b[k]));
        }
        if l > 0 {
            assert(precedes(paths, a[0], a[l]));
        }
        assert(a[0] == b[0]);
        let (a1, b1) = (a.skip(1), b.skip(1));
        assert forall|x: usize| #[trigger] a1.contains(x) <==> b1.contains(x) by {
            lemma_rest_contains(paths, a, x);
            lemma_rest_contains(paths, b, x);
            assert(a.contains(x) <==> b.contains(x));
        }
        lemma_same_order(paths, a1, b1);
        assert(a =~= seq![a[0]] + a1);
        assert(b =~= seq![b[0]] + b1);
    }
}

proof fn lemma_rest_contains(paths: Seq<Seq<Seq<u8>>>, s: Seq<usize>, x: usize)
    requires
        in_path_order(paths, s),
        s.len() > 0,
    ensures
        s.skip(1).contains(x) <==> s.contains(x) && x != s[0],
{
    let t = s.skip(1);
    if t.contains(x) {
        let k = choose|k: int| 0 <= k < t.len() && t[k] == x;
        assert(s[k + 1] == x);
        assert(precedes(paths, s[0], s[k + 1]));
        lemma_precedes(paths, s[0], x, x);
    }
    if s.contains(x) && x != s[0] {
        let k = choose|k: int| 0 <= k < s.len() && s[k] == x;
        assert(t[k - 1] == x);
    }
}

/// Whether two paths are alike before component `k`, where the first ends or
/// has the lesser name.
pub open spec fn branches_at(a: Seq<Seq<u8>>, b: Seq<Seq<u8>>, k: int) -> bool {
    &&& 0 <= k <= a.len()
    &&& k < b.len()
    &&& a.take(k) == b.take(k)
    &&& k == a.len() || exists|j: int| #[trigger] parts_at(a[k], b[k], j)
}

/// Paths are ordered by the first component in which they differ, and a path
/// before those below it.
pub proof fn law_path_before(a: Seq<Seq<u8>>, b: Seq<Seq<u8>>)
    ensures
        path_before(a, b) <==> exists|k: int| #[trigger] branches_at(a, b, k),
    decreases a.len(),
{
    if a.len() > 0 && b.len() > 0 {
        let (x, y) = (a.skip(1), b.skip(1));
        law_path_before(x, y);
        law_dictionary_order(a[0], b[0]);
        lemma_before_order(a[0], b[0], a[0], false);
        if a[0] == b[0] {
            if path_before(x, y) {
                let k = choose|k: int| #[trigger] branches_at(x, y, k);
                assert(a.take(k + 1) =~= seq![a[0]] + x.take(k));
                assert(b.take(k + 1) =~= seq![b[0]] + y.take(k));
                assert(branches_at(a, b, k + 1));
            }
            if exists|k: int| #[trigger] branches_at(a, b, k) {
                let k = choose|k: int| #[trigger] branches_at(a, b, k);
                if k > 0 {
                    assert(x.take(k - 1) =~= a.take(k).skip(1));
                    assert(y.take(k - 1) =~= b.take(k).skip(1));
                    assert(y[k - 1] == b[k]);
                    if k < a.len() {
                        let j = choose|j: int| #[trigger] parts_at(a[k], b[k], j);
                        assert(x[k - 1] == a[k]);
                        assert(parts_at(x[k - 1], y[k - 1], j));
                    }
                    assert(branches_at(x, y, k - 1));
                }
            }
        } else {
            assert(a.take(0) =~= b.take(0));
            if path_before(a, b) {
                assert(branches_at(a, b, 0));
            }
            if exists|k: int| #[trigger] branches_at(a, b, k) {
                let k = choose|k: int| #[trigger] branches_at(a, b, k);
                if k > 0 {
                    assert(a.take(k)[0] == b.take(k)[0]);
                }
            }
        }
    } else if b.len() > 0 {
        assert(a.take(0) =~= b.take(0));
        assert(branches_at(a, b, 0));
    }
}

/// In path order no path comes before one that it follows, equal paths stay as
/// they were, and every path has its place.
pub proof fn law_path_order(paths: Seq<Seq<Seq<u8>>>, order: Seq<usize>)
    requires
        is_path_order(paths, order),
        paths.len() <= usize::MAX,
    ensures
        order.len() == paths.len(),
        forall|k: int| 0 <= k < paths.len() ==> #[trigger] order.contains(k as usize),
        forall|i: int, j: int|
            0 <= i < j < order.len() ==> !path_before(
                paths[#[trigger] order[j] as int],
                paths[#[trigger] order[i] as int],
            ),
        forall|i: int, j: int|
            0 <= i < j < order.len() && paths[#[trigger] order[i] as int]
                == paths[#[trigger] order[j] as int] ==> order[i] < order[j],
{
    assert forall|k: int| 0 <= k < paths.len() implies #[trigger] order.contains(k as usize) by {
        assert((k as usize) < paths.len());
    }
    assert forall|i: int, j: int| 0 <= i < j < order.len() implies !path_before(
        paths[#[trigger] order[j] as int],
        paths[#[trigger] order[i] as int],
    ) && (paths[order[i] as int] == paths[order[j] as int] ==> order[i] < order[j]) by {
        let (a, b) = (paths[order[i] as int], paths[order[j] as int]);
        assert(precedes(paths, order[i], order[j]));
        lemma_path_before(a, b, a);
    }
}

} // verus!

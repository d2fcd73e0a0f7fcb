//! Ascending sequences of numbers that stand for finite sets.

use vstd::prelude::*;

verus! {

/// Whether the numbers strictly ascend.
pub open spec fn in_order(s: Seq<u32>) -> bool {
    forall|i: int, j: int| 0 <= i < j < s.len() ==> s[i] < s[j]
}

/// Two sequences merged front to front, the smaller head first, two equal
/// heads as one.
pub open spec fn merge(a: Seq<u32>, b: Seq<u32>) -> Seq<u32>
    decreases a.len() + b.len(),
{
    if a.len() == 0 {
        b
    } else if b.len() == 0 {
        a
    } else if a[0] < b[0] {
        seq![a[0]] + merge(a.skip(1), b)
    } else if b[0] < a[0] {
        seq![b[0]] + merge(a, b.skip(1))
    } else {
        seq![a[0]] + merge(a.skip(1), b.skip(1))
    }
}

/// The numbers that the two ascending sequences share.
pub open spec fn shared(a: Seq<u32>, b: Seq<u32>) -> Seq<u32>
    decreases a.len() + b.len(),
{
    if a.len() == 0 || b.len() == 0 {
        seq![]
    } else if a[0] < b[0] {
        shared(a.skip(1), b)
    } else if b[0] < a[0] {
        shared(a, b.skip(1))
    } else {
        seq![a[0]] + shared(a.skip(1), b.skip(1))
    }
}

/// The numbers of `s` in ascending order, each once.
pub open spec fn sorted_set(s: Seq<u32>) -> Seq<u32>
    decreases s.len(),
{
    if s.len() <= 1 {
        s
    } else {
        let h = s.len() as int / 2;
        merge(sorted_set(s.take(h)), sorted_set(s.skip(h)))
    }
}

pub proof fn lemma_merge(a: Seq<u32>, b: Seq<u32>)
    ensures
        forall|x: u32| #[trigger] merge(a, b).contains(x) <==> a.contains(x) || b.contains(x),
        in_order(a) && in_order(b) ==> in_order(merge(a, b)),
    decreases a.len() + b.len(),
{
    if a.len() == 0 || b.len() == 0 {
    } else {
        let a1 = if a[0] <= b[0] { a.skip(1) } else { a };
        let b1 = if b[0] <= a[0] { b.skip(1) } else { b };
        let h = if a[0] <= b[0] { a[0] } else { b[0] };
        lemma_merge(a1, b1);
        let m = merge(a1, b1);
        assert(merge(a, b) == seq![h] + m);
        assert forall|x: u32| #[trigger] merge(a, b).contains(x) <==> a.contains(x) || b.contains(x) by {
            lemma_split_head(a, x);
            lemma_split_head(b, x);
            lemma_split_head(merge(a, b), x);
            assert(merge(a, b).skip(1) =~= m);
            assert(m.contains(x) <==> a1.contains(x) || b1.contains(x));
        }
        if in_order(a) && in_order(b) {
            assert(in_order(a1) && in_order(b1));
            assert forall|j: int| 0 <= j < m.len() implies h < #[trigger] m[j] by {
                assert(m.contains(m[j]));
                if a1.contains(m[j]) {
                    let k = choose|k: int| 0 <= k < a1.len() && a1[k] == m[j];
                    assert(a1[k] == m[j]);
                } else {
                    let k = choose|k: int| 0 <= k < b1.len() && b1[k] == m[j];
                    assert(b1[k] == m[j]);
                }
            }
            assert(in_order(merge(a, b)));
        }
    }
}

pub proof fn lemma_split_head(s: Seq<u32>, x: u32)
    ensures
        s.len() > 0 ==> (s.contains(x) <==> s[0] == x || s.skip(1).contains(x)),
{
    if s.len() > 0 && s.contains(x) {
        let k = choose|k: int| 0 <= k < s.len() && s[k] == x;
        if k > 0 {
            assert(s.skip(1)[k - 1] == x);
        }
    }
    if s.len() > 0 && s.skip(1).contains(x) {
        let k = choose|k: int| 0 <= k < s.skip(1).len() && s.skip(1)[k] == x;
        assert(s[k + 1] == x);
    }
}

/// What two ascending sequences share is ascending, and all that both hold.
pub proof fn lemma_shared(a: Seq<u32>, b: Seq<u32>)
    requires
        in_order(a),
        in_order(b),
    ensures
        in_order(shared(a, b)),
        forall|x: u32| #[trigger] shared(a, b).contains(x) <==> a.contains(x) && b.contains(x),
    decreases a.len() + b.len(),
{
    if a.len() > 0 && b.len() > 0 {
        let a1 = if a[0] <= b[0] { a.skip(1) } else { a };
        let b1 = if b[0] <= a[0] { b.skip(1) } else { b };
        lemma_shared(a1, b1);
        let m = shared(a1, b1);
        let whole = shared(a, b);
        assert forall|x: u32| #[trigger] whole.contains(x) <==> a.contains(x) && b.contains(x) by {
            lemma_split_head(a, x);
            lemma_split_head(b, x);
            lemma_split_head(whole, x);
            assert(m.contains(x) <==> a1.contains(x) && b1.contains(x));
            if a[0] == b[0] {
                assert(whole.skip(1) =~= m);
                if a1.contains(x) && x == a[0] {
                    lemma_head_least(a, x);
                }
            } else if a[0] < b[0] {
                lemma_head_least(b, a[0]);
            } else {
                lemma_head_least(a, b[0]);
            }
        }
        if a[0] == b[0] {
            assert forall|j: int| 0 <= j < m.len() implies a[0] < #[trigger] m[j] by {
                assert(m.contains(m[j]));
                let k = choose|k: int| 0 <= k < a1.len() && a1[k] == m[j];
                assert(a[k + 1] == m[j]);
            }
        }
    }
}

/// Nothing in an ascending sequence is less than its head, which occurs once.
proof fn lemma_head_least(s: Seq<u32>, x: u32)
    requires
        in_order(s),
        s.len() > 0,
    ensures
        s.contains(x) ==> s[0] <= x,
        s.skip(1).contains(x) ==> s[0] < x,
{
    if s.contains(x) {
        let k = choose|k: int| 0 <= k < s.len() && s[k] == x;
        assert(k == 0 || s[0] < s[k]);
    }
    if s.skip(1).contains(x) {
        let k = choose|k: int| 0 <= k < s.skip(1).len() && s.skip(1)[k] == x;
        assert(s[0] < s[k + 1]);
    }
}

pub proof fn lemma_sorted_set(s: Seq<u32>)
    ensures
        in_order(sorted_set(s)),
        forall|x: u32| #[trigger] sorted_set(s).contains(x) <==> s.contains(x),
    decreases s.len(),
{
    if s.len() > 1 {
        let h = s.len() as int / 2;
        lemma_sorted_set(s.take(h));
        lemma_sorted_set(s.skip(h));
        lemma_merge(sorted_set(s.take(h)), sorted_set(s.skip(h)));
        assert forall|x: u32| #[trigger] sorted_set(s).contains(x) <==> s.contains(x) by {
            assert(sorted_set(s.take(h)).contains(x) <==> s.take(h).contains(x));
            assert(sorted_set(s.skip(h)).contains(x) <==> s.skip(h).contains(x));
            if s.contains(x) {
                let k = choose|k: int| 0 <= k < s.len() && s[k] == x;
                if k < h {
                    assert(s.take(h)[k] == x);
                } else {
                    assert(s.skip(h)[k - h] == x);
                }
            }
        }
    }
}

/// Two strictly ascending sequences with the same elements are equal.
pub proof fn lemma_in_order_unique(a: Seq<u32>, b: Seq<u32>)
    requires
        in_order(a),
        in_order(b),
        forall|x: u32| #[trigger] a.contains(x) <==> b.contains(x),
    ensures
        a == b,
    decreases a.len(),
{
    if a.len() == 0 {
        if b.len() > 0 {
            assert(b.contains(b[0]));
            assert(a.contains(b[0]));
        }
        assert(a =~= b);
    } else {
        assert(a.contains(a[0]));
        let k = choose|k: int| 0 <= k < b.len() && b[k] == a[0];
        assert(b.contains(b[0]));
        assert(a.contains(b[0]));
        let l = choose|l: int| 0 <= l < a.len() && a[l] == b[0];
        assert(a[0] == b[0]);
        let (a1, b1) = (a.skip(1), b.skip(1));
        assert forall|x: u32| #[trigger] a1.contains(x) <==> b1.contains(x) by {
            lemma_split_head(a, x);
            lemma_split_head(b, x);
            assert(a.contains(x) <==> b.contains(x));
            if a1.contains(x) {
                let m = choose|m: int| 0 <= m < a1.len() && a1[m] == x;
                assert(a[m + 1] == x);
            }
            if b1.contains(x) {
                let m = choose|m: int| 0 <= m < b1.len() && b1[m] == x;
                assert(b[m + 1] == x);
            }
        }
        lemma_in_order_unique(a1, b1);
        assert(a =~= seq![a[0]] + a1);
        assert(b =~= seq![b[0]] + b1);
    }
}

/// Merge two sorted lists into one.
pub fn merge_sorted(a: &[u32], b: &[u32]) -> (out: Vec<u32>)
    ensures
        out@ == merge(a@, b@),
{
    let mut out: Vec<u32> = Vec::new();
    let mut i: usize = 0;
    let mut j: usize = 0;
    proof {
        assert(a@.skip(0) =~= a@);
        assert(b@.skip(0) =~= b@);
        assert(out@ + merge(a@, b@) =~= merge(a@, b@));
    }
    while i < a.len() && j < b.len()
        invariant
            i <= a@.len(),
            j <= b@.len(),
            out@ + merge(a@.skip(i as int), b@.skip(j as int)) == merge(a@, b@),
        decreases a@.len() - i + b@.len() - j,
    {
        proof {
            let (x, y) = (a@.skip(i as int), b@.skip(j as int));
            assert(x.skip(1) =~= a@.skip(i + 1));
            assert(y.skip(1) =~= b@.skip(j + 1));
            let h = if x[0] <= y[0] { x[0] } else { y[0] };
            let rest = merge(
                if x[0] <= y[0] { x.skip(1) } else { x },
                if y[0] <= x[0] { y.skip(1) } else { y },
            );
            assert(out@ + (seq![h] + rest) =~= out@.push(h) + rest);
        }
        if a[i] < b[j] {
            out.push(a[i]);
            i = i + 1;
        } else if b[j] < a[i] {
            out.push(b[j]);
            j = j + 1;
        } else {
            out.push(a[i]);
            i = i + 1;
            j = j + 1;
        }
    }
    proof {
        let (x, y) = (a@.skip(i as int), b@.skip(j as int));
        assert(merge(x, y) =~= x + y);
        assert(a@.subrange(i as int, a@.len() as int) =~= x);
        assert(b@.subrange(j as int, b@.len() as int) =~= y);
        assert(out@ + x + y =~= out@ + (x + y));
    }
    out.extend_from_slice(&a[i..a.len()]);
    out.extend_from_slice(&b[j..b.len()]);
    out
}

/// The numbers of `s`, sorted and without repetition.
pub fn sort_distinct(s: &[u32]) -> (out: Vec<u32>)
    ensures
        out@ == sorted_set(s@),
    decreases s@.len(),
{
    if s.len() <= 1 {
        let mut out: Vec<u32> = Vec::new();
        out.extend_from_slice(s);
        assert(out@ =~= s@);
        out
    } else {
        let h: usize = s.len() / 2;
        let a = sort_distinct(&s[0..h]);
        let b = sort_distinct(&s[h..s.len()]);
        assert(s@.subrange(0, h as int) =~= s@.take(h as int));
        assert(s@.subrange(h as int, s@.len() as int) =~= s@.skip(h as int));
        merge_sorted(&a, &b)
    }
}

} // verus!

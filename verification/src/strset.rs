//! Sets of byte strings.
//!
//! Prefix sets are kept in lexical order, suffix sets in the lexical order of
//! the reversed strings, so that redundant entries are adjacent.

use vstd::prelude::*;

verus! {

/// Whether `a` comes strictly before `b` in lexical order.
pub open spec fn lex(a: Seq<u8>, b: Seq<u8>) -> bool
    decreases a.len(),
{
    if b.len() == 0 {
        false
    } else if a.len() == 0 {
        true
    } else if a[0] != b[0] {
        a[0] < b[0]
    } else {
        lex(a.skip(1), b.skip(1))
    }
}

/// Whether `a` comes strictly before `b`, read forwards, or backwards where
/// the set is one of suffixes.
pub open spec fn before(a: Seq<u8>, b: Seq<u8>, is_suffix: bool) -> bool {
    if is_suffix {
        lex(a.reverse(), b.reverse())
    } else {
        lex(a, b)
    }
}

/// The strings of a list.
pub open spec fn texts(s: Seq<Vec<u8>>) -> Seq<Seq<u8>> {
    Seq::new(s.len(), |i: int| s[i]@)
}

/// Whether the strings strictly ascend.
pub open spec fn ascending(s: Seq<Seq<u8>>, is_suffix: bool) -> bool {
    forall|i: int, j: int| 0 <= i < j < s.len() ==> before(#[trigger] s[i], #[trigger] s[j], is_suffix)
}

/// Two lists merged front to front, the lesser head first, two equal heads as
/// one.
pub open spec fn merge_texts(a: Seq<Seq<u8>>, b: Seq<Seq<u8>>, is_suffix: bool) -> Seq<Seq<u8>>
    decreases a.len() + b.len(),
{
    if a.len() == 0 {
        b
    } else if b.len() == 0 {
        a
    } else if before(a[0], b[0], is_suffix) {
        seq![a[0]] + merge_texts(a.skip(1), b, is_suffix)
    } else if before(b[0], a[0], is_suffix) {
        seq![b[0]] + merge_texts(a, b.skip(1), is_suffix)
    } else {
        seq![a[0]] + merge_texts(a.skip(1), b.skip(1), is_suffix)
    }
}

/// The strings of `s` in ascending order, each once.
pub open spec fn canon(s: Seq<Seq<u8>>, is_suffix: bool) -> Seq<Seq<u8>>
    decreases s.len(),
{
    if s.len() <= 1 {
        s
    } else {
        let h = s.len() as int / 2;
        merge_texts(canon(s.take(h), is_suffix), canon(s.skip(h), is_suffix), is_suffix)
    }
}

proof fn lemma_lex_order(a: Seq<u8>, b: Seq<u8>, c: Seq<u8>)
    ensures
        !lex(a, a),
        lex(a, b) && lex(b, c) ==> lex(a, c),
        lex(a, b) || lex(b, a) || a == b,
    decreases a.len(),
{
    if a.len() > 0 && b.len() > 0 {
        lemma_lex_order(a.skip(1), b.skip(1), c.skip(1));
        if a[0] == b[0] && a.skip(1) == b.skip(1) {
            assert(a =~= seq![a[0]] + a.skip(1));
            assert(b =~= seq![b[0]] + b.skip(1));
        }
    } else if a.len() > 0 {
        lemma_lex_order(a.skip(1), a.skip(1), a.skip(1));
    } else {
        if b.len() == 0 {
            assert(a =~= b);
        }
    }
}

pub proof fn lemma_before_order(a: Seq<u8>, b: Seq<u8>, c: Seq<u8>, is_suffix: bool)
    ensures
        !before(a, a, is_suffix),
        before(a, b, is_suffix) && before(b, c, is_suffix) ==> before(a, c, is_suffix),
        before(a, b, is_suffix) || before(b, a, is_suffix) || a == b,
{
    if is_suffix {
        lemma_lex_order(a.reverse(), b.reverse(), c.reverse());
        if a.reverse() == b.reverse() {
            assert(a.reverse().reverse() =~= a);
            assert(b.reverse().reverse() =~= b);
        }
    } else {
        lemma_lex_order(a, b, c);
    }
}

proof fn lemma_head<T>(s: Seq<T>, x: T)
    ensures
        s.len() > 0 ==> (s.contains(x) <==> s[0] == x || s.skip(1).contains(x)),
{
    if s.len() > 0 && s.contains(x) {
        let k = choose|k: int| 0 <= k < s.len() && s[k] == x;
        if k > 0 {
            assert(s.skip(1)[k - 1] == x);
        }
    }
    if s.len() > 0 && s.skip(1).contains(x) {
        let k = choose|k: int| 0 <= k < s.skip(1).len() && s.skip(1)[k] == x;
        assert(s[k + 1] == x);
    }
}

proof fn lemma_merge_texts(a: Seq<Seq<u8>>, b: Seq<Seq<u8>>, is_suffix: bool)
    ensures
        forall|x: Seq<u8>| #[trigger]
            merge_texts(a, b, is_suffix).contains(x) <==> a.contains(x) || b.contains(x),
        ascending(a, is_suffix) && ascending(b, is_suffix) ==> ascending(
            merge_texts(a, b, is_suffix),
            is_suffix,
        ),
    decreases a.len() + b.len(),
{
    if a.len() == 0 || b.len() == 0 {
    } else {
        let ab = before(a[0], b[0], is_suffix);
        let ba = before(b[0], a[0], is_suffix);
        lemma_before_order(a[0], b[0], a[0], is_suffix);
        let a1 = if ab || !ba { a.skip(1) } else { a };
        let b1 = if !ab { b.skip(1) } else { b };
        let h = if ab || !ba { a[0] } else { b[0] };
        lemma_merge_texts(a1, b1, is_suffix);
        let m = merge_texts(a1, b1, is_suffix);
        let whole = merge_texts(a, b, is_suffix);
        assert(whole == seq![h] + m);
        assert(whole.skip(1) =~= m);
        assert forall|x: Seq<u8>| #[trigger] whole.contains(x) <==> a.contains(x) || b.contains(x) by {
            lemma_head(a, x);
            lemma_head(b, x);
            lemma_head(whole, x);
            assert(m.contains(x) <==> a1.contains(x) || b1.contains(x));
        }
        if ascending(a, is_suffix) && ascending(b, is_suffix) {
            assert(ascending(a1, is_suffix) && ascending(b1, is_suffix));
            assert forall|j: int| 0 <= j < m.len() implies before(h, #[trigger] m[j], is_suffix) by {
                assert(m.contains(m[j]));
                if a1.contains(m[j]) {
                    let k = choose|k: int| 0 <= k < a1.len() && a1[k] == m[j];
                    lemma_before_order(h, a[0], m[j], is_suffix);
                    if a1 == a.skip(1) {
                        assert(a[k + 1] == m[j]);
                    } else {
                        if k > 0 {
                            assert(before(a[0], a[k], is_suffix));
                        }
                    }
                } else {
                    let k = choose|k: int| 0 <= k < b1.len() && b1[k] == m[j];
                    lemma_before_order(h, b[0], m[j], is_suffix);
                    if b1 == b.skip(1) {
                        assert(b[k + 1] == m[j]);
                    } else {
                        if k > 0 {
                            assert(before(b[0], b[k], is_suffix));
                        }
                    }
                }
            }
            assert forall|i: int, j: int| 0 <= i < j < whole.len() implies before(
                #[trigger] whole[i],
                #[trigger] whole[j],
                is_suffix,
            ) by {
                assert(whole[j] == m[j - 1]);
                if i > 0 {
                    assert(whole[i] == m[i - 1]);
                }
            }
        }
    }
}

/// A canonical list ascends and holds the same strings.
pub proof fn lemma_canon(s: Seq<Seq<u8>>, is_suffix: bool)
    ensures
        ascending(canon(s, is_suffix), is_suffix),
        forall|x: Seq<u8>| #[trigger] canon(s, is_suffix).contains(x) <==> s.contains(x),
    decreases s.len(),
{
    if s.len() > 1 {
        let h = s.len() as int / 2;
        let (a, b) = (s.take(h), s.skip(h));
        lemma_canon(a, is_suffix);
        lemma_canon(b, is_suffix);
        lemma_merge_texts(canon(a, is_suffix), canon(b, is_suffix), is_suffix);
        assert forall|x: Seq<u8>| #[trigger] canon(s, is_suffix).contains(x) <==> s.contains(x) by {
            assert(canon(a, is_suffix).contains(x) <==> a.contains(x));
            assert(canon(b, is_suffix).contains(x) <==> b.contains(x));
            if s.contains(x) {
                let k = choose|k: int| 0 <= k < s.len() && s[k] == x;
                if k < h {
                    assert(a[k] == x);
                } else {
                    assert(b[k - h] == x);
                }
            }
        }
    }
}

/// A copy of a string.
pub fn copy(s: &[u8]) -> (r: Vec<u8>)
    ensures
        r@ == s@,
{
    let mut r: Vec<u8> = Vec::new();
    r.extend_from_slice(s);
    assert(r@ =~= s@);
    r
}

/// Whether `a` comes strictly before `b`.
pub fn is_before(a: &Vec<u8>, b: &Vec<u8>, is_suffix: bool) -> (r: bool)
    ensures
        r == before(a@, b@, is_suffix),
{
    let mut i: usize = 0;
    let ghost (x, y) = if is_suffix { (a@.reverse(), b@.reverse()) } else { (a@, b@) };
    proof {
        assert(x.skip(0) =~= x);
        assert(y.skip(0) =~= y);
    }
    while i < a.len() && i < b.len()
        invariant
            i <= a@.len(),
            i <= b@.len(),
            x == if is_suffix { a@.reverse() } else { a@ },
            y == if is_suffix { b@.reverse() } else { b@ },
            lex(x, y) == lex(x.skip(i as int), y.skip(i as int)),
        decreases a@.len() - i,
    {
        let p: u8 = if is_suffix { a[a.len() - 1 - i] } else { a[i] };
        let q: u8 = if is_suffix { b[b.len() - 1 - i] } else { b[i] };
        proof {
            assert(x.skip(i as int)[0] == p);
            assert(y.skip(i as int)[0] == q);
            assert(x.skip(i as int).skip(1) =~= x.skip(i + 1));
            assert(y.skip(i as int).skip(1) =~= y.skip(i + 1));
        }
        if p != q {
            return p < q;
        }
        i = i + 1;
    }
    i < b.len()
}

/// Copy the strings of `from` from position `start` on to the end of `out`.
fn copy_rest(out: &mut Vec<Vec<u8>>, from: &[Vec<u8>], start: usize)
    requires
        start <= from@.len(),
    ensures
        texts(final(out)@) == texts(old(out)@) + texts(from@).skip(start as int),
{
    let mut i: usize = start;
    while i < from.len()
        invariant
            start <= i <= from@.len(),
            texts(out@) =~= texts(old(out)@) + texts(from@).subrange(start as int, i as int),
        decreases from@.len() - i,
    {
        let c = copy(&from[i]);
        let ghost before = texts(out@);
        out.push(c);
        assert(texts(out@) =~= before.push(c@));
        i = i + 1;
    }
}

/// A copy of a list.
pub fn copy_set(s: &[Vec<u8>]) -> (r: Vec<Vec<u8>>)
    ensures
        texts(r@) == texts(s@),
{
    let mut r: Vec<Vec<u8>> = Vec::new();
    copy_rest(&mut r, s, 0);
    assert(texts(r@) =~= texts(s@));
    r
}

fn merge_sets(a: &[Vec<u8>], b: &[Vec<u8>], is_suffix: bool) -> (out: Vec<Vec<u8>>)
    ensures
        texts(out@) == merge_texts(texts(a@), texts(b@), is_suffix),
{
    let mut out: Vec<Vec<u8>> = Vec::new();
    let mut i: usize = 0;
    let mut j: usize = 0;
    let ghost (x, y) = (texts(a@), texts(b@));
    let ghost whole = merge_texts(x, y, is_suffix);
    proof {
        assert(x.skip(0) =~= x);
        assert(y.skip(0) =~= y);
        assert(texts(out@) + whole =~= whole);
    }
    while i < a.len() && j < b.len()
        invariant
            i <= a@.len(),
            j <= b@.len(),
            x == texts(a@),
            y == texts(b@),
            texts(out@) + merge_texts(x.skip(i as int), y.skip(j as int), is_suffix) == whole,
        decreases a@.len() - i + b@.len() - j,
    {
        let ghost (x1, y1) = (x.skip(i as int), y.skip(j as int));
        let ghost so_far = texts(out@);
        proof {
            assert(x1.skip(1) =~= x.skip(i + 1));
            assert(y1.skip(1) =~= y.skip(j + 1));
        }
        let c;
        if is_before(&a[i], &b[j], is_suffix) {
            c = copy(&a[i]);
            i = i + 1;
        } else if is_before(&b[j], &a[i], is_suffix) {
            c = copy(&b[j]);
            j = j + 1;
        } else {
            c = copy(&a[i]);
            i = i + 1;
            j = j + 1;
        }
        let ghost rest = merge_texts(x.skip(i as int), y.skip(j as int), is_suffix);
        out.push(c);
        proof {
            assert(texts(out@) =~= so_far.push(c@));
            assert(merge_texts(x1, y1, is_suffix) == seq![c@] + rest);
            assert(so_far + (seq![c@] + rest) =~= so_far.push(c@) + rest);
        }
    }
    proof {
        let (x1, y1) = (x.skip(i as int), y.skip(j as int));
        assert(merge_texts(x1, y1, is_suffix) =~= x1 + y1);
        assert(texts(out@) + x1 + y1 =~= texts(out@) + (x1 + y1));
    }
    copy_rest(&mut out, a, i);
    copy_rest(&mut out, b, j);
    out
}

/// Sort a list and drop repetitions.
pub fn clean(s: &[Vec<u8>], is_suffix: bool) -> (out: Vec<Vec<u8>>)
    ensures
        texts(out@) == canon(texts(s@), is_suffix),
        ascending(texts(out@), is_suffix),
        forall|x: Seq<u8>| #[trigger] texts(out@).contains(x) <==> texts(s@).contains(x),
    decreases s@.len(),
{
    proof {
        lemma_canon(texts(s@), is_suffix);
    }
    if s.len() <= 1 {
        copy_set(s)
    } else {
        let h: usize = s.len() / 2;
        let a = clean(&s[0..h], is_suffix);
        let b = clean(&s[h..s.len()], is_suffix);
        proof {
            assert(texts(s@.subrange(0, h as int)) =~= texts(s@).take(h as int));
            assert(texts(s@.subrange(h as int, s@.len() as int)) =~= texts(s@).skip(h as int));
        }
        merge_sets(&a, &b, is_suffix)
    }
}

/// The union of two sets.
pub fn union(a: &[Vec<u8>], b: &[Vec<u8>], is_suffix: bool) -> (out: Vec<Vec<u8>>)
    ensures
        texts(out@) == canon(texts(a@) + texts(b@), is_suffix),
{
    let mut all = copy_set(a);
    copy_rest(&mut all, b, 0);
    assert(texts(all@) =~= texts(a@) + texts(b@));
    clean(&all, is_suffix)
}

/// Every string of `a` followed by every string of `b`.
pub open spec fn products(a: Seq<Seq<u8>>, b: Seq<Seq<u8>>) -> Seq<Seq<u8>>
    decreases a.len(),
{
    if a.len() == 0 {
        seq![]
    } else {
        products(a.drop_last(), b) + Seq::new(b.len(), |j: int| a.last() + b[j])
    }
}

pub proof fn lemma_products(a: Seq<Seq<u8>>, b: Seq<Seq<u8>>, x: Seq<u8>, y: Seq<u8>)
    requires
        a.contains(x),
        b.contains(y),
    ensures
        products(a, b).contains(x + y),
    decreases a.len(),
{
    let i = choose|i: int| 0 <= i < a.len() && a[i] == x;
    let j = choose|j: int| 0 <= j < b.len() && b[j] == y;
    let front = products(a.drop_last(), b);
    if i < a.len() - 1 {
        assert(a.drop_last()[i] == x);
        lemma_products(a.drop_last(), b, x, y);
        let k = choose|k: int| 0 <= k < front.len() && front[k] == x + y;
        assert(products(a, b)[k] == x + y);
    } else {
        assert(products(a, b)[front.len() + j] == x + y);
    }
}

/// The set of concatenations of two sets.
pub fn cross(a: &[Vec<u8>], b: &[Vec<u8>], is_suffix: bool) -> (out: Vec<Vec<u8>>)
    ensures
        texts(out@) == canon(products(texts(a@), texts(b@)), is_suffix),
{
    let mut all: Vec<Vec<u8>> = Vec::new();
    let ghost (x, y) = (texts(a@), texts(b@));
    let mut i: usize = 0;
    assert(texts(all@) =~= products(x.take(0), y));
    while i < a.len()
        invariant
            i <= a@.len(),
            x == texts(a@),
            y == texts(b@),
            texts(all@) == products(x.take(i as int), y),
        decreases a@.len() - i,
    {
        let ghost front = texts(all@);
        let ghost row = Seq::new(y.len(), |j: int| x[i as int] + y[j]);
        let mut j: usize = 0;
        assert(front + row.take(0) =~= front);
        while j < b.len()
            invariant
                i < a@.len(),
                j <= b@.len(),
                x == texts(a@),
                y == texts(b@),
                row == Seq::new(y.len(), |j: int| x[i as int] + y[j]),
                texts(all@) == front + row.take(j as int),
            decreases b@.len() - j,
        {
            let mut s = copy(&a[i]);
            s.extend_from_slice(&b[j]);
            assert(s@ =~= x[i as int] + y[j as int]);
            let ghost so_far = texts(all@);
            all.push(s);
            assert(texts(all@) =~= so_far.push(s@));
            assert(row.take(j + 1) =~= row.take(j as int).push(s@));
            assert(front + row.take(j + 1) =~= so_far.push(s@));
            j = j + 1;
        }
        proof {
            assert(row.take(b@.len() as int) =~= row);
            assert(x.take(i + 1).drop_last() =~= x.take(i as int));
            assert(x.take(i + 1).last() == x[i as int]);
        }
        i = i + 1;
    }
    assert(x.take(a@.len() as int) =~= x);
    clean(&all, is_suffix)
}

/// The length of the shortest string, 0 for the empty set.
pub open spec fn shortest(s: Seq<Seq<u8>>) -> nat
    decreases s.len(),
{
    if s.len() == 0 {
        0
    } else if s.len() == 1 || s.last().len() < shortest(s.drop_last()) {
        s.last().len()
    } else {
        shortest(s.drop_last())
    }
}

/// The length of the shortest string, 0 for the empty set.
pub fn min_len(s: &[Vec<u8>]) -> (n: usize)
    ensures
        n == shortest(texts(s@)),
{
    let mut n: usize = 0;
    let mut i: usize = 0;
    let ghost x = texts(s@);
    while i < s.len()
        invariant
            i <= s@.len(),
            x == texts(s@),
            n == shortest(x.take(i as int)),
        decreases s@.len() - i,
    {
        proof {
            assert(x.take(i + 1).drop_last() =~= x.take(i as int));
            assert(x.take(i + 1).last() == s@[i as int]@);
        }
        if i == 0 || s[i].len() < n {
            n = s[i].len();
        }
        i = i + 1;
    }
    assert(x.take(s@.len() as int) =~= x);
    n
}

/// Whether two strings are alike before position `k`, where the first ends or
/// has the lesser byte.
pub open spec fn parts_at(a: Seq<u8>, b: Seq<u8>, k: int) -> bool {
    &&& 0 <= k <= a.len()
    &&& k < b.len()
    &&& a.take(k) == b.take(k)
    &&& k == a.len() || a[k] < b[k]
}

/// Strings are ordered as in a dictionary: by the first byte in which they
/// differ, and a string before those that it starts.
pub proof fn law_dictionary_order(a: Seq<u8>, b: Seq<u8>)
    ensures
        lex(a, b) <==> exists|k: int| #[trigger] parts_at(a, b, k),
    decreases a.len(),
{
    if a.len() > 0 && b.len() > 0 {
        let (x, y) = (a.skip(1), b.skip(1));
        law_dictionary_order(x, y);
        if a[0] == b[0] {
            if lex(x, y) {
                let k = choose|k: int| #[trigger] parts_at(x, y, k);
                assert(a.take(k + 1) =~= seq![a[0]] + x.take(k));
                assert(b.take(k + 1) =~= seq![b[0]] + y.take(k));
                assert(parts_at(a, b, k + 1));
            }
            if exists|k: int| #[trigger] parts_at(a, b, k) {
                let k = choose|k: int| #[trigger] parts_at(a, b, k);
                if k > 0 {
                    assert(x.take(k - 1) =~= a.take(k).skip(1));
                    assert(y.take(k - 1) =~= b.take(k).skip(1));
                    assert(parts_at(x, y, k - 1));
                }
            }
        } else {
            assert(a.take(0) =~= b.take(0));
            if a[0] < b[0] {
                assert(parts_at(a, b, 0));
            }
            if exists|k: int| #[trigger] parts_at(a, b, k) {
                let k = choose|k: int| #[trigger] parts_at(a, b, k);
                if k > 0 {
                    assert(a.take(k)[0] == b.take(k)[0]);
                }
            }
        }
    } else if b.len() > 0 {
        assert(a.take(0) =~= b.take(0));
        assert(parts_at(a, b, 0));
    }
}

} // verus!

//! Which directories an index covers.

use vstd::prelude::*;
use vstd::string::StringExecFns;
use vstd::utf8::encode_utf8;

use crate::image::utf8_of;
use crate::paths::{plain_path, strip_verbatim};
use crate::read::strings;
use crate::strset::{ascending, before, canon, clean, copy, lemma_canon, lex, texts};
use crate::text::{text_of, to_chars};

verus! {

/// Whether a byte separates the parts of a path.
pub open spec fn is_sep(b: u8) -> bool {
    b == 47 || b == 92
}

/// Whether `child` is `parent` itself or lies somewhere beneath it. The check
/// is textual, so `C:\code-other` is not inside `C:\code`.
pub open spec fn within(child: Seq<u8>, parent: Seq<u8>) -> bool {
    &&& parent.is_prefix_of(child)
    &&& {
        ||| child.len() == parent.len()
        ||| parent.len() > 0 && is_sep(parent.last())
        ||| is_sep(child[parent.len() as int])
    }
}

/// The first of the roots that covers `r`.
pub open spec fn cover_of(kept: Seq<Seq<u8>>, r: Seq<u8>) -> Option<int>
    decreases kept.len(),
{
    if kept.len() == 0 {
        None
    } else {
        match cover_of(kept.drop_last(), r) {
            Some(k) => Some(k),
            None => if within(r, kept.last()) {
                Some(kept.len() - 1)
            } else {
                None
            },
        }
    }
}

/// The roots that no root before them covers, and each other root with the one
/// that covers it.
pub open spec fn collapsed(rs: Seq<Seq<u8>>) -> (Seq<Seq<u8>>, Seq<(Seq<u8>, Seq<u8>)>)
    decreases rs.len(),
{
    if rs.len() == 0 {
        (seq![], seq![])
    } else {
        let (kept, dropped) = collapsed(rs.drop_last());
        match cover_of(kept, rs.last()) {
            Some(k) => (kept, dropped.push((rs.last(), kept[k]))),
            None => (kept.push(rs.last()), dropped),
        }
    }
}

/// The UTF-8 bytes of pairs of texts.
pub open spec fn utf8_pairs(v: Seq<(String, String)>) -> Seq<(Seq<u8>, Seq<u8>)> {
    Seq::new(v.len(), |i: int| (encode_utf8(v[i].0@), encode_utf8(v[i].1@)))
}

/// True when `child` is `parent` itself or lies somewhere beneath it. Both
/// must be canonical path strings.
pub fn is_within(child: &str, parent: &str) -> (r: bool)
    ensures
        r == within(encode_utf8(child@), encode_utf8(parent@)),
{
    bytes_within(child.as_bytes(), parent.as_bytes())
}

fn bytes_within(child: &[u8], parent: &[u8]) -> (r: bool)
    ensures
        r == within(child@, parent@),
{
    if parent.len() > child.len() {
        return false;
    }
    let mut i: usize = 0;
    while i < parent.len()
        invariant
            i <= parent@.len() <= child@.len(),
            forall|k: int| 0 <= k < i ==> parent@[k] == child@[k],
        decreases parent@.len() - i,
    {
        if parent[i] != child[i] {
            assert(parent@[i as int] != child@.take(parent@.len() as int)[i as int]);
            return false;
        }
        i = i + 1;
    }
    assert(parent@ =~= child@.take(parent@.len() as int));
    if child.len() == parent.len() {
        return true;
    }
    let n: usize = parent.len();
    n > 0 && (parent[n - 1] == 47 || parent[n - 1] == 92) || child[n] == 47 || child[n] == 92
}

proof fn lemma_cover_of(kept: Seq<Seq<u8>>, r: Seq<u8>, i: int)
    requires
        0 <= i <= kept.len(),
        forall|k: int| 0 <= k < i ==> !within(r, #[trigger] kept[k]),
        i < kept.len() ==> within(r, kept[i]),
    ensures
        cover_of(kept, r) == if i < kept.len() {
            Some(i)
        } else {
            None
        },
    decreases kept.len(),
{
    if kept.len() > 0 {
        lemma_cover_of(kept.drop_last(), r, if i < kept.len() { i } else { i - 1 });
    }
}

/// The first of the roots that covers `r`.
fn find_cover(kept: &[Vec<u8>], r: &[u8]) -> (k: Option<usize>)
    ensures
        match k {
            Some(i) => cover_of(texts(kept@), r@) == Some(i as int) && i < kept@.len(),
            None => cover_of(texts(kept@), r@) is None,
        },
{
    let ghost x = texts(kept@);
    let mut i: usize = 0;
    while i < kept.len()
        invariant
            i <= kept@.len(),
            x == texts(kept@),
            forall|k: int| 0 <= k < i ==> !within(r@, #[trigger] x[k]),
        decreases kept@.len() - i,
    {
        if bytes_within(r, &kept[i]) {
            proof {
                lemma_cover_of(x, r@, i as int);
            }
            return Some(i);
        }
        i = i + 1;
    }
    proof {
        lemma_cover_of(x, r@, i as int);
    }
    None
}

/// Sort and dedup roots, dropping any that lie inside another so that no file
/// is ever indexed (and reported) twice. Returns the kept roots and, for each
/// dropped one, the root that already covers it.
pub fn collapse_roots(roots: Vec<String>) -> (r: (Vec<String>, Vec<(String, String)>))
    ensures
        (utf8_of(r.0@), utf8_pairs(r.1@)) == collapsed(canon(utf8_of(roots@), false)),
{
    let ghost all = utf8_of(roots@);
    let mut bytes: Vec<Vec<u8>> = Vec::new();
    let mut i: usize = 0;
    while i < roots.len()
        invariant
            i <= roots@.len(),
            all == utf8_of(roots@),
            texts(bytes@) =~= all.take(i as int),
        decreases roots@.len() - i,
    {
        let ghost so_far = texts(bytes@);
        let b = copy(roots[i].as_str().as_bytes());
        bytes.push(b);
        assert(texts(bytes@) =~= so_far.push(b@));
        i = i + 1;
    }
    assert(texts(bytes@) =~= all);
    let sorted = clean(&bytes, false);
    let ghost rs = texts(sorted@);
    let mut kept: Vec<Vec<u8>> = Vec::new();
    let mut kept_text: Vec<String> = Vec::new();
    let mut dropped: Vec<(String, String)> = Vec::new();
    let mut i: usize = 0;
    proof {
        assert(rs.take(0) =~= seq![]);
        assert(texts(kept@) =~= seq![]);
        assert(utf8_of(kept_text@) =~= seq![]);
        assert(utf8_pairs(dropped@) =~= seq![]);
    }
    while i < sorted.len()
        invariant
            i <= sorted@.len(),
            rs == texts(sorted@),
            all == utf8_of(roots@),
            forall|x: Seq<u8>| #[trigger] rs.contains(x) <==> all.contains(x),
            texts(kept@) == utf8_of(kept_text@),
            kept@.len() == kept_text@.len(),
            (texts(kept@), utf8_pairs(dropped@)) == collapsed(rs.take(i as int)),
        decreases sorted@.len() - i,
    {
        let r = &sorted[i];
        let ghost (k0, d0) = (texts(kept@), utf8_pairs(dropped@));
        proof {
            assert(rs.take(i + 1).drop_last() =~= rs.take(i as int));
            assert(rs.take(i + 1).last() == r@);
            assert(rs[i as int] == r@);
            assert(rs.contains(r@));
            assert(all.contains(r@));
        }
        let ghost n = choose|n: int| 0 <= n < all.len() && all[n] == r@;
        let text = text_of(r, Ghost(roots@[n]@));
        match find_cover(&kept, r) {
            Some(k) => {
                assert(utf8_of(kept_text@)[k as int] == k0[k as int]);
                dropped.push((text, kept_text[k].clone()));
                assert(utf8_pairs(dropped@) =~= d0.push((r@, k0[k as int])));
            },
            None => {
                let c = copy(r);
                kept.push(c);
                kept_text.push(text);
                assert(texts(kept@) =~= k0.push(r@));
                assert(utf8_of(kept_text@) =~= k0.push(r@));
            },
        }
        i = i + 1;
    }
    assert(rs.take(i as int) =~= rs);
    (kept_text, dropped)
}

/// Every path lies inside itself, and what lies inside a path that lies inside
/// another lies inside that one.
pub proof fn law_within(a: Seq<u8>, b: Seq<u8>, c: Seq<u8>)
    ensures
        within(a, a),
        within(a, b) && within(b, c) ==> within(a, c),
{
    assert(a.take(a.len() as int) =~= a);
    if within(a, b) && within(b, c) {
        assert(a.take(b.len() as int).take(c.len() as int) =~= a.take(c.len() as int));
        if c.len() < b.len() {
            assert(b[c.len() as int] == a.take(b.len() as int)[c.len() as int]);
        }
    }
}

/// A string does not come after one that it starts.
proof fn lemma_prefix_not_after(p: Seq<u8>, s: Seq<u8>)
    requires
        p.is_prefix_of(s),
    ensures
        !lex(s, p),
    decreases p.len(),
{
    if p.len() > 0 && s.len() > 0 {
        assert(p[0] == s.take(p.len() as int)[0]);
        assert(p.skip(1) =~= s.skip(1).take(p.len() - 1));
        lemma_prefix_not_after(p.skip(1), s.skip(1));
    }
}

proof fn lemma_cover_bounds(kept: Seq<Seq<u8>>, r: Seq<u8>)
    ensures
        match cover_of(kept, r) {
            Some(k) => 0 <= k < kept.len() && within(r, kept[k]),
            None => forall|k: int| 0 <= k < kept.len() ==> !within(r, #[trigger] kept[k]),
        },
    decreases kept.len(),
{
    if kept.len() > 0 {
        let short = kept.drop_last();
        lemma_cover_bounds(short, r);
        if cover_of(kept, r) is None {
            assert forall|k: int| 0 <= k < kept.len() implies !within(r, #[trigger] kept[k]) by {
                if k < short.len() {
                    assert(!within(r, short[k]));
                }
            }
        }
    }
}

/// Of sorted roots, no two that are kept lie one inside the other, and every
/// root lies inside one that is kept.
pub proof fn law_collapsed(rs: Seq<Seq<u8>>)
    requires
        ascending(rs, false),
    ensures
        forall|i: int, j: int|
            0 <= i < collapsed(rs).0.len() && 0 <= j < collapsed(rs).0.len() && i != j ==> !within(
                #[trigger] collapsed(rs).0[i],
                #[trigger] collapsed(rs).0[j],
            ),
        forall|i: int|
            0 <= i < rs.len() ==> exists|k: int|
                0 <= k < collapsed(rs).0.len() && within(#[trigger] rs[i], #[trigger] collapsed(rs).0[k]),
        forall|k: int| 0 <= k < collapsed(rs).0.len() ==> rs.contains(#[trigger] collapsed(rs).0[k]),
    decreases rs.len(),
{
    if rs.len() > 0 {
        let short = rs.drop_last();
        law_collapsed(short);
        let last = rs.last();
        let (kept, _) = collapsed(short);
        let now = collapsed(rs).0;
        lemma_cover_bounds(kept, last);
        assert forall|k: int| 0 <= k < kept.len() implies now[k] == #[trigger] kept[k] && rs.contains(
            kept[k],
        ) by {
            assert(short.contains(kept[k]));
            let m = choose|m: int| 0 <= m < short.len() && short[m] == kept[k];
            assert(rs[m] == kept[k]);
        }
        assert(rs[rs.len() - 1] == last);
        assert(last.is_prefix_of(last)) by {
            assert(last.take(last.len() as int) =~= last);
        }
        if cover_of(kept, last) is None {
            let n = kept.len() as int;
            assert(now[n] == last);
            assert forall|i: int| 0 <= i < n implies !within(#[trigger] kept[i], last) by {
                assert(short.contains(kept[i]));
                let m = choose|m: int| 0 <= m < short.len() && short[m] == kept[i];
                assert(before(rs[m], rs[rs.len() - 1], false));
                if last.is_prefix_of(kept[i]) {
                    lemma_prefix_not_after(last, kept[i]);
                }
            }
            assert forall|i: int, j: int|
                0 <= i < now.len() && 0 <= j < now.len() && i != j implies !within(
                #[trigger] now[i],
                #[trigger] now[j],
            ) by {
                if i < n && j < n {
                    assert(!within(kept[i], kept[j]));
                } else if i == n {
                    assert(!within(last, kept[j]));
                } else {
                    assert(!within(kept[i], last));
                }
            }
        }
        assert forall|i: int| 0 <= i < rs.len() implies exists|k: int|
            0 <= k < now.len() && within(#[trigger] rs[i], #[trigger] now[k]) by {
            if i < short.len() {
                let k = choose|k: int|
                    0 <= k < kept.len() && within(#[trigger] short[i], #[trigger] kept[k]);
                assert(within(short[i], kept[k]));
                assert(now[k] == kept[k]);
                assert(within(rs[i], now[k]));
            } else {
                match cover_of(kept, last) {
                    Some(k) => {
                        assert(within(rs[i], now[k]));
                    },
                    None => {
                        assert(within(rs[i], now[kept.len() as int]));
                    },
                }
            }
        }
    }
}

/// No file is indexed twice, and none is left out: whatever the roots, of those
/// that are kept none lies inside another, and every root lies inside one that
/// is kept.
pub proof fn law_roots_cover(all: Seq<Seq<u8>>)
    ensures
        ({
            let kept = collapsed(canon(all, false)).0;
            &&& forall|i: int, j: int|
                0 <= i < kept.len() && 0 <= j < kept.len() && i != j ==> !within(
                    #[trigger] kept[i],
                    #[trigger] kept[j],
                )
            &&& forall|r: Seq<u8>| #[trigger]
                all.contains(r) ==> exists|k: int| 0 <= k < kept.len() && within(r, #[trigger] kept[k])
        }),
{
    let rs = canon(all, false);
    lemma_canon(all, false);
    law_collapsed(rs);
    let kept = collapsed(rs).0;
    assert forall|r: Seq<u8>| #[trigger] all.contains(r) implies exists|k: int|
        0 <= k < kept.len() && within(r, #[trigger] kept[k]) by {
        assert(rs.contains(r));
        let i = choose|i: int| 0 <= i < rs.len() && rs[i] == r;
        let k = choose|k: int| 0 <= k < kept.len() && within(#[trigger] rs[i], #[trigger] kept[k]);
        assert(within(r, kept[k]));
    }
}

/// Whether a character separates the parts of a path.
pub open spec fn is_separator(c: char) -> bool {
    c == '/' || c == '\\'
}

/// A path without the separators at its end.
pub open spec fn trimmed(s: Seq<char>) -> Seq<char>
    decreases s.len(),
{
    if s.len() > 0 && is_separator(s.last()) {
        trimmed(s.drop_last())
    } else {
        s
    }
}

/// An ASCII capital as the small letter.
pub open spec fn lower(c: char) -> char {
    if 'A' <= c <= 'Z' {
        (c as u8 + 32) as u8 as char
    } else {
        c
    }
}

/// Whether two texts are the same but for the case of ASCII letters.
pub open spec fn same_but_case(a: Seq<char>, b: Seq<char>) -> bool {
    a.len() == b.len() && forall|i: int|
        0 <= i < a.len() ==> lower(#[trigger] a[i]) == lower(b[i])
}

/// Whether two root strings name the same root: ignoring a trailing separator,
/// and case-insensitively where file names are.
pub open spec fn same(a: Seq<char>, b: Seq<char>, ignore_case: bool) -> bool {
    if ignore_case {
        same_but_case(trimmed(a), trimmed(b))
    } else {
        trimmed(a) == trimmed(b)
    }
}

/// The characters of a path without the separators at its end.
fn trim_separators(s: &str) -> (r: Vec<char>)
    ensures
        r@ == trimmed(s@),
{
    let mut r = to_chars(s);
    while r.len() > 0 && (r[r.len() - 1] == '/' || r[r.len() - 1] == '\\')
        invariant
            trimmed(r@) == trimmed(s@),
        decreases r@.len(),
    {
        let ghost before = r@;
        let _c = r.pop();
        assert(r@ =~= before.drop_last());
    }
    r
}

fn to_lower(c: char) -> (r: char)
    ensures
        r == lower(c),
{
    if 'A' <= c && c <= 'Z' {
        (c as u8 + 32) as char
    } else {
        c
    }
}

/// Whether two root strings name the same root: ignoring a trailing separator,
/// and case-insensitively where file names are.
pub fn same_root(a: &str, b: &str, ignore_case: bool) -> (r: bool)
    ensures
        r == same(a@, b@, ignore_case),
{
    let x = trim_separators(a);
    let y = trim_separators(b);
    if x.len() != y.len() {
        return false;
    }
    let mut i: usize = 0;
    while i < x.len()
        invariant
            i <= x@.len() == y@.len(),
            x@ == trimmed(a@),
            y@ == trimmed(b@),
            forall|k: int|
                0 <= k < i ==> (if ignore_case {
                    lower(#[trigger] x@[k]) == lower(y@[k])
                } else {
                    x@[k] == y@[k]
                }),
        decreases x@.len() - i,
    {
        let equal = if ignore_case { to_lower(x[i]) == to_lower(y[i]) } else { x[i] == y[i] };
        if !equal {
            return false;
        }
        i = i + 1;
    }
    assert(!ignore_case ==> x@ =~= y@);
    true
}

/// Whether one of the roots is `r`.
pub open spec fn is_among(roots: Seq<Seq<char>>, r: Seq<char>, ignore_case: bool) -> bool {
    exists|i: int| 0 <= i < roots.len() && same(#[trigger] roots[i], r, ignore_case)
}

/// Whether `r` is one of the roots that are taken away.
pub open spec fn is_removed(removed: Seq<Seq<char>>, s: Seq<char>, ignore_case: bool) -> bool {
    exists|i: int| 0 <= i < removed.len() && same(s, #[trigger] removed[i], ignore_case)
}

/// The paths of roots that come with whether they are directories.
pub open spec fn known(stored: Seq<(String, bool)>) -> Seq<Seq<char>> {
    Seq::new(stored.len(), |i: int| stored[i].0@)
}

/// What a root to be removed is called: its canonical path, or the path as
/// typed where it has vanished and has none.
pub open spec fn removal(r: (Option<String>, String)) -> Seq<char> {
    match r.0 {
        Some(c) => c@,
        None => plain_path(r.1@),
    }
}

/// What roots to be removed are called.
pub open spec fn removals(remove: Seq<(Option<String>, String)>) -> Seq<Seq<char>> {
    Seq::new(remove.len(), |i: int| removal(remove[i]))
}

/// The notes on roots to be removed that are not stored.
pub open spec fn removal_notes(
    stored: Seq<Seq<char>>,
    removed: Seq<Seq<char>>,
    ignore_case: bool,
) -> Seq<Seq<char>>
    decreases removed.len(),
{
    if removed.len() == 0 {
        seq![]
    } else {
        let notes = removal_notes(stored, removed.drop_last(), ignore_case);
        if is_among(stored, removed.last(), ignore_case) {
            notes
        } else {
            notes.push(removed.last() + ": not in the index"@)
        }
    }
}

/// The stored roots that stay, and the notes on those that go.
pub open spec fn stored_plan(
    stored: Seq<(String, bool)>,
    removed: Seq<Seq<char>>,
    ignore_case: bool,
) -> (Seq<Seq<char>>, Seq<Seq<char>>)
    decreases stored.len(),
{
    if stored.len() == 0 {
        (seq![], seq![])
    } else {
        let (roots, notes) = stored_plan(stored.drop_last(), removed, ignore_case);
        let (s, is_dir) = (stored.last().0@, stored.last().1);
        if is_removed(removed, s, ignore_case) {
            (roots, notes.push(s + ": removed"@))
        } else if !is_dir {
            (roots, notes.push(s + ": no longer exists, dropped from the index"@))
        } else {
            (roots.push(s), notes)
        }
    }
}

/// The roots the next build should cover, plus notes for the user.
#[derive(Debug)]
pub struct RootPlan {
    pub roots: Vec<String>,
    pub notes: Vec<String>,
}

/// Whether one of the stored roots is `r`.
fn any_stored(stored: &[(String, bool)], r: &str, ignore_case: bool) -> (b: bool)
    ensures
        b == is_among(known(stored@), r@, ignore_case),
{
    let ghost all = known(stored@);
    let mut i: usize = 0;
    while i < stored.len()
        invariant
            i <= stored@.len(),
            all == known(stored@),
            forall|k: int| 0 <= k < i ==> !same(#[trigger] all[k], r@, ignore_case),
        decreases stored@.len() - i,
    {
        if same_root(&stored[i].0, r, ignore_case) {
            assert(same(all[i as int], r@, ignore_case));
            return true;
        }
        i = i + 1;
    }
    false
}

/// Whether `s` is one of the roots that are taken away.
fn any_removed(removed: &[String], s: &str, ignore_case: bool) -> (b: bool)
    ensures
        b == is_removed(strings(removed@), s@, ignore_case),
{
    let ghost all = strings(removed@);
    let mut i: usize = 0;
    while i < removed.len()
        invariant
            i <= removed@.len(),
            all == strings(removed@),
            forall|k: int| 0 <= k < i ==> !same(s@, #[trigger] all[k], ignore_case),
        decreases removed@.len() - i,
    {
        if same_root(s, &removed[i], ignore_case) {
            assert(same(s@, all[i as int], ignore_case));
            return true;
        }
        i = i + 1;
    }
    false
}

/// Work out the root set for a rebuild: the stored roots, minus `remove`,
/// minus any that no longer exist (noted, not fatal, so one deleted directory
/// cannot wedge the index), plus `add`. Roots named explicitly in `add` must
/// exist. Stored roots and those to be added come with whether they are
/// directories, those to be removed with their canonical path, if they have
/// one.
pub fn resolve_roots(
    stored: &[(String, bool)],
    add: &[(String, bool)],
    remove: &[(Option<String>, String)],
    ignore_case: bool,
) -> (r: Result<RootPlan, String>)
    ensures
        match r {
            Ok(plan) => {
                let removed = removals(remove@);
                let (kept, notes) = stored_plan(stored@, removed, ignore_case);
                &&& forall|i: int| 0 <= i < add@.len() ==> (#[trigger] add@[i]).1
                &&& strings(plan.roots@) == known(add@) + kept
                &&& strings(plan.notes@) == removal_notes(known(stored@), removed, ignore_case)
                    + notes
            },
            Err(m) => exists|i: int|
                0 <= i < add@.len() && !(#[trigger] add@[i]).1 && m@ == add@[i].0@
                    + ": not a directory"@ && forall|j: int|
                    0 <= j < i ==> (#[trigger] add@[j]).1,
        },
{
    let mut roots: Vec<String> = Vec::new();
    let mut i: usize = 0;
    while i < add.len()
        invariant
            i <= add@.len(),
            forall|k: int| 0 <= k < i ==> (#[trigger] add@[k]).1,
            strings(roots@) =~= known(add@).take(i as int),
        decreases add@.len() - i,
    {
        if !add[i].1 {
            assert(!add@[i as int].1);
            return Err(add[i].0.clone().concat(": not a directory"));
        }
        let ghost so_far = strings(roots@);
        let p = add[i].0.clone();
        roots.push(p);
        assert(strings(roots@) =~= so_far.push(p@));
        i = i + 1;
    }
    assert(strings(roots@) =~= known(add@));
    let ghost wanted = removals(remove@);
    let mut removed: Vec<String> = Vec::new();
    let mut notes: Vec<String> = Vec::new();
    let mut i: usize = 0;
    assert(wanted.take(0) =~= seq![]);
    assert(strings(notes@) =~= seq![]);
    while i < remove.len()
        invariant
            i <= remove@.len(),
            wanted == removals(remove@),
            strings(removed@) =~= wanted.take(i as int),
            strings(notes@) == removal_notes(known(stored@), wanted.take(i as int), ignore_case),
        decreases remove@.len() - i,
    {
        let r = match &remove[i].0 {
            Some(c) => c.clone(),
            None => strip_verbatim(&remove[i].1),
        };
        proof {
            assert(wanted.take(i + 1).drop_last() =~= wanted.take(i as int));
            assert(wanted.take(i + 1).last() == r@);
        }
        let ghost so_far = strings(notes@);
        if !any_stored(stored, &r, ignore_case) {
            let note = r.clone().concat(": not in the index");
            notes.push(note);
            assert(strings(notes@) =~= so_far.push(note@));
        }
        let ghost before = strings(removed@);
        removed.push(r);
        assert(strings(removed@) =~= before.push(r@));
        i = i + 1;
    }
    assert(wanted.take(i as int) =~= wanted);
    assert(strings(removed@) =~= wanted);
    let ghost (roots0, notes0) = (strings(roots@), strings(notes@));
    let mut i: usize = 0;
    proof {
        assert(stored@.take(0) =~= seq![]);
        assert(roots0 + Seq::<Seq<char>>::empty() =~= roots0);
        assert(notes0 + Seq::<Seq<char>>::empty() =~= notes0);
    }
    while i < stored.len()
        invariant
            i <= stored@.len(),
            strings(removed@) == wanted,
            strings(roots@) == roots0 + stored_plan(stored@.take(i as int), wanted, ignore_case).0,
            strings(notes@) == notes0 + stored_plan(stored@.take(i as int), wanted, ignore_case).1,
        decreases stored@.len() - i,
    {
        let s = &stored[i].0;
        let ghost (r1, n1) = (strings(roots@), strings(notes@));
        let ghost (pr, pn) = stored_plan(stored@.take(i as int), wanted, ignore_case);
        proof {
            assert(stored@.take(i + 1).drop_last() =~= stored@.take(i as int));
            assert(stored@.take(i + 1).last() == stored@[i as int]);
        }
        if any_removed(&removed, s, ignore_case) {
            let note = s.clone().concat(": removed");
            notes.push(note);
            assert(strings(notes@) =~= n1.push(note@));
            assert(strings(notes@) =~= notes0 + pn.push(note@));
        } else if !stored[i].1 {
            let note = s.clone().concat(": no longer exists, dropped from the index");
            notes.push(note);
            assert(strings(notes@) =~= n1.push(note@));
            assert(strings(notes@) =~= notes0 + pn.push(note@));
        } else {
            let root = s.clone();
            roots.push(root);
            assert(strings(roots@) =~= r1.push(root@));
            assert(strings(roots@) =~= roots0 + pr.push(root@));
        }
        i = i + 1;
    }
    assert(stored@.take(i as int) =~= stored@);
    Ok(RootPlan { roots, notes })
}

/// A path lies inside another if it is that path, or starts with it and goes on
/// with a separator, there or just before.
pub proof fn law_within_exactly(child: Seq<u8>, parent: Seq<u8>)
    ensures
        within(child, parent) <==> child == parent || exists|rest: Seq<u8>|
            rest.len() > 0 && child == #[trigger] (parent + rest) && (rest[0] == 47 || rest[0] == 92
                || parent.len() > 0 && (parent.last() == 47 || parent.last() == 92)),
{
    if within(child, parent) && child != parent {
        let rest = child.skip(parent.len() as int);
        assert(child =~= parent + rest);
        if rest.len() == 0 {
            assert(child =~= parent);
        }
    }
    if child == parent {
        assert(child.take(parent.len() as int) =~= parent);
    }
    if exists|rest: Seq<u8>|
        rest.len() > 0 && child == #[trigger] (parent + rest) && (rest[0] == 47 || rest[0] == 92
            || parent.len() > 0 && (parent.last() == 47 || parent.last() == 92)) {
        let rest = choose|rest: Seq<u8>|
            rest.len() > 0 && child == #[trigger] (parent + rest) && (rest[0] == 47 || rest[0] == 92
                || parent.len() > 0 && (parent.last() == 47 || parent.last() == 92));
        assert(child.take(parent.len() as int) =~= parent);
        assert(child[parent.len() as int] == rest[0]);
    }
}

/// Every root is either kept or dropped, and one that is dropped is named with
/// a root that is kept and that it lies inside.
pub proof fn law_dropped(rs: Seq<Seq<u8>>)
    ensures
        collapsed(rs).0.len() + collapsed(rs).1.len() == rs.len(),
        forall|r: Seq<u8>| #[trigger]
            rs.contains(r) ==> collapsed(rs).0.contains(r) || exists|d: int|
                0 <= d < collapsed(rs).1.len() && (#[trigger] collapsed(rs).1[d]).0 == r,
        forall|d: int|
            0 <= d < collapsed(rs).1.len() ==> rs.contains((#[trigger] collapsed(rs).1[d]).0)
                && collapsed(rs).0.contains(collapsed(rs).1[d].1) && within(
                collapsed(rs).1[d].0,
                collapsed(rs).1[d].1,
            ),
    decreases rs.len(),
{
    if rs.len() > 0 {
        let short = rs.drop_last();
        let last = rs.last();
        law_dropped(short);
        let (kept, dropped) = collapsed(short);
        let (now, gone) = collapsed(rs);
        lemma_cover_bounds(kept, last);
        assert(rs[rs.len() - 1] == last);
        assert forall|r: Seq<u8>| #[trigger] kept.contains(r) implies now.contains(r) by {
            let k = choose|k: int| 0 <= k < kept.len() && kept[k] == r;
            assert(now[k] == r);
        }
        assert forall|r: Seq<u8>| #[trigger] short.contains(r) implies rs.contains(r) by {
            let k = choose|k: int| 0 <= k < short.len() && short[k] == r;
            assert(rs[k] == r);
        }
        assert forall|r: Seq<u8>| #[trigger] rs.contains(r) implies now.contains(r) || exists|d: int|
            0 <= d < gone.len() && (#[trigger] gone[d]).0 == r by {
            let k = choose|k: int| 0 <= k < rs.len() && rs[k] == r;
            if k < short.len() {
                assert(short[k] == r);
                assert(short.contains(r));
                if !kept.contains(r) {
                    let d = choose|d: int| 0 <= d < dropped.len() && (#[trigger] dropped[d]).0 == r;
                    assert(gone[d] == dropped[d]);
                }
            } else if cover_of(kept, last) is None {
                assert(now[kept.len() as int] == r);
            } else {
                assert(gone[dropped.len() as int].0 == r);
            }
        }
        assert forall|d: int| 0 <= d < gone.len() implies rs.contains((#[trigger] gone[d]).0)
            && now.contains(gone[d].1) && within(gone[d].0, gone[d].1) by {
            if d < dropped.len() {
                assert(gone[d] == dropped[d]);
                assert(short.contains(dropped[d].0));
                assert(kept.contains(dropped[d].1));
            } else {
                let k = cover_of(kept, last).unwrap();
                assert(kept.contains(kept[k]));
            }
        }
    }
}

proof fn lemma_trimmed(s: Seq<char>)
    ensures
        trimmed(s).len() <= s.len(),
        s.len() > 0 && (s.last() == '/' || s.last() == '\\') ==> trimmed(s) == trimmed(s.drop_last()),
        !(s.len() > 0 && (s.last() == '/' || s.last() == '\\')) ==> trimmed(s) == s,
    decreases s.len(),
{
    if s.len() > 0 && is_separator(s.last()) {
        lemma_trimmed(s.drop_last());
    }
}

proof fn lemma_lower(a: char, b: char)
    ensures
        lower(a) == lower(b) <==> a == b || 65 <= a as u32 <= 90 && b as u32 == a as u32 + 32 || 65
            <= b as u32 <= 90 && a as u32 == b as u32 + 32,
{
    assert('A' as u32 == 65 && 'Z' as u32 == 90);
}

/// A separator at the end of either root makes no difference.
pub proof fn law_same_but_separators(
    a: Seq<char>,
    b: Seq<char>,
    sep: char,
    ignore_case: bool,
)
    requires
        sep == '/' || sep == '\\',
    ensures
        same(a.push(sep), b, ignore_case) == same(a, b, ignore_case),
        same(a, b.push(sep), ignore_case) == same(a, b, ignore_case),
{
    assert(a.push(sep).drop_last() =~= a);
    assert(b.push(sep).drop_last() =~= b);
    lemma_trimmed(a.push(sep));
    lemma_trimmed(b.push(sep));
}

/// Without separators at their ends, two roots are the same if their texts are;
/// where case is ignored, if their texts differ in the case of ASCII letters
/// only.
pub proof fn law_same_texts(a: Seq<char>, b: Seq<char>)
    requires
        a.len() > 0 ==> a.last() != '/' && a.last() != '\\',
        b.len() > 0 ==> b.last() != '/' && b.last() != '\\',
    ensures
        same(a, b, false) <==> a == b,
        same(a, b, true) <==> a.len() == b.len() && forall|i: int|
            0 <= i < a.len() ==> #[trigger] a[i] == b[i] || 65 <= a[i] as u32 <= 90 && b[i] as u32
                == a[i] as u32 + 32 || 65 <= b[i] as u32 <= 90 && a[i] as u32 == b[i] as u32 + 32,
{
    lemma_trimmed(a);
    lemma_trimmed(b);
    if a.len() == b.len() {
        assert forall|i: int| 0 <= i < a.len() implies (lower(#[trigger] a[i]) == lower(b[i]) <==> a[i]
            == b[i] || 65 <= a[i] as u32 <= 90 && b[i] as u32 == a[i] as u32 + 32 || 65
            <= b[i] as u32 <= 90 && a[i] as u32 == b[i] as u32 + 32) by {
            lemma_lower(a[i], b[i]);
        }
    }
}

/// Whether a stored root stays: it is a directory, and none of the roots to be
/// removed, at whatever place in their list, is the same root.
pub open spec fn stays(root: (String, bool), removed: Seq<Seq<char>>, ignore_case: bool) -> bool {
    root.1 && forall|k: int|
        0 <= k < removed.len() ==> !same(root.0@, #[trigger] removed[k], ignore_case)
}

/// Of the stored roots exactly those stay that are directories and are not to
/// be removed; no root that stays is the same as any of those to be removed.
pub proof fn law_removed_roots_go(
    stored: Seq<(String, bool)>,
    removed: Seq<Seq<char>>,
    ignore_case: bool,
)
    ensures
        forall|r: Seq<char>| #[trigger]
            stored_plan(stored, removed, ignore_case).0.contains(r) <==> exists|i: int|
                0 <= i < stored.len() && (#[trigger] stored[i]).0@ == r && stays(
                    stored[i],
                    removed,
                    ignore_case,
                ),
        forall|r: Seq<char>, k: int|
            #[trigger] stored_plan(stored, removed, ignore_case).0.contains(r) && 0 <= k
                < removed.len() ==> !same(r, #[trigger] removed[k], ignore_case),
    decreases stored.len(),
{
    let plan = stored_plan(stored, removed, ignore_case).0;
    if stored.len() > 0 {
        let short = stored.drop_last();
        let last = stored.last();
        let before = stored_plan(short, removed, ignore_case).0;
        law_removed_roots_go(short, removed, ignore_case);
        assert(stored[stored.len() - 1] == last);
        if stays(last, removed, ignore_case) {
            assert(!is_removed(removed, last.0@, ignore_case));
            assert(plan == before.push(last.0@));
        } else {
            if last.1 {
                let k = choose|k: int|
                    0 <= k < removed.len() && same(last.0@, #[trigger] removed[k], ignore_case);
                assert(is_removed(removed, last.0@, ignore_case));
            }
            assert(plan == before);
        }
        assert forall|r: Seq<char>| #[trigger] plan.contains(r) <==> exists|i: int|
            0 <= i < stored.len() && (#[trigger] stored[i]).0@ == r && stays(
                stored[i],
                removed,
                ignore_case,
            ) by {
            if plan.contains(r) {
                let k = choose|k: int| 0 <= k < plan.len() && plan[k] == r;
                if k < before.len() {
                    assert(before[k] == r);
                    assert(before.contains(r));
                    let i = choose|i: int|
                        0 <= i < short.len() && (#[trigger] short[i]).0@ == r && stays(
                            short[i],
                            removed,
                            ignore_case,
                        );
                    assert(stored[i] == short[i]);
                }
            }
            if exists|i: int|
                0 <= i < stored.len() && (#[trigger] stored[i]).0@ == r && stays(
                    stored[i],
                    removed,
                    ignore_case,
                ) {
                let i = choose|i: int|
                    0 <= i < stored.len() && (#[trigger] stored[i]).0@ == r && stays(
                        stored[i],
                        removed,
                        ignore_case,
                    );
                if i < short.len() {
                    assert(short[i] == stored[i]);
                    assert(before.contains(r));
                    let k = choose|k: int| 0 <= k < before.len() && before[k] == r;
                    assert(plan[k] == r);
                } else {
                    assert(plan[before.len() as int] == r);
                }
            }
        }
    }
}

/// What becomes of one stored root: it stays without a note, or goes with one
/// that says whether it was removed or has vanished.
pub proof fn law_one_root_planned(
    root: (String, bool),
    removed: Seq<Seq<char>>,
    ignore_case: bool,
)
    ensures
        ({
            let (roots, notes) = stored_plan(seq![root], removed, ignore_case);
            let gone = exists|k: int|
                0 <= k < removed.len() && same(root.0@, #[trigger] removed[k], ignore_case);
            &&& gone ==> roots.len() == 0 && notes == seq![root.0@ + ": removed"@]
            &&& !gone && !root.1 ==> roots.len() == 0 && notes == seq![
                root.0@ + ": no longer exists, dropped from the index"@,
            ]
            &&& !gone && root.1 ==> roots == seq![root.0@] && notes.len() == 0
        }),
{
    let one = seq![root];
    let none: Seq<Seq<char>> = seq![];
    assert(one.drop_last() =~= seq![]);
    assert(stored_plan(one.drop_last(), removed, ignore_case) == (none, none));
    assert(one.last() == root);
    assert(none.push(root.0@) =~= seq![root.0@]);
    assert(none.push(root.0@ + ": removed"@) =~= seq![root.0@ + ": removed"@]);
    assert(none.push(root.0@ + ": no longer exists, dropped from the index"@) =~= seq![
        root.0@ + ": no longer exists, dropped from the index"@,
    ]);
}

/// Stored roots are gone through one by one, in order, with their notes.
pub proof fn law_roots_planned_in_order(
    a: Seq<(String, bool)>,
    b: Seq<(String, bool)>,
    removed: Seq<Seq<char>>,
    ignore_case: bool,
)
    ensures
        stored_plan(a + b, removed, ignore_case).0 == stored_plan(a, removed, ignore_case).0
            + stored_plan(b, removed, ignore_case).0,
        stored_plan(a + b, removed, ignore_case).1 == stored_plan(a, removed, ignore_case).1
            + stored_plan(b, removed, ignore_case).1,
    decreases b.len(),
{
    let (x, y, z) = (
        stored_plan(a, removed, ignore_case),
        stored_plan(b, removed, ignore_case),
        stored_plan(a + b, removed, ignore_case),
    );
    if b.len() == 0 {
        assert(a + b =~= a);
        assert(x.0 + y.0 =~= x.0);
        assert(x.1 + y.1 =~= x.1);
    } else {
        law_roots_planned_in_order(a, b.drop_last(), removed, ignore_case);
        assert((a + b).drop_last() =~= a + b.drop_last());
        assert((a + b).last() == b.last());
        assert(z.0 =~= x.0 + y.0);
        assert(z.1 =~= x.1 + y.1);
    }
}

/// There is a note for every root to be removed that is none of the stored
/// ones, in order, and for no other.
pub proof fn law_unknown_roots_noted(
    stored: Seq<Seq<char>>,
    a: Seq<Seq<char>>,
    r: Seq<char>,
    ignore_case: bool,
)
    ensures
        removal_notes(stored, seq![], ignore_case).len() == 0,
        removal_notes(stored, a.push(r), ignore_case) == removal_notes(stored, a, ignore_case)
            + if exists|i: int| 0 <= i < stored.len() && same(#[trigger] stored[i], r, ignore_case) {
            seq![]
        } else {
            seq![r + ": not in the index"@]
        },
{
    let before = removal_notes(stored, a, ignore_case);
    assert(a.push(r).drop_last() =~= a);
    assert(before.push(r + ": not in the index"@) =~= before + seq![r + ": not in the index"@]);
    assert(before + seq![] =~= before);
}

/// A root to be removed goes by its canonical path; one that has none, by the
/// path as typed.
pub proof fn law_removals(remove: Seq<(Option<String>, String)>, i: int)
    requires
        0 <= i < remove.len(),
    ensures
        removals(remove).len() == remove.len(),
        remove[i].0 matches Some(c) ==> removals(remove)[i] == c@,
        remove[i].0 is None ==> removals(remove)[i] == plain_path(remove[i].1@),
{
}

/// The roots that are kept stay in order.
pub proof fn law_kept_in_order(rs: Seq<Seq<u8>>)
    requires
        ascending(rs, false),
    ensures
        ascending(collapsed(rs).0, false),
    decreases rs.len(),
{
    if rs.len() > 0 {
        let short = rs.drop_last();
        let kept = collapsed(short).0;
        let now = collapsed(rs).0;
        law_kept_in_order(short);
        law_collapsed(short);
        assert forall|i: int, j: int| 0 <= i < j < now.len() implies before(
            #[trigger] now[i],
            #[trigger] now[j],
            false,
        ) by {
            assert(now[i] == kept[i]);
            if j < kept.len() {
                assert(now[j] == kept[j]);
            } else {
                assert(short.contains(kept[i]));
                let m = choose|m: int| 0 <= m < short.len() && short[m] == kept[i];
                assert(before(rs[m], rs[rs.len() - 1], false));
            }
        }
    }
}

} // verus!

//! Which files an index covers.

use vstd::prelude::*;

use crate::order::{is_path_order, path_before, path_order, path_texts};
use crate::read::{first_nul, lemma_first_nul, lemma_first_nul_bound, strings};
use crate::strset::{copy, copy_set, texts};
use crate::text::{
    find_char, from_chars, index_of_char, lemma_find_char, lemma_find_char_bound, occurs, occurs_in,
    same_text, to_chars, trim, trim_chars,
};
use crate::trigram::{lossy, lossy_text, MAX_FILE_LEN};

verus! {

/// How an index is built.
#[derive(Debug, Clone, Copy, PartialEq, Eq, Structural)]
pub struct BuildOptions {
    pub verbose: bool,
    /// Approximate bytes of source text processed per batch.
    pub batch_bytes: u64,
    /// Files larger than this are skipped, and counted as skipped.
    pub max_file_bytes: u64,
    /// Take the file list from `git ls-files` for roots inside a work tree,
    /// so ignored files are never indexed. Roots outside a repository, or a
    /// machine without git, fall back to walking.
    pub git: bool,
}

impl Default for BuildOptions {
    fn default() -> (o: BuildOptions)
        ensures
            o == (BuildOptions {
                verbose: false,
                batch_bytes: 0x1000_0000,
                max_file_bytes: MAX_FILE_LEN,
                git: false,
            }),
    {
        BuildOptions {
            verbose: false,
            batch_bytes: 0x1000_0000,
            max_file_bytes: MAX_FILE_LEN,
            git: false,
        }
    }
}

/// Whether a file or directory of this name is passed over: a hidden one, or
/// what an editor leaves behind.
pub open spec fn passed_over(name: Seq<char>) -> bool {
    name.len() > 0 && (name[0] == '.' || name[0] == '#' || name[0] == '~' || name.last() == '~')
}

/// Whether a file or directory of this name is passed over.
pub fn skip_name(name: &str) -> (r: bool)
    ensures
        r == passed_over(name@),
{
    let s = to_chars(name);
    let n: usize = s.len();
    n > 0 && (s[0] == '.' || s[0] == '#' || s[0] == '~' || s[n - 1] == '~')
}

/// Whether a path below a root is passed over because of one of its
/// components; `.` is none.
pub open spec fn hidden(components: Seq<Seq<char>>) -> bool {
    exists|i: int|
        0 <= i < components.len() && #[trigger] components[i] != "."@ && passed_over(components[i])
}

/// Whether a path below a root is passed over because of one of its
/// components.
pub fn is_hidden(components: &[String]) -> (r: bool)
    ensures
        r == hidden(strings(components@)),
{
    let ghost all = strings(components@);
    let mut i: usize = 0;
    while i < components.len()
        invariant
            i <= components@.len(),
            all == strings(components@),
            forall|k: int|
                0 <= k < i ==> !(#[trigger] all[k] != "."@ && passed_over(all[k])),
        decreases components@.len() - i,
    {
        if !same_text(&components[i], ".") && skip_name(&components[i]) {
            assert(all[i as int] != "."@ && passed_over(all[i as int]));
            return true;
        }
        i = i + 1;
    }
    false
}

/// What becomes of a file that was found.
#[derive(Debug, Clone, Copy, PartialEq, Eq, Structural)]
pub enum Verdict {
    /// It is indexed.
    Keep,
    /// It is counted as skipped, being over the size limit.
    TooLarge,
    /// It is not a file to be indexed at all.
    Ignore,
}

/// What becomes of a path that was found. `file` is whether it is a regular
/// file, and its length, unless it has vanished. Hidden files, symbolic links,
/// directories and files deleted since are left out, and so are files over the
/// limit, which are counted.
pub open spec fn verdict(hidden: bool, file: Option<(bool, u64)>, max_file_bytes: u64) -> Verdict {
    match file {
        Some((regular, len)) => if hidden || !regular {
            Verdict::Ignore
        } else if len > max_file_bytes {
            Verdict::TooLarge
        } else {
            Verdict::Keep
        },
        None => Verdict::Ignore,
    }
}

/// What becomes of a path that was found.
pub fn judge(hidden: bool, file: Option<(bool, u64)>, max_file_bytes: u64) -> (v: Verdict)
    ensures
        v == verdict(hidden, file, max_file_bytes),
{
    if hidden {
        return Verdict::Ignore;
    }
    match file {
        Some((regular, len)) => {
            if !regular {
                Verdict::Ignore
            } else if len > max_file_bytes {
                Verdict::TooLarge
            } else {
                Verdict::Keep
            }
        },
        None => Verdict::Ignore,
    }
}

/// The paths that are kept, each with its length.
pub open spec fn kept_files<P>(
    seen: Seq<(P, bool, Option<(bool, u64)>)>,
    max_file_bytes: u64,
) -> Seq<(P, u64)>
    decreases seen.len(),
{
    if seen.len() == 0 {
        seq![]
    } else {
        let before = kept_files(seen.drop_last(), max_file_bytes);
        let (path, hidden, file) = seen.last();
        if verdict(hidden, file, max_file_bytes) == Verdict::Keep {
            before.push((path, file.unwrap().1))
        } else {
            before
        }
    }
}

/// The paths that are over the size limit, each with its length.
pub open spec fn large_files<P>(
    seen: Seq<(P, bool, Option<(bool, u64)>)>,
    max_file_bytes: u64,
) -> Seq<(P, u64)>
    decreases seen.len(),
{
    if seen.len() == 0 {
        seq![]
    } else {
        let before = large_files(seen.drop_last(), max_file_bytes);
        let (path, hidden, file) = seen.last();
        if verdict(hidden, file, max_file_bytes) == Verdict::TooLarge {
            before.push((path, file.unwrap().1))
        } else {
            before
        }
    }
}

/// The files to index among the paths that were found, each path with whether
/// it is hidden and what it is: those that are kept, with their lengths, and
/// those over the limit, with theirs.
pub fn sift<P>(seen: Vec<(P, bool, Option<(bool, u64)>)>, max_file_bytes: u64) -> (r: (
    Vec<(P, u64)>,
    Vec<(P, u64)>,
))
    ensures
        r.0@ == kept_files(seen@, max_file_bytes),
        r.1@ == large_files(seen@, max_file_bytes),
        r.0@.len() + r.1@.len() <= seen@.len(),
{
    let ghost all = seen@;
    let mut left = seen;
    let mut back: Vec<(P, bool, Option<(bool, u64)>)> = Vec::new();
    while left.len() > 0
        invariant
            all == seen@,
            left@.len() + back@.len() == all.len(),
            left@ + back@.reverse() =~= all,
        decreases left@.len(),
    {
        let item = left.pop().unwrap();
        back.push(item);
    }
    let mut kept: Vec<(P, u64)> = Vec::new();
    let mut over: Vec<(P, u64)> = Vec::new();
    let ghost mut n: int = 0;
    assert(all.take(0) =~= seq![]);
    while back.len() > 0
        invariant
            0 <= n <= all.len(),
            back@.reverse() =~= all.skip(n),
            back@.len() == all.len() - n,
            kept@ == kept_files(all.take(n), max_file_bytes),
            over@ == large_files(all.take(n), max_file_bytes),
            kept@.len() + over@.len() <= n,
        decreases back@.len(),
    {
        let ghost rest = back@;
        let (path, hidden, file) = back.pop().unwrap();
        proof {
            assert(rest.reverse()[0] == rest.last());
            assert(all.skip(n)[0] == all[n]);
            assert(all.take(n + 1).drop_last() =~= all.take(n));
            assert(all.take(n + 1).last() == all[n]);
            assert(back@.reverse() =~= all.skip(n + 1)) by {
                assert forall|i: int| 0 <= i < back@.len() implies back@.reverse()[i]
                    == all.skip(n + 1)[i] by {
                    assert(rest.reverse()[i + 1] == all.skip(n)[i + 1]);
                }
            }
            n = n + 1;
        }
        match judge(hidden, file, max_file_bytes) {
            Verdict::Keep => {
                if let Some((_, len)) = file {
                    kept.push((path, len));
                }
            },
            Verdict::TooLarge => {
                if let Some((_, len)) = file {
                    over.push((path, len));
                }
            },
            Verdict::Ignore => {},
        }
    }
    assert(all.take(n) =~= all);
    (kept, over)
}

/// A path that was found, and its components.
#[derive(Debug)]
pub struct Found<P> {
    pub path: P,
    pub components: Vec<Vec<u8>>,
}

/// The components of the paths of files.
pub open spec fn keys<P>(files: Seq<(Found<P>, u64)>) -> Seq<Seq<Seq<u8>>> {
    Seq::new(files.len(), |i: int| texts(files[i].0.components@))
}

/// Items taken in the given order.
pub open spec fn rearranged<T>(items: Seq<T>, order: Seq<usize>) -> Seq<T> {
    Seq::new(order.len(), |i: int| items[order[i] as int])
}

/// Whether `r` is the files in path order.
pub open spec fn sorted_files<P>(files: Seq<(Found<P>, u64)>, r: Seq<(Found<P>, u64)>) -> bool {
    exists|order: Seq<usize>| #[trigger]
        is_path_order(keys(files), order) && r == rearranged(files, order)
}

/// Items taken in the given order, which names each exactly once.
fn rearrange<T>(items: Vec<T>, order: &[usize]) -> (r: Vec<T>)
    requires
        order@.len() == items@.len(),
        order@.no_duplicates(),
        forall|i: int| 0 <= i < order@.len() ==> order@[i] < items@.len(),
    ensures
        r@ == rearranged(items@, order@),
{
    let ghost all = items@;
    let mut left = items;
    let mut back: Vec<T> = Vec::new();
    while left.len() > 0
        invariant
            left@ + back@.reverse() =~= all,
        decreases left@.len(),
    {
        let item = left.pop().unwrap();
        back.push(item);
    }
    let mut slots: Vec<Option<T>> = Vec::new();
    while back.len() > 0
        invariant
            slots@.len() + back@.len() == all.len(),
            back@.reverse() =~= all.skip(slots@.len() as int),
            forall|k: int| 0 <= k < slots@.len() ==> #[trigger] slots@[k] == Some(all[k]),
        decreases back@.len(),
    {
        let ghost rest = back@;
        let ghost n = slots@.len() as int;
        let item = back.pop().unwrap();
        slots.push(Some(item));
        proof {
            assert(rest.reverse()[0] == rest.last());
            assert(all.skip(n)[0] == all[n]);
            assert forall|i: int| 0 <= i < back@.len() implies back@.reverse()[i] == all.skip(
                n + 1,
            )[i] by {
                assert(rest.reverse()[i + 1] == all.skip(n)[i + 1]);
            }
        }
    }
    let mut out: Vec<T> = Vec::new();
    let mut i: usize = 0;
    while i < order.len()
        invariant
            i <= order@.len() == all.len(),
            all == items@,
            order@.no_duplicates(),
            forall|k: int| 0 <= k < order@.len() ==> order@[k] < all.len(),
            slots@.len() == all.len(),
            forall|k: int| i <= k < order@.len() ==> slots@[#[trigger] order@[k] as int] == Some(
                all[order@[k] as int],
            ),
            out@ =~= rearranged(all, order@).take(i as int),
        decreases order@.len() - i,
    {
        let k: usize = order[i];
        assert(slots@[order@[i as int] as int] == Some(all[order@[i as int] as int]));
        let item = slots[k].take().unwrap();
        out.push(item);
        i = i + 1;
    }
    out
}

/// The files to index among the paths that were found, each path with whether
/// it is hidden and what it is: those that are kept, with their lengths, in
/// path order, so that file ids are; and those over the limit, with theirs.
pub fn collect_files<P>(
    seen: Vec<(Found<P>, bool, Option<(bool, u64)>)>,
    max_file_bytes: u64,
) -> (r: (Vec<(Found<P>, u64)>, Vec<(Found<P>, u64)>))
    ensures
        sorted_files(kept_files(seen@, max_file_bytes), r.0@),
        forall|i: int, j: int|
            0 <= i < j < r.0@.len() ==> !path_before(
                texts((#[trigger] r.0@[j]).0.components@),
                texts((#[trigger] r.0@[i]).0.components@),
            ),
        r.1@ == large_files(seen@, max_file_bytes),
        r.0@.len() + r.1@.len() <= seen@.len(),
{
    let (kept, over) = sift(seen, max_file_bytes);
    let ghost all = kept@;
    let mut paths: Vec<Vec<Vec<u8>>> = Vec::new();
    let mut i: usize = 0;
    while i < kept.len()
        invariant
            i <= kept@.len(),
            kept@ == all,
            path_texts(paths@) =~= keys(all).take(i as int),
        decreases kept@.len() - i,
    {
        let ghost so_far = path_texts(paths@);
        let path = copy_set(&kept[i].0.components);
        paths.push(path);
        assert(path_texts(paths@) =~= so_far.push(texts(path@)));
        i = i + 1;
    }
    assert(path_texts(paths@) =~= keys(all));
    let order = path_order(&paths);
    proof {
        assert forall|i: int| 0 <= i < order@.len() implies order@[i] < all.len() by {
            assert(order@.contains(order@[i]));
        }
    }
    let files = rearrange(kept, &order);
    proof {
        assert(is_path_order(keys(all), order@));
        assert forall|i: int, j: int| 0 <= i < j < files@.len() implies !path_before(
            texts((#[trigger] files@[j]).0.components@),
            texts((#[trigger] files@[i]).0.components@),
        ) by {
            let (a, b) = (order@[i], order@[j]);
            assert(!path_before(keys(all)[b as int], keys(all)[a as int]));
        }
    }
    (files, over)
}

/// A path is hidden if and only if one of its components, the first, the last
/// or any between, is a name other than `.` that starts with a dot, a hash or a
/// tilde, or ends with a tilde.
pub proof fn law_hidden(components: Seq<Seq<char>>)
    ensures
        hidden(components) <==> exists|i: int|
            0 <= i < components.len() && (#[trigger] components[i]).len() > 0 && components[i]
                != seq!['.'] && (seq!['.', '#', '~'].contains(components[i][0])
                || components[i].last() == '~'),
{
    reveal_strlit(".");
    assert("."@ =~= seq!['.']);
    let marks = seq!['.', '#', '~'];
    assert(marks[0] == '.' && marks[1] == '#' && marks[2] == '~');
    assert(marks.contains('.') && marks.contains('#') && marks.contains('~'));
    assert forall|c: char| #[trigger] marks.contains(c) implies c == '.' || c == '#' || c
        == '~' by {}
}

/// A directory that is passed over hides everything below it, and a path is
/// hidden only by what stands in it: of a path in two parts, if and only if one
/// of the parts hides it.
pub proof fn law_hidden_below(above: Seq<Seq<char>>, below: Seq<Seq<char>>)
    ensures
        hidden(above + below) <==> hidden(above) || hidden(below),
{
    let all = above + below;
    if hidden(above) {
        let i = choose|i: int|
            0 <= i < above.len() && #[trigger] above[i] != "."@ && passed_over(above[i]);
        assert(all[i] == above[i]);
    }
    if hidden(below) {
        let i = choose|i: int|
            0 <= i < below.len() && #[trigger] below[i] != "."@ && passed_over(below[i]);
        assert(all[above.len() + i] == below[i]);
    }
    if hidden(all) {
        let i = choose|i: int|
            0 <= i < all.len() && #[trigger] all[i] != "."@ && passed_over(all[i]);
        if i < above.len() {
            assert(above[i] == all[i]);
        } else {
            assert(below[i - above.len()] == all[i]);
        }
    }
}

/// A single path that was found is kept if it is a regular file that is not
/// hidden and has no more bytes than the limit; with more it is over the limit;
/// anything else is neither.
pub proof fn law_one_file_judged<P>(
    found: (P, bool, Option<(bool, u64)>),
    max_file_bytes: u64,
)
    ensures
        ({
            let (path, hidden, file) = found;
            let kept = kept_files(seq![found], max_file_bytes);
            let large = large_files(seq![found], max_file_bytes);
            match file {
                Some((true, len)) if !hidden => {
                    &&& len <= max_file_bytes ==> kept == seq![(path, len)] && large.len() == 0
                    &&& len > max_file_bytes ==> kept.len() == 0 && large == seq![(path, len)]
                },
                _ => kept.len() == 0 && large.len() == 0,
            }
        }),
{
    let one = seq![found];
    assert(one.drop_last() =~= seq![]);
    assert(one.last() == found);
    let none: Seq<(P, u64)> = seq![];
    assert(kept_files(one.drop_last(), max_file_bytes) == none);
    assert(large_files(one.drop_last(), max_file_bytes) == none);
    if let Some((_, len)) = found.2 {
        assert(none.push((found.0, len)) =~= seq![(found.0, len)]);
    }
}

/// Paths are judged one by one, and stay in the order in which they were
/// found: what is kept of two lists is what is kept of the one and then what is
/// kept of the other, and so is what is over the limit.
pub proof fn law_files_judged_in_order<P>(
    a: Seq<(P, bool, Option<(bool, u64)>)>,
    b: Seq<(P, bool, Option<(bool, u64)>)>,
    max_file_bytes: u64,
)
    ensures
        kept_files(a + b, max_file_bytes) == kept_files(a, max_file_bytes) + kept_files(
            b,
            max_file_bytes,
        ),
        large_files(a + b, max_file_bytes) == large_files(a, max_file_bytes) + large_files(
            b,
            max_file_bytes,
        ),
    decreases b.len(),
{
    if b.len() == 0 {
        assert(a + b =~= a);
        assert(kept_files(a, max_file_bytes) + kept_files(b, max_file_bytes) =~= kept_files(
            a,
            max_file_bytes,
        ));
        assert(large_files(a, max_file_bytes) + large_files(b, max_file_bytes) =~= large_files(
            a,
            max_file_bytes,
        ));
    } else {
        let short = b.drop_last();
        law_files_judged_in_order(a, short, max_file_bytes);
        assert((a + b).drop_last() =~= a + short);
        assert((a + b).last() == b.last());
        assert(kept_files(a + b, max_file_bytes) =~= kept_files(a, max_file_bytes) + kept_files(
            b,
            max_file_bytes,
        ));
        assert(large_files(a + b, max_file_bytes) =~= large_files(a, max_file_bytes) + large_files(
            b,
            max_file_bytes,
        ));
    }
}

/// A file is kept, or is over the limit, if and only if its path was found and
/// judged so.
pub proof fn law_files_judged<P>(
    seen: Seq<(P, bool, Option<(bool, u64)>)>,
    max_file_bytes: u64,
    path: P,
    len: u64,
)
    ensures
        kept_files(seen, max_file_bytes).contains((path, len)) <==> exists|i: int|
            0 <= i < seen.len() && (#[trigger] seen[i]).0 == path && verdict(
                seen[i].1,
                seen[i].2,
                max_file_bytes,
            ) == Verdict::Keep && seen[i].2.unwrap().1 == len,
        large_files(seen, max_file_bytes).contains((path, len)) <==> exists|i: int|
            0 <= i < seen.len() && (#[trigger] seen[i]).0 == path && verdict(
                seen[i].1,
                seen[i].2,
                max_file_bytes,
            ) == Verdict::TooLarge && seen[i].2.unwrap().1 == len,
    decreases seen.len(),
{
    let (kept, large) = (kept_files(seen, max_file_bytes), large_files(seen, max_file_bytes));
    if seen.len() > 0 {
        let short = seen.drop_last();
        let last = seen.last();
        law_files_judged(short, max_file_bytes, path, len);
        let v = verdict(last.1, last.2, max_file_bytes);
        lemma_pushed(kept_files(short, max_file_bytes), (last.0, last.2.unwrap().1), (path, len));
        lemma_pushed(large_files(short, max_file_bytes), (last.0, last.2.unwrap().1), (path, len));
        assert forall|i: int| 0 <= i < short.len() implies short[i] == #[trigger] seen[i] by {}
        assert(seen[seen.len() - 1] == last);
        assert(kept.contains((path, len)) <==> kept_files(short, max_file_bytes).contains(
            (path, len),
        ) || v == Verdict::Keep && last.0 == path && last.2.unwrap().1 == len);
        assert(large.contains((path, len)) <==> large_files(short, max_file_bytes).contains(
            (path, len),
        ) || v == Verdict::TooLarge && last.0 == path && last.2.unwrap().1 == len);
    }
}

proof fn lemma_pushed<T>(s: Seq<T>, x: T, y: T)
    ensures
        s.push(x).contains(y) <==> s.contains(y) || x == y,
{
    assert(s.push(x)[s.len() as int] == x);
    if s.contains(y) {
        let k = choose|k: int| 0 <= k < s.len() && s[k] == y;
        assert(s.push(x)[k] == y);
    }
    if s.push(x).contains(y) && x != y {
        let k = choose|k: int| 0 <= k < s.push(x).len() && s.push(x)[k] == y;
        assert(s[k] == y);
    }
}

/// Putting files in path order neither drops nor adds any.
pub proof fn law_sorting_keeps_files<P>(
    files: Seq<(Found<P>, u64)>,
    r: Seq<(Found<P>, u64)>,
    f: (Found<P>, u64),
)
    requires
        sorted_files(files, r),
        files.len() <= usize::MAX,
    ensures
        r.len() == files.len(),
        r.contains(f) <==> files.contains(f),
{
    let order = choose|order: Seq<usize>| #[trigger]
        is_path_order(keys(files), order) && r == rearranged(files, order);
    if r.contains(f) {
        let i = choose|i: int| 0 <= i < r.len() && r[i] == f;
        assert(order.contains(order[i]));
        assert(files[order[i] as int] == f);
    }
    if files.contains(f) {
        let k = choose|k: int| 0 <= k < files.len() && files[k] == f;
        assert(order.contains(k as usize));
        let i = choose|i: int| 0 <= i < order.len() && order[i] == k as usize;
        assert(r[i] == f);
    }
}

/// Outcome of asking git for the file list under a root.
#[derive(Debug)]
pub enum GitList {
    /// The work-tree files: tracked, plus untracked but not ignored, each as
    /// the components of its path below the root.
    Files(Vec<Vec<String>>),
    /// The root is simply not inside a git repository: expected, walk quietly.
    NotARepo,
    /// git could not list the files for some other reason (not installed, or
    /// an error such as "dubious ownership" on a filesystem without
    /// ownership). Carries git's own message so it can be shown, because
    /// silently walking would index files the user asked git to skip.
    Unavailable(String),
}

/// The parts of a text between the `c`s.
pub open spec fn split_at(s: Seq<char>, c: char) -> Seq<Seq<char>>
    decreases s.len(),
{
    let n = find_char(s, c);
    if n >= s.len() {
        seq![s]
    } else {
        seq![s.take(n as int)] + split_at(s.skip(n as int + 1), c)
    }
}

/// The parts of a text between the `c`s.
pub fn split_text(s: &[char], c: char) -> (r: Vec<String>)
    ensures
        strings(r@) == split_at(s@, c),
{
    let len: usize = s.len();
    let mut out: Vec<String> = Vec::new();
    let mut pos: usize = 0;
    proof {
        assert(s@.skip(0) =~= s@);
        assert(strings(out@) + split_at(s@, c) =~= split_at(s@, c));
    }
    loop
        invariant
            pos <= len == s@.len(),
            strings(out@) + split_at(s@.skip(pos as int), c) == split_at(s@, c),
        decreases len - pos,
    {
        let ghost tail = s@.skip(pos as int);
        let ghost so_far = strings(out@);
        let n: usize = index_of_char(s, c, pos);
        let part = from_chars(&s[pos..n]);
        out.push(part);
        proof {
            assert(s@.subrange(pos as int, n as int) =~= tail.take(n - pos));
            assert(strings(out@) =~= so_far.push(part@));
        }
        if n >= len {
            proof {
                assert(tail.take(n - pos) =~= tail);
                assert(so_far + seq![tail] =~= so_far.push(part@));
            }
            return out;
        }
        proof {
            assert(tail.skip(n - pos + 1) =~= s@.skip(n + 1));
            let rest = split_at(s@.skip(n + 1), c);
            assert(so_far + (seq![part@] + rest) =~= so_far.push(part@) + rest);
        }
        pos = n + 1;
    }
}

/// The strings of a NUL-separated list, without the empty ones.
pub open spec fn nul_list(s: Seq<u8>) -> Seq<Seq<u8>>
    decreases s.len(),
{
    let n = first_nul(s);
    if s.len() == 0 {
        seq![]
    } else {
        let rest = if n < s.len() {
            nul_list(s.skip(n as int + 1))
        } else {
            seq![]
        };
        if n == 0 {
            rest
        } else {
            seq![s.take(n as int)] + rest
        }
    }
}

/// The paths that git lists, each as its components; git always prints `/`.
pub open spec fn listed_paths(stdout: Seq<u8>) -> Seq<Seq<Seq<char>>> {
    Seq::new(nul_list(stdout).len(), |i: int| split_at(lossy_text(nul_list(stdout)[i]), '/'))
}

/// The values of lists of components.
pub open spec fn component_lists(v: Seq<Vec<String>>) -> Seq<Seq<Seq<char>>> {
    Seq::new(v.len(), |i: int| strings(v[i]@))
}

/// The strings of a NUL-separated list, without the empty ones.
fn nul_strings(s: &[u8]) -> (r: Vec<Vec<u8>>)
    ensures
        texts(r@) == nul_list(s@),
{
    let len: usize = s.len();
    let mut out: Vec<Vec<u8>> = Vec::new();
    let mut pos: usize = 0;
    proof {
        assert(s@.skip(0) =~= s@);
        assert(texts(out@) + nul_list(s@) =~= nul_list(s@));
    }
    while pos < len
        invariant
            pos <= len == s@.len(),
            texts(out@) + nul_list(s@.skip(pos as int)) == nul_list(s@),
        decreases len - pos,
    {
        let ghost tail = s@.skip(pos as int);
        let ghost so_far = texts(out@);
        let rest = &s[pos..len];
        assert(rest@ =~= tail);
        let n: usize = match memchr::memchr(0, rest) {
            Some(i) => i,
            None => len - pos,
        };
        proof {
            lemma_first_nul(tail, n as nat);
        }
        let next: usize = if n < len - pos { pos + n + 1 } else { len };
        let ghost later = if n < tail.len() { nul_list(tail.skip(n as int + 1)) } else { seq![] };
        proof {
            if n < tail.len() {
                assert(tail.skip(n as int + 1) =~= s@.skip(next as int));
            } else {
                assert(nul_list(s@.skip(len as int)) =~= seq![]);
            }
            assert(later == nul_list(s@.skip(next as int)));
        }
        if n > 0 {
            let piece = copy(&rest[0..n]);
            out.push(piece);
            proof {
                assert(rest@.subrange(0, n as int) =~= tail.take(n as int));
                assert(texts(out@) =~= so_far.push(piece@));
                assert(so_far + (seq![piece@] + later) =~= so_far.push(piece@) + later);
            }
        }
        pos = next;
    }
    proof {
        assert(nul_list(s@.skip(pos as int)) =~= seq![]);
        assert(texts(out@) + nul_list(s@.skip(pos as int))
            =~= texts(out@));
    }
    out
}

/// What git's answer to `ls-files -z` comes to. `outcome` is whether it
/// succeeded, what it printed and what it complained of; absent where git
/// could not be run. A failure counts as "not a repository" if git says so:
/// it reports that and real errors with the same exit code.
pub fn git_list(outcome: Option<(bool, &[u8], &[u8])>) -> (r: GitList)
    ensures
        match outcome {
            None => r matches GitList::Unavailable(m) && m@ == "git could not be run"@,
            Some((true, stdout, _)) => r matches GitList::Files(f) && component_lists(f@)
                == listed_paths(stdout@),
            Some((false, _, stderr)) => {
                let msg = trim(lossy_text(stderr@));
                if occurs(msg, "not a git repository"@) {
                    r is NotARepo
                } else {
                    r matches GitList::Unavailable(m) && m@ == msg
                }
            },
        },
{
    match outcome {
        None => GitList::Unavailable("git could not be run".to_owned()),
        Some((true, stdout, _)) => {
            let raw = nul_strings(stdout);
            let mut files: Vec<Vec<String>> = Vec::new();
            let mut i: usize = 0;
            while i < raw.len()
                invariant
                    i <= raw@.len(),
                    files@.len() == i,
                    forall|k: int|
                        0 <= k < i ==> strings((#[trigger] files@[k])@) == split_at(
                            lossy_text(raw@[k]@),
                            '/',
                        ),
                decreases raw@.len() - i,
            {
                let rel = lossy(&raw[i]);
                let parts = split_text(&to_chars(&rel), '/');
                files.push(parts);
                i = i + 1;
            }
            proof {
                assert forall|k: int| 0 <= k < raw@.len() implies nul_list(stdout@)[k]
                    == #[trigger] raw@[k]@ by {
                    assert(texts(raw@)[k] == raw@[k]@);
                }
                assert(component_lists(files@) =~= listed_paths(stdout@));
            }
            GitList::Files(files)
        },
        Some((false, _, stderr)) => {
            let msg = trim_chars(&to_chars(&lossy(stderr)));
            if occurs_in(&msg, &to_chars("not a git repository")) {
                return GitList::NotARepo;
            }
            GitList::Unavailable(from_chars(&msg))
        },
    }
}

/// The parts of a text are what stands between the separators: a text without
/// one is its own only part, and of a text with one in it the parts are those
/// before it and those after it.
pub proof fn law_split(a: Seq<char>, b: Seq<char>, c: char)
    ensures
        !a.contains(c) ==> split_at(a, c) == seq![a],
        split_at(a + seq![c] + b, c) == split_at(a, c) + split_at(b, c),
    decreases a.len(),
{
    let s = a + seq![c] + b;
    let n = find_char(a, c);
    lemma_find_char_bound(a, c);
    if !a.contains(c) {
        assert forall|j: int| 0 <= j < a.len() implies a[j] != c by {
            assert(a.contains(a[j]));
        }
        lemma_find_char(a, c, a.len());
    }
    assert forall|j: int| 0 <= j < n implies s[j] != c by {
        assert(s[j] == a[j]);
    }
    if n < a.len() {
        let rest = a.skip(n as int + 1);
        assert(s[n as int] == a[n as int]);
        lemma_find_char(s, c, n);
        law_split(rest, b, c);
        assert(s.skip(n as int + 1) =~= rest + seq![c] + b);
        assert(s.take(n as int) =~= a.take(n as int));
        assert(split_at(s, c) =~= split_at(a, c) + split_at(b, c));
    } else {
        assert(s[n as int] == c);
        lemma_find_char(s, c, n);
        assert(s.skip(n as int + 1) =~= b);
        assert(s.take(n as int) =~= a);
        assert(split_at(s, c) =~= split_at(a, c) + split_at(b, c));
    }
}

/// What git lists is what stands between the NULs, but for empty strings:
/// bytes without a NUL are one entry, none if they are no bytes, and of bytes
/// with a NUL among them the entries are those before it and those after it.
pub proof fn law_nul_list(a: Seq<u8>, b: Seq<u8>)
    ensures
        a.len() == 0 ==> nul_list(a).len() == 0,
        a.len() > 0 && !a.contains(0) ==> nul_list(a) == seq![a],
        nul_list(a + seq![0u8] + b) == nul_list(a) + nul_list(b),
    decreases a.len(),
{
    let s = a + seq![0u8] + b;
    let n = first_nul(a);
    lemma_first_nul_bound(a);
    if !a.contains(0) {
        assert forall|j: int| 0 <= j < a.len() implies a[j] != 0 by {
            assert(a.contains(a[j]));
        }
        lemma_first_nul(a, a.len());
        assert(a.take(a.len() as int) =~= a);
        if a.len() > 0 {
            assert(nul_list(a) =~= seq![a]);
        }
    }
    assert forall|j: int| 0 <= j < n implies s[j] != 0 by {
        assert(s[j] == a[j]);
    }
    if n < a.len() {
        let rest = a.skip(n as int + 1);
        assert(s[n as int] == a[n as int]);
        lemma_first_nul(s, n);
        law_nul_list(rest, b);
        assert(s.skip(n as int + 1) =~= rest + seq![0u8] + b);
        assert(s.take(n as int) =~= a.take(n as int));
        assert(nul_list(s) =~= nul_list(a) + nul_list(b));
    } else {
        assert(s[n as int] == 0);
        lemma_first_nul(s, n);
        assert(s.skip(n as int + 1) =~= b);
        assert(s.take(n as int) =~= a);
        assert(a.take(n as int) =~= a);
        assert(nul_list(s) =~= nul_list(a) + nul_list(b));
    }
}

/// The files that git lists are the entries of its answer, one path each, split
/// at the slashes.
pub proof fn law_listed_paths(a: Seq<u8>, b: Seq<u8>)
    ensures
        a.len() > 0 && !a.contains(0) ==> listed_paths(a) == seq![split_at(lossy_text(a), '/')],
        listed_paths(a + seq![0u8] + b) == listed_paths(a) + listed_paths(b),
{
    law_nul_list(a, b);
    if a.len() > 0 && !a.contains(0) {
        assert(listed_paths(a) =~= seq![split_at(lossy_text(a), '/')]);
    }
    assert(listed_paths(a + seq![0u8] + b) =~= listed_paths(a) + listed_paths(b));
}

/// The sum of the sizes from `from` to `to`.
pub open spec fn size_sum(sizes: Seq<u64>, from: int, to: int) -> nat
    decreases to - from,
{
    if to <= from {
        0
    } else {
        size_sum(sizes, from, to - 1) + sizes[to - 1] as nat
    }
}

/// The size of files is the sum of their sizes: of one file its own, and of two
/// stretches of files that of the one and that of the other.
pub proof fn law_size_sum(sizes: Seq<u64>, from: int, mid: int, to: int)
    requires
        from <= mid <= to,
    ensures
        size_sum(sizes, from, from) == 0,
        size_sum(sizes, from, from + 1) == sizes[from],
        size_sum(sizes, from, to) == size_sum(sizes, from, mid) + size_sum(sizes, mid, to),
    decreases to - mid,
{
    reveal_with_fuel(size_sum, 2);
    if mid < to {
        law_size_sum(sizes, from, mid, to - 1);
    }
}

/// Whether the files from `start` to `end` make a batch: at least one file, no
/// more bytes than `batch_bytes` unless it is one file alone, and the next
/// file would be too much.
pub open spec fn is_batch(sizes: Seq<u64>, start: int, end: int, batch_bytes: u64) -> bool {
    &&& start < end <= sizes.len()
    &&& end == start + 1 || size_sum(sizes, start, end) <= batch_bytes
    &&& end < sizes.len() ==> size_sum(sizes, start, end + 1) > batch_bytes
}

/// Where the batch that begins with file `start` ends.
pub fn cut_batch(sizes: &[u64], start: usize, batch_bytes: u64) -> (end: usize)
    requires
        start < sizes@.len(),
    ensures
        is_batch(sizes@, start as int, end as int, batch_bytes),
{
    assert(sizes.len() == sizes@.len());
    let mut end: usize = start + 1;
    let mut bytes: u64 = sizes[start];
    proof {
        reveal_with_fuel(size_sum, 2);
    }
    while end < sizes.len() && bytes <= batch_bytes && sizes[end] <= batch_bytes - bytes
        invariant
            start < end <= sizes@.len(),
            bytes == size_sum(sizes@, start as int, end as int),
            end == start + 1 || bytes <= batch_bytes,
        decreases sizes@.len() - end,
    {
        bytes = bytes + sizes[end];
        end = end + 1;
    }
    end
}

/// Whether these ranges follow one another from 0 to `n`, none of them empty.
pub open spec fn covers(ranges: Seq<(usize, usize)>, n: int) -> bool
    decreases ranges.len(),
{
    if ranges.len() == 0 {
        n == 0
    } else {
        &&& ranges.last().0 < ranges.last().1 == n
        &&& covers(ranges.drop_last(), ranges.last().0 as int)
    }
}

/// The batches in which files of the given sizes are read: from the first file
/// to the last, each where the one before it ends.
pub fn batches(sizes: &[u64], batch_bytes: u64) -> (r: Vec<(usize, usize)>)
    ensures
        covers(r@, sizes@.len() as int),
        forall|i: int|
            0 <= i < r@.len() ==> is_batch(
                sizes@,
                (#[trigger] r@[i]).0 as int,
                r@[i].1 as int,
                batch_bytes,
            ),
{
    let mut r: Vec<(usize, usize)> = Vec::new();
    let mut start: usize = 0;
    while start < sizes.len()
        invariant
            start <= sizes@.len(),
            covers(r@, start as int),
            forall|i: int|
                0 <= i < r@.len() ==> is_batch(
                    sizes@,
                    (#[trigger] r@[i]).0 as int,
                    r@[i].1 as int,
                    batch_bytes,
                ),
        decreases sizes@.len() - start,
    {
        let end: usize = cut_batch(sizes, start, batch_bytes);
        let ghost before = r@;
        r.push((start, end));
        assert(r@.drop_last() =~= before);
        start = end;
    }
    r
}

/// Items taken range by range.
pub open spec fn joined<T>(items: Seq<T>, ranges: Seq<(usize, usize)>) -> Seq<T>
    decreases ranges.len(),
{
    if ranges.len() == 0 {
        seq![]
    } else {
        joined(items, ranges.drop_last()) + items.subrange(
            ranges.last().0 as int,
            ranges.last().1 as int,
        )
    }
}

/// However files are cut into batches, batch after batch gives every file once
/// and in its place.
pub proof fn law_batches_keep_files<T>(items: Seq<T>, ranges: Seq<(usize, usize)>)
    requires
        covers(ranges, items.len() as int),
    ensures
        joined(items, ranges) == items,
{
    lemma_joined(items, ranges, items.len() as int);
    assert(items.take(items.len() as int) =~= items);
}

proof fn lemma_joined<T>(items: Seq<T>, ranges: Seq<(usize, usize)>, n: int)
    requires
        covers(ranges, n),
        n <= items.len(),
    ensures
        0 <= n,
        joined(items, ranges) == items.take(n),
    decreases ranges.len(),
{
    if ranges.len() == 0 {
        assert(items.take(0) =~= seq![]);
    } else {
        let last = ranges.last();
        lemma_joined(items, ranges.drop_last(), last.0 as int);
        assert(items.take(last.0 as int) + items.subrange(last.0 as int, n) =~= items.take(n));
    }
}

/// A batch is one file at least, no more bytes than asked for unless it is one
/// file alone, and as many files as fit.
pub proof fn law_batch_is_full(sizes: Seq<u64>, start: int, end: int, batch_bytes: u64)
    requires
        is_batch(sizes, start, end, batch_bytes),
    ensures
        start < end <= sizes.len(),
        end - start > 1 ==> size_sum(sizes, start, end) <= batch_bytes,
        end < sizes.len() ==> size_sum(sizes, start, end) + sizes[end] > batch_bytes,
{
    reveal_with_fuel(size_sum, 2);
}

/// A name is passed over if it starts with a dot, a hash or a tilde, or ends
/// with a tilde.
pub proof fn law_passed_over(first: char, last: char, name: Seq<char>)
    requires
        name.len() > 0,
        name[0] == first,
        name.last() == last,
    ensures
        passed_over(name) <==> seq!['.', '#', '~'].contains(first) || last == '~',
        !passed_over(seq![]),
{
    let marks = seq!['.', '#', '~'];
    assert(marks[0] == '.' && marks[1] == '#' && marks[2] == '~');
    assert forall|c: char| #[trigger] marks.contains(c) implies c == '.' || c == '#' || c
        == '~' by {}
}

} // verus!

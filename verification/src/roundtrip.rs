//! Reading an index gives back what was written.

use vstd::prelude::*;

use crate::image::{
    bodies, encode_ids, front, image, name_index, post_entry, post_index, terminated, trailer, Post,
};
use crate::layout::{
    le32, le64, lemma_le32, lemma_le64, lemma_le_len, lemma_magic_len, magic, trailer_magic,
    u32_at, u64_at, POST_ENTRY_LEN, TRAILER_LEN,
};
use crate::read::{
    count_of, ids_at, index_error, is_entry, lemma_first_nul, lemma_same_entry, list_of, raw_name, roots_of,
    sections, texts_in, Sections,
};
use crate::sets::in_order;
use crate::trigram::lossy_text;
use crate::varint::{self, encode};

verus! {

/// What an index can hold: as many files and trigrams as a `u32` counts, and
/// posting lists in order of their trigrams with at least a byte for every
/// file.
pub open spec fn writable(roots: Seq<Seq<u8>>, names: Seq<Seq<u8>>, posts: Seq<Post>) -> bool {
    &&& names.len() <= u32::MAX
    &&& posts.len() <= u32::MAX
    &&& image(roots, names, posts).len() <= u64::MAX
    &&& forall|i: int, j: int|
        0 <= i < j < posts.len() ==> (#[trigger] posts[i]).trigram < (#[trigger] posts[j]).trigram
    &&& forall|i: int| 0 <= i < posts.len() ==> (#[trigger] posts[i]).count <= posts[i].bytes.len()
}

proof fn lemma_u32_part(b: Seq<u8>, at: int, v: u32)
    requires
        0 <= at,
        at + 4 <= b.len(),
        b.subrange(at, at + 4) == le32(v),
    ensures
        u32_at(b, at) == v,
{
    assert(b =~= b.take(at) + le32(v) + b.skip(at + 4));
    lemma_le32(b.take(at), v, b.skip(at + 4));
}

proof fn lemma_u64_part(b: Seq<u8>, at: int, v: u64)
    requires
        0 <= at,
        at + 8 <= b.len(),
        b.subrange(at, at + 8) == le64(v),
    ensures
        u64_at(b, at) == v,
{
    assert(b =~= b.take(at) + le64(v) + b.skip(at + 8));
    lemma_le64(b.take(at), v, b.skip(at + 8));
}

/// Where five strings, two strings and a last one stand.
proof fn lemma_eight_parts(
    e: Seq<u8>,
    a: Seq<u8>,
    b: Seq<u8>,
    c: Seq<u8>,
    d: Seq<u8>,
    f: Seq<u8>,
    g: Seq<u8>,
    h: Seq<u8>,
    m: Seq<u8>,
)
    requires
        a.len() == 8,
        b.len() == 8,
        c.len() == 8,
        d.len() == 8,
        f.len() == 8,
        g.len() == 4,
        h.len() == 4,
        m.len() == 8,
    ensures
        ({
            let all = e + (a + b + c + d + f + g + h + m);
            let at = e.len() as int;
            &&& all.len() == at + 56
            &&& all.subrange(at, at + 8) == a
            &&& all.subrange(at + 8, at + 16) == b
            &&& all.subrange(at + 16, at + 24) == c
            &&& all.subrange(at + 24, at + 32) == d
            &&& all.subrange(at + 32, at + 40) == f
            &&& all.subrange(at + 40, at + 44) == g
            &&& all.subrange(at + 44, at + 48) == h
            &&& all.skip(at + 48) == m
        }),
{
    let all = e + (a + b + c + d + f + g + h + m);
    let at = e.len() as int;
    assert(all.subrange(at, at + 8) =~= a);
    assert(all.subrange(at + 8, at + 16) =~= b);
    assert(all.subrange(at + 16, at + 24) =~= c);
    assert(all.subrange(at + 24, at + 32) =~= d);
    assert(all.subrange(at + 32, at + 40) =~= f);
    assert(all.subrange(at + 40, at + 44) =~= g);
    assert(all.subrange(at + 44, at + 48) =~= h);
    assert(all.skip(at + 48) =~= m);
}

/// Where six strings stand.
proof fn lemma_six_parts(
    a: Seq<u8>,
    b: Seq<u8>,
    c: Seq<u8>,
    d: Seq<u8>,
    e: Seq<u8>,
    f: Seq<u8>,
    m: Seq<u8>,
)
    ensures
        ({
            let all = a + b + c + d + e + f + m;
            let (b0, c0, d0) = (
                a.len() as int,
                (a + b).len() as int,
                (a + b + c).len() as int,
            );
            let (e0, f0, m0) = (
                (a + b + c + d).len() as int,
                (a + b + c + d + e).len() as int,
                (a + b + c + d + e + f).len() as int,
            );
            &&& all.take(b0) == a
            &&& all.subrange(b0, c0) == b
            &&& all.subrange(c0, d0) == c
            &&& all.subrange(d0, e0) == d
            &&& all.subrange(e0, f0) == e
            &&& all.subrange(f0, m0) == f
        }),
{
    let all = a + b + c + d + e + f + m;
    let b0 = a.len() as int;
    let c0 = b0 + b.len();
    let d0 = c0 + c.len();
    let e0 = d0 + d.len();
    let f0 = e0 + e.len();
    let m0 = f0 + f.len();
    assert(all.take(b0) =~= a);
    assert(all.subrange(b0, c0) =~= b);
    assert(all.subrange(c0, d0) =~= c);
    assert(all.subrange(d0, e0) =~= d);
    assert(all.subrange(e0, f0) =~= e);
    assert(all.subrange(f0, m0) =~= f);
}

/// What the trailer of an image says.
proof fn lemma_trailer(e: Seq<u8>, n: nat, ni: nat, p: nat, pi: nat, nf: nat, nt: nat)
    requires
        n <= u64::MAX,
        ni <= u64::MAX,
        p <= u64::MAX,
        pi <= u64::MAX,
        nf <= u32::MAX,
        nt <= u32::MAX,
    ensures
        ({
            let b = e + trailer(n, ni, p, pi, nf, nt);
            &&& b.len() == e.len() + TRAILER_LEN
            &&& b.skip(b.len() - 8) == trailer_magic()
            &&& sections(b) == (Sections {
                paths: magic().len() as int,
                names: n as int,
                nameidx: ni as int,
                posts: p as int,
                postidx: pi as int,
                end: e.len() as int,
                nfiles: nf as int,
                ntrigrams: nt as int,
            })
        }),
{
    lemma_magic_len();
    let m = magic().len() as u64;
    let t = trailer(n, ni, p, pi, nf, nt);
    let b = e + t;
    let at = e.len() as int;
    lemma_le_len(nf as u32, m);
    lemma_le_len(nt as u32, n as u64);
    lemma_le_len(0, ni as u64);
    lemma_le_len(0, p as u64);
    lemma_le_len(0, pi as u64);
    let (q0, q1) = (le32((nf % 0x1_0000_0000) as u32), le32((nt % 0x1_0000_0000) as u32));
    lemma_eight_parts(
        e,
        le64(m),
        le64(n as u64),
        le64(ni as u64),
        le64(p as u64),
        le64(pi as u64),
        q0,
        q1,
        trailer_magic(),
    );
    lemma_u64_part(b, at, m);
    lemma_u64_part(b, at + 8, n as u64);
    lemma_u64_part(b, at + 16, ni as u64);
    lemma_u64_part(b, at + 24, p as u64);
    lemma_u64_part(b, at + 32, pi as u64);
    lemma_u32_part(b, at + 40, nf as u32);
    lemma_u32_part(b, at + 44, nt as u32);
}

proof fn lemma_terminated_part(parts: Seq<Seq<u8>>, i: int)
    requires
        0 <= i < parts.len(),
    ensures
        ({
            let at = terminated(parts.take(i)).len() as int;
            let n = parts[i].len();
            &&& at + n + 1 <= terminated(parts).len()
            &&& terminated(parts).subrange(at, at + n) == parts[i]
            &&& terminated(parts)[at + n] == 0
        }),
    decreases parts.len(),
{
    let short = parts.drop_last();
    if i < parts.len() - 1 {
        lemma_terminated_part(short, i);
        assert(short.take(i) =~= parts.take(i));
        let at = terminated(parts.take(i)).len() as int;
        let n = parts[i].len();
        assert(terminated(parts).subrange(at, at + n) =~= terminated(short).subrange(at, at + n));
    } else {
        assert(parts.take(i) =~= short);
        let at = terminated(short).len() as int;
        assert(terminated(parts).subrange(at, at + parts[i].len()) =~= parts[i]);
    }
}

proof fn lemma_name_index_len(names: Seq<Seq<u8>>)
    ensures
        name_index(names).len() == names.len() * 4,
    decreases names.len(),
{
    if names.len() > 0 {
        lemma_name_index_len(names.drop_last());
        lemma_le_len((terminated(names.drop_last()).len() % 0x1_0000_0000) as u32, 0);
    }
}

proof fn lemma_name_index_part(names: Seq<Seq<u8>>, i: int)
    requires
        0 <= i < names.len(),
    ensures
        name_index(names).subrange(i * 4, i * 4 + 4) == le32(
            (terminated(names.take(i)).len() % 0x1_0000_0000) as u32,
        ),
    decreases names.len(),
{
    let short = names.drop_last();
    lemma_name_index_len(short);
    lemma_le_len((terminated(short).len() % 0x1_0000_0000) as u32, 0);
    if i < names.len() - 1 {
        lemma_name_index_part(short, i);
        assert(short.take(i) =~= names.take(i));
        assert(name_index(names).subrange(i * 4, i * 4 + 4) =~= name_index(short).subrange(
            i * 4,
            i * 4 + 4,
        ));
    } else {
        assert(names.take(i) =~= short);
        assert(name_index(names).subrange(i * 4, i * 4 + 4) =~= le32(
            (terminated(short).len() % 0x1_0000_0000) as u32,
        ));
    }
}

proof fn lemma_post_entry_len(p: Post, at: nat)
    ensures
        post_entry(p, at).len() == 16,
        post_entry(p, at).subrange(0, 4) == le32(p.trigram),
        post_entry(p, at).subrange(4, 8) == le32(p.count),
        post_entry(p, at).subrange(8, 16) == le64(at as u64),
{
    lemma_le_len(p.trigram, at as u64);
    lemma_le_len(p.count, at as u64);
    let e = post_entry(p, at);
    assert(e.subrange(0, 4) =~= le32(p.trigram));
    assert(e.subrange(4, 8) =~= le32(p.count));
    assert(e.subrange(8, 16) =~= le64(at as u64));
}

proof fn lemma_post_index_len(posts: Seq<Post>)
    ensures
        post_index(posts).len() == posts.len() * 16,
    decreases posts.len(),
{
    if posts.len() > 0 {
        lemma_post_index_len(posts.drop_last());
        lemma_post_entry_len(posts.last(), bodies(posts.drop_last()).len());
    }
}

proof fn lemma_post_index_part(posts: Seq<Post>, i: int)
    requires
        0 <= i < posts.len(),
    ensures
        post_index(posts).subrange(i * 16, i * 16 + 16) == post_entry(
            posts[i],
            bodies(posts.take(i)).len(),
        ),
    decreases posts.len(),
{
    let short = posts.drop_last();
    lemma_post_index_len(short);
    lemma_post_entry_len(posts.last(), bodies(short).len());
    if i < posts.len() - 1 {
        lemma_post_index_part(short, i);
        assert(short.take(i) =~= posts.take(i));
        assert(post_index(posts).subrange(i * 16, i * 16 + 16) =~= post_index(short).subrange(
            i * 16,
            i * 16 + 16,
        ));
    } else {
        assert(posts.take(i) =~= short);
        assert(post_index(posts).subrange(i * 16, i * 16 + 16) =~= post_entry(
            posts[i],
            bodies(short).len(),
        ));
    }
}

proof fn lemma_bodies_part(posts: Seq<Post>, i: int)
    requires
        0 <= i < posts.len(),
    ensures
        ({
            let at = bodies(posts.take(i)).len() as int;
            let n = posts[i].bytes.len();
            &&& at + n <= bodies(posts).len()
            &&& bodies(posts).subrange(at, at + n) == posts[i].bytes
        }),
    decreases posts.len(),
{
    let short = posts.drop_last();
    if i < posts.len() - 1 {
        lemma_bodies_part(short, i);
        assert(short.take(i) =~= posts.take(i));
        let at = bodies(posts.take(i)).len() as int;
        let n = posts[i].bytes.len();
        assert(bodies(posts).subrange(at, at + n) =~= bodies(short).subrange(at, at + n));
    } else {
        assert(posts.take(i) =~= short);
        let at = bodies(short).len() as int;
        assert(bodies(posts).subrange(at, at + posts[i].bytes.len()) =~= posts[i].bytes);
    }
}

/// The parts of an image, and where they stand.
proof fn lemma_image(roots: Seq<Seq<u8>>, names: Seq<Seq<u8>>, posts: Seq<Post>)
    requires
        writable(roots, names, posts),
    ensures
        ({
            let b = image(roots, names, posts);
            let s = sections(b);
            &&& magic().is_prefix_of(b)
            &&& b.len() == s.end + TRAILER_LEN
            &&& b.skip(b.len() - 8) == trailer_magic()
            &&& s.nfiles == names.len()
            &&& s.ntrigrams == posts.len()
            &&& s.in_order()
            &&& s.sized()
            &&& b.subrange(s.paths, s.names) == terminated(roots) + seq![0u8]
            &&& b.subrange(s.names, s.nameidx) == terminated(names)
            &&& b.subrange(s.nameidx, s.posts) == name_index(names)
            &&& b.subrange(s.posts, s.postidx) == bodies(posts)
            &&& b.subrange(s.postidx, s.end) == post_index(posts)
        }),
{
    reveal(image);
    lemma_magic_len();
    let f = front(roots);
    let x = f + terminated(names);
    let c = x + name_index(names);
    let d = c + bodies(posts);
    let e = d + post_index(posts);
    let b = image(roots, names, posts);
    let s = sections(b);
    lemma_trailer(e, f.len(), x.len(), c.len(), d.len(), names.len(), posts.len());
    lemma_name_index_len(names);
    lemma_post_index_len(posts);
    let tail = terminated(roots) + seq![0u8];
    let t = trailer(f.len(), x.len(), c.len(), d.len(), names.len(), posts.len());
    assert(f =~= magic() + tail);
    assert(b == magic() + tail + terminated(names) + name_index(names) + bodies(posts)
        + post_index(posts) + t);
    lemma_six_parts(
        magic(),
        tail,
        terminated(names),
        name_index(names),
        bodies(posts),
        post_index(posts),
        t,
    );
}

/// The name entry of file `i`.
proof fn lemma_name_entry(roots: Seq<Seq<u8>>, names: Seq<Seq<u8>>, posts: Seq<Post>, i: int)
    requires
        writable(roots, names, posts),
        0 <= i < names.len(),
    ensures
        ({
            let b = image(roots, names, posts);
            let s = sections(b);
            &&& s.name_start(b, i) == terminated(names.take(i)).len() % 0x1_0000_0000
            &&& s.name_start(b, i) < s.nameidx - s.names
        }),
{
    let b = image(roots, names, posts);
    let s = sections(b);
    lemma_image(roots, names, posts);
    lemma_name_index_part(names, i);
    lemma_terminated_part(names, i);
    let at = s.nameidx + i * 4;
    assert(b.subrange(at, at + 4) =~= b.subrange(s.nameidx, s.posts).subrange(i * 4, i * 4 + 4));
    lemma_u32_part(b, at, (terminated(names.take(i)).len() % 0x1_0000_0000) as u32);
}

/// The posting entry of list `i`.
proof fn lemma_posting_entry(roots: Seq<Seq<u8>>, names: Seq<Seq<u8>>, posts: Seq<Post>, i: int)
    requires
        writable(roots, names, posts),
        0 <= i < posts.len(),
    ensures
        ({
            let b = image(roots, names, posts);
            let s = sections(b);
            &&& s.trigram(b, i) == posts[i].trigram
            &&& s.count(b, i) == posts[i].count
            &&& s.offset(b, i) == bodies(posts.take(i)).len()
            &&& s.offset(b, i) + s.count(b, i) <= s.postidx - s.posts
        }),
{
    let b = image(roots, names, posts);
    let s = sections(b);
    lemma_image(roots, names, posts);
    lemma_post_index_part(posts, i);
    lemma_bodies_part(posts, i);
    let off = bodies(posts.take(i)).len();
    let entry = post_entry(posts[i], off);
    lemma_post_entry_len(posts[i], off);
    let at = s.postidx + i * POST_ENTRY_LEN;
    assert(b.subrange(at, at + 16) =~= b.subrange(s.postidx, s.end).subrange(i * 16, i * 16 + 16));
    assert(b.subrange(at, at + 4) =~= entry.subrange(0, 4)) by {
        assert(b.subrange(at, at + 4) =~= b.subrange(at, at + 16).subrange(0, 4));
    }
    lemma_u32_part(b, at, posts[i].trigram);
    assert(b.subrange(at + 4, at + 8) =~= b.subrange(at, at + 16).subrange(4, 8));
    lemma_u32_part(b, at + 4, posts[i].count);
    assert(b.subrange(at + 8, at + 16) =~= b.subrange(at, at + 16).subrange(8, 16));
    lemma_u64_part(b, at + 8, off as u64);
}

proof fn lemma_no_entry_error(
    roots: Seq<Seq<u8>>,
    names: Seq<Seq<u8>>,
    posts: Seq<Post>,
    n: nat,
)
    requires
        writable(roots, names, posts),
        n <= posts.len(),
    ensures
        sections(image(roots, names, posts)).entries_error(image(roots, names, posts), n) is None,
    decreases n,
{
    if n > 0 {
        lemma_no_entry_error(roots, names, posts, (n - 1) as nat);
        lemma_posting_entry(roots, names, posts, n - 1);
        if n > 1 {
            lemma_posting_entry(roots, names, posts, n - 2);
            assert(posts[n - 2].trigram < posts[n - 1].trigram);
        }
    }
}

/// What was written opens without an error.
pub proof fn law_written_opens(roots: Seq<Seq<u8>>, names: Seq<Seq<u8>>, posts: Seq<Post>)
    requires
        writable(roots, names, posts),
    ensures
        index_error(image(roots, names, posts)) is None,
        sections(image(roots, names, posts)).nfiles == names.len(),
        sections(image(roots, names, posts)).ntrigrams == posts.len(),
{
    let b = image(roots, names, posts);
    let s = sections(b);
    lemma_image(roots, names, posts);
    assert forall|i: int| 0 <= i < names.len() implies #[trigger] s.name_start(b, i) < s.nameidx
        - s.names by {
        lemma_name_entry(roots, names, posts, i);
    }
    lemma_no_entry_error(roots, names, posts, posts.len());
}

/// The name of a file is read back, unless it holds a NUL or starts out of
/// reach of a `u32` offset.
pub proof fn law_names_read_back(
    roots: Seq<Seq<u8>>,
    names: Seq<Seq<u8>>,
    posts: Seq<Post>,
    i: int,
)
    requires
        writable(roots, names, posts),
        0 <= i < names.len(),
        !names[i].contains(0),
        terminated(names.take(i)).len() <= u32::MAX,
    ensures
        raw_name(image(roots, names, posts), i) == names[i],
{
    let b = image(roots, names, posts);
    let s = sections(b);
    lemma_image(roots, names, posts);
    lemma_name_entry(roots, names, posts, i);
    lemma_terminated_part(names, i);
    let at = terminated(names.take(i)).len() as int;
    let n = names[i].len();
    let all = b.subrange(s.names, s.nameidx);
    let rest = b.subrange(s.names + at, s.nameidx);
    assert(rest =~= all.skip(at));
    assert(rest.take(n as int) =~= all.subrange(at, at + n));
    assert(rest[n as int] == all[at + n]);
    assert forall|j: int| 0 <= j < n implies rest[j] != 0 by {
        assert(rest.take(n as int)[j] == names[i][j]);
        assert(names[i].contains(names[i][j]));
    }
    lemma_first_nul(rest, n);
}

/// The texts of root paths.
pub open spec fn root_texts(roots: Seq<Seq<u8>>) -> Seq<Seq<char>> {
    Seq::new(roots.len(), |i: int| lossy_text(roots[i]))
}

proof fn lemma_terminated_head(parts: Seq<Seq<u8>>)
    requires
        parts.len() > 0,
    ensures
        terminated(parts) == parts[0] + seq![0u8] + terminated(parts.skip(1)),
    decreases parts.len(),
{
    let short = parts.drop_last();
    if parts.len() == 1 {
        assert(parts.skip(1) =~= seq![]);
        assert(short =~= seq![]);
        assert(terminated(parts) =~= parts[0] + seq![0u8] + terminated(parts.skip(1)));
    } else {
        lemma_terminated_head(short);
        assert(parts.skip(1).drop_last() =~= short.skip(1));
        assert(terminated(parts) =~= parts[0] + seq![0u8] + terminated(parts.skip(1)));
    }
}

proof fn lemma_texts_in(roots: Seq<Seq<u8>>)
    requires
        forall|i: int| 0 <= i < roots.len() ==> (#[trigger] roots[i]).len() > 0 && !roots[i].contains(0),
    ensures
        texts_in(terminated(roots) + seq![0u8]) == root_texts(roots),
    decreases roots.len(),
{
    let section = terminated(roots) + seq![0u8];
    if roots.len() == 0 {
        assert(section =~= seq![0u8]);
        assert(texts_in(section) =~= root_texts(roots));
    } else {
        lemma_terminated_head(roots);
        let n = roots[0].len();
        assert forall|j: int| 0 <= j < n implies section[j] != 0 by {
            assert(section[j] == roots[0][j]);
            assert(roots[0].contains(roots[0][j]));
        }
        lemma_first_nul(section, n);
        assert(section.take(n as int) =~= roots[0]);
        assert(section.skip(n as int + 1) =~= terminated(roots.skip(1)) + seq![0u8]);
        lemma_texts_in(roots.skip(1));
        assert(root_texts(roots) =~= seq![lossy_text(roots[0])] + root_texts(roots.skip(1)));
    }
}

/// The roots are read back, unless one is empty or holds a NUL.
pub proof fn law_roots_read_back(roots: Seq<Seq<u8>>, names: Seq<Seq<u8>>, posts: Seq<Post>)
    requires
        writable(roots, names, posts),
        forall|i: int| 0 <= i < roots.len() ==> (#[trigger] roots[i]).len() > 0 && !roots[i].contains(0),
    ensures
        roots_of(image(roots, names, posts)) == root_texts(roots),
{
    lemma_image(roots, names, posts);
    lemma_texts_in(roots);
}

/// Decoding gives back the ids that were encoded.
proof fn lemma_ids_read_back(
    before: Seq<u8>,
    last: Option<u32>,
    ids: Seq<u32>,
    after: Seq<u8>,
    nfiles: int,
)
    requires
        in_order(ids),
        forall|i: int| 0 <= i < ids.len() ==> ids[i] < nfiles,
        last matches Some(p) ==> ids.len() > 0 ==> p < ids[0],
    ensures
        ids_at(before + encode_ids(last, ids) + after, before.len(), ids.len(), last, nfiles) == ids,
    decreases ids.len(),
{
    let buf = before + encode_ids(last, ids) + after;
    if ids.len() == 0 {
        assert(ids =~= seq![]);
    } else {
        let v = match last {
            Some(p) => (ids[0] - p) as u32,
            None => ids[0],
        };
        let head = encode(v as nat);
        let tail = encode_ids(Some(ids[0]), ids.skip(1));
        assert(buf =~= before + head + (tail + after));
        varint::law_roundtrip(before, v, tail + after);
        assert(buf =~= (before + head) + tail + after);
        lemma_ids_read_back(before + head, Some(ids[0]), ids.skip(1), after, nfiles);
        assert(ids =~= seq![ids[0]] + ids.skip(1));
        if let Some(p) = last {
            assert((p + v) % 0x1_0000_0000 == ids[0]);
        }
    }
}

/// The posting list of a trigram is read back.
pub proof fn law_lists_read_back(
    roots: Seq<Seq<u8>>,
    names: Seq<Seq<u8>>,
    posts: Seq<Post>,
    i: int,
    ids: Seq<u32>,
)
    requires
        writable(roots, names, posts),
        0 <= i < posts.len(),
        posts[i].count == ids.len(),
        posts[i].bytes == encode_ids(None, ids),
        in_order(ids),
        forall|k: int| 0 <= k < ids.len() ==> ids[k] < names.len(),
    ensures
        list_of(image(roots, names, posts), posts[i].trigram) == ids,
{
    let b = image(roots, names, posts);
    let s = sections(b);
    law_written_opens(roots, names, posts);
    lemma_image(roots, names, posts);
    lemma_posting_entry(roots, names, posts, i);
    lemma_bodies_part(posts, i);
    assert(is_entry(b, posts[i].trigram, i));
    lemma_same_entry(b, posts[i].trigram, i);
    let at = (s.posts + s.offset(b, i)) as int;
    let n = posts[i].bytes.len();
    let buf = b.take(s.postidx);
    let off = s.offset(b, i) as int;
    let all = b.subrange(s.posts, s.postidx);
    assert(buf.subrange(at, at + n) =~= all.subrange(off, off + n));
    assert(buf =~= buf.take(at) + posts[i].bytes + buf.skip(at + n));
    lemma_ids_read_back(buf.take(at), None, ids, buf.skip(at + n), s.nfiles);
}

/// The count of a posting list is read back.
pub proof fn law_counts_read_back(
    roots: Seq<Seq<u8>>,
    names: Seq<Seq<u8>>,
    posts: Seq<Post>,
    i: int,
)
    requires
        writable(roots, names, posts),
        0 <= i < posts.len(),
    ensures
        count_of(image(roots, names, posts), posts[i].trigram) == posts[i].count,
{
    let b = image(roots, names, posts);
    law_written_opens(roots, names, posts);
    lemma_posting_entry(roots, names, posts, i);
    assert(is_entry(b, posts[i].trigram, i));
    lemma_same_entry(b, posts[i].trigram, i);
}

/// A trigram without a posting list has none after reading, and its count is
/// zero.
pub proof fn law_no_other_lists(
    roots: Seq<Seq<u8>>,
    names: Seq<Seq<u8>>,
    posts: Seq<Post>,
    t: u32,
)
    requires
        writable(roots, names, posts),
        forall|i: int| 0 <= i < posts.len() ==> (#[trigger] posts[i]).trigram != t,
    ensures
        list_of(image(roots, names, posts), t) == Seq::<u32>::empty(),
        count_of(image(roots, names, posts), t) == 0,
{
    let b = image(roots, names, posts);
    law_written_opens(roots, names, posts);
    assert forall|i: int| !is_entry(b, t, i) by {
        if is_entry(b, t, i) {
            lemma_posting_entry(roots, names, posts, i);
        }
    }
}

} // verus!

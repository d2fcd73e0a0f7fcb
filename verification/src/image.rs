//! The bytes of an index file.

use vstd::prelude::*;
use vstd::utf8::encode_utf8;

use crate::layout::{
    le32, le64, lemma_magic_len, magic, trailer_magic, wr_u32, wr_u64, MAGIC, TRAILER_MAGIC,
};
use crate::varint::{self, encode};

verus! {

/// The posting list of a trigram, as a mathematical value.
pub struct Post {
    pub trigram: u32,
    pub count: u32,
    pub bytes: Seq<u8>,
}

/// The posting list of a trigram under construction.
#[derive(Debug, Default)]
pub struct Posting {
    pub trigram: u32,
    pub last: u32,
    pub count: u32,
    pub bytes: Vec<u8>,
}

impl View for Posting {
    type V = Post;

    open spec fn view(&self) -> Post {
        Post { trigram: self.trigram, count: self.count, bytes: self.bytes@ }
    }
}

/// The encoding of ascending file ids: the difference to the id before, or the
/// first id itself.
pub open spec fn encode_ids(last: Option<u32>, ids: Seq<u32>) -> Seq<u8>
    decreases ids.len(),
{
    if ids.len() == 0 {
        seq![]
    } else {
        encode(
            match last {
                Some(p) => (ids[0] - p) as nat,
                None => ids[0] as nat,
            },
        ) + encode_ids(Some(ids[0]), ids.skip(1))
    }
}

pub proof fn lemma_encode_ids_push(last: Option<u32>, ids: Seq<u32>, id: u32)
    ensures
        encode_ids(last, ids.push(id)) == encode_ids(last, ids) + encode(
            if ids.len() > 0 {
                (id - ids.last()) as nat
            } else {
                match last {
                    Some(p) => (id - p) as nat,
                    None => id as nat,
                }
            },
        ),
    decreases ids.len(),
{
    let all = ids.push(id);
    if ids.len() == 0 {
        assert(all.skip(1) =~= seq![]);
        assert(encode_ids(Some(id), all.skip(1)) =~= seq![]);
        assert(encode_ids(last, ids) =~= seq![]);
    } else {
        lemma_encode_ids_push(Some(ids[0]), ids.skip(1), id);
        assert(all.skip(1) =~= ids.skip(1).push(id));
        let head = encode(
            match last {
                Some(p) => (ids[0] - p) as nat,
                None => ids[0] as nat,
            },
        );
        let tail = encode_ids(Some(ids[0]), ids.skip(1));
        let step = encode((id - ids.last()) as nat);
        if ids.len() == 1 {
            assert(ids.skip(1) =~= seq![]);
        } else {
            assert(ids.skip(1).last() == ids.last());
        }
        assert(head + (tail + step) =~= (head + tail) + step);
    }
}

impl Posting {
    /// Whether this is the posting list of `ids`.
    pub open spec fn lists(&self, ids: Seq<u32>) -> bool {
        &&& self.count == ids.len()
        &&& self.bytes@ == encode_ids(None, ids)
        &&& ids.len() > 0 ==> self.last == ids.last()
    }

    /// Append a file id, higher than those before.
    pub fn push(&mut self, id: u32)
        requires
            old(self).count > 0 ==> old(self).last <= id,
            old(self).count < u32::MAX,
        ensures
            final(self).trigram == old(self).trigram,
            final(self).count == old(self).count + 1,
            final(self).last == id,
            final(self).bytes@ == old(self).bytes@ + encode(
                if old(self).count == 0 {
                    id as nat
                } else {
                    (id - old(self).last) as nat
                },
            ),
            forall|ids: Seq<u32>| #[trigger] old(self).lists(ids) ==> final(self).lists(ids.push(id)),
    {
        if self.count == 0 {
            varint::put(&mut self.bytes, id);
        } else {
            varint::put(&mut self.bytes, id - self.last);
        }
        self.last = id;
        self.count = self.count + 1;
        proof {
            assert forall|ids: Seq<u32>| #[trigger] old(self).lists(ids) implies self.lists(
                ids.push(id),
            ) by {
                lemma_encode_ids_push(None, ids, id);
            }
        }
    }
}

/// The strings, each with a NUL after it.
pub open spec fn terminated(parts: Seq<Seq<u8>>) -> Seq<u8>
    decreases parts.len(),
{
    if parts.len() == 0 {
        seq![]
    } else {
        terminated(parts.drop_last()) + parts.last() + seq![0u8]
    }
}

/// Where each name starts among the terminated names.
pub open spec fn name_index(names: Seq<Seq<u8>>) -> Seq<u8>
    decreases names.len(),
{
    if names.len() == 0 {
        seq![]
    } else {
        name_index(names.drop_last()) + le32(
            (terminated(names.drop_last()).len() % 0x1_0000_0000) as u32,
        )
    }
}

/// The posting lists one after the other.
pub open spec fn bodies(posts: Seq<Post>) -> Seq<u8>
    decreases posts.len(),
{
    if posts.len() == 0 {
        seq![]
    } else {
        bodies(posts.drop_last()) + posts.last().bytes
    }
}

/// The entry of a posting list that starts at `at`.
pub open spec fn post_entry(p: Post, at: nat) -> Seq<u8> {
    le32(p.trigram) + le32(p.count) + le64(at as u64)
}

/// The entries of the posting lists.
pub open spec fn post_index(posts: Seq<Post>) -> Seq<u8>
    decreases posts.len(),
{
    if posts.len() == 0 {
        seq![]
    } else {
        post_index(posts.drop_last()) + post_entry(posts.last(), bodies(posts.drop_last()).len())
    }
}

/// What precedes the names.
pub open spec fn front(roots: Seq<Seq<u8>>) -> Seq<u8> {
    magic() + terminated(roots) + seq![0u8]
}

/// The trailer of an index whose sections start at the given places.
pub open spec fn trailer(
    names: nat,
    nameidx: nat,
    posts: nat,
    postidx: nat,
    nfiles: nat,
    ntrigrams: nat,
) -> Seq<u8> {
    le64(magic().len() as u64) + le64(names as u64) + le64(nameidx as u64) + le64(posts as u64)
        + le64(postidx as u64) + le32((nfiles % 0x1_0000_0000) as u32) + le32(
        (ntrigrams % 0x1_0000_0000) as u32,
    ) + trailer_magic()
}

/// The bytes of an index.
#[verifier::opaque]
pub open spec fn image(roots: Seq<Seq<u8>>, names: Seq<Seq<u8>>, posts: Seq<Post>) -> Seq<u8> {
    let a = front(roots);
    let b = a + terminated(names);
    let c = b + name_index(names);
    let d = c + bodies(posts);
    let e = d + post_index(posts);
    e + trailer(a.len(), b.len(), c.len(), d.len(), names.len(), posts.len())
}

/// The UTF-8 bytes of texts.
pub open spec fn utf8_of(v: Seq<String>) -> Seq<Seq<u8>> {
    Seq::new(v.len(), |i: int| encode_utf8(v[i]@))
}

/// The values of posting lists.
pub open spec fn posts_of(v: Seq<Posting>) -> Seq<Post> {
    Seq::new(v.len(), |i: int| v[i]@)
}

/// Append texts, each with a NUL after it, and return where each starts.
fn write_texts(out: &mut Vec<u8>, texts: &[String]) -> (index: Vec<u8>)
    ensures
        final(out)@ == old(out)@ + terminated(utf8_of(texts@)),
        index@ == name_index(utf8_of(texts@)),
{
    let ghost all = utf8_of(texts@);
    let ghost before = out@;
    let start: usize = out.len();
    let mut index: Vec<u8> = Vec::new();
    let mut i: usize = 0;
    proof {
        assert(all.take(0) =~= seq![]);
        assert(before + terminated(all.take(0)) =~= before);
    }
    while i < texts.len()
        invariant
            i <= texts@.len(),
            all == utf8_of(texts@),
            start == before.len(),
            out@ == before + terminated(all.take(i as int)),
            index@ == name_index(all.take(i as int)),
        decreases texts@.len() - i,
    {
        let at: u64 = (out.len() - start) as u64;
        wr_u32(&mut index, (at % 0x1_0000_0000) as u32);
        let bytes = texts[i].as_str().as_bytes();
        let ghost so_far = out@;
        out.extend_from_slice(bytes);
        out.push(0);
        proof {
            assert(all.take(i + 1).drop_last() =~= all.take(i as int));
            assert(all.take(i + 1).last() == bytes@);
            assert(out@ =~= so_far + bytes@ + seq![0u8]);
            assert(out@ =~= before + terminated(all.take(i + 1)));
        }
        i = i + 1;
    }
    assert(all.take(i as int) =~= all);
    index
}

/// Append posting lists, and return their entries.
fn write_postings(out: &mut Vec<u8>, postings: &[Posting]) -> (index: Vec<u8>)
    ensures
        final(out)@ == old(out)@ + bodies(posts_of(postings@)),
        index@ == post_index(posts_of(postings@)),
{
    let ghost all = posts_of(postings@);
    let ghost before = out@;
    let start: usize = out.len();
    let mut index: Vec<u8> = Vec::new();
    let mut i: usize = 0;
    proof {
        assert(all.take(0) =~= seq![]);
        assert(before + bodies(all.take(0)) =~= before);
    }
    while i < postings.len()
        invariant
            i <= postings@.len(),
            all == posts_of(postings@),
            start == before.len(),
            out@ == before + bodies(all.take(i as int)),
            index@ == post_index(all.take(i as int)),
        decreases postings@.len() - i,
    {
        let p = &postings[i];
        let ghost entries = index@;
        let at: u64 = (out.len() - start) as u64;
        wr_u32(&mut index, p.trigram);
        wr_u32(&mut index, p.count);
        wr_u64(&mut index, at);
        let ghost so_far = out@;
        out.extend_from_slice(&p.bytes);
        proof {
            assert(all.take(i + 1).drop_last() =~= all.take(i as int));
            assert(all.take(i + 1).last() == p@);
            assert(index@ =~= entries + post_entry(p@, at as nat));
            assert(out@ =~= so_far + p.bytes@);
            assert(out@ =~= before + bodies(all.take(i + 1)));
        }
        i = i + 1;
    }
    assert(all.take(i as int) =~= all);
    index
}

/// The bytes of the whole index.
pub fn index_bytes(roots: &[String], names: &[String], postings: &[Posting]) -> (out: Vec<u8>)
    ensures
        out@ == image(utf8_of(roots@), utf8_of(names@), posts_of(postings@)),
{
    proof {
        reveal(image);
    }
    let mut out: Vec<u8> = Vec::new();
    out.extend_from_slice(MAGIC.as_bytes());
    assert(out@ =~= magic());
    let _starts = write_texts(&mut out, roots);
    out.push(0);
    assert(out@ =~= front(utf8_of(roots@)));
    let names_off: usize = out.len();
    let name_entries = write_texts(&mut out, names);
    let nameidx_off: usize = out.len();
    out.extend_from_slice(&name_entries);
    let ghost c = front(utf8_of(roots@)) + terminated(utf8_of(names@)) + name_index(
        utf8_of(names@),
    );
    assert(out@ =~= c);
    let posts_off: usize = out.len();
    let post_entries = write_postings(&mut out, postings);
    let postidx_off: usize = out.len();
    out.extend_from_slice(&post_entries);
    let ghost e = out@;
    assert(e =~= c + bodies(posts_of(postings@)) + post_index(posts_of(postings@)));
    let end = trailer_bytes(
        names_off as u64,
        nameidx_off as u64,
        posts_off as u64,
        postidx_off as u64,
        names.len() as u64,
        postings.len() as u64,
    );
    out.extend_from_slice(&end);
    assert(out@ =~= e + end@);
    out
}

/// The bytes of the trailer.
fn trailer_bytes(
    names_off: u64,
    nameidx_off: u64,
    posts_off: u64,
    postidx_off: u64,
    nfiles: u64,
    ntrigrams: u64,
) -> (t: Vec<u8>)
    ensures
        t@ == trailer(
            names_off as nat,
            nameidx_off as nat,
            posts_off as nat,
            postidx_off as nat,
            nfiles as nat,
            ntrigrams as nat,
        ),
{
    proof {
        lemma_magic_len();
    }
    let mut t: Vec<u8> = Vec::new();
    wr_u64(&mut t, MAGIC.len() as u64);
    assert(t@ =~= le64(magic().len() as u64));
    wr_u64(&mut t, names_off);
    wr_u64(&mut t, nameidx_off);
    wr_u64(&mut t, posts_off);
    wr_u64(&mut t, postidx_off);
    wr_u32(&mut t, (nfiles % 0x1_0000_0000) as u32);
    wr_u32(&mut t, (ntrigrams % 0x1_0000_0000) as u32);
    let ghost so_far = t@;
    t.extend_from_slice(TRAILER_MAGIC.as_bytes());
    assert(t@ =~= so_far + trailer_magic());
    t
}

} // verus!

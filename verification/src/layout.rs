//! The index file format.
//!
//! All integers are little-endian:
//!
//! ```text
//! magic          "csearch-rs index 1\n"
//! paths          root paths, each NUL-terminated, then an extra NUL
//! names          file names, each NUL-terminated, in the order of their ids
//! name index     u32 offset (relative to `names`) per file
//! postings       per trigram: varint first id, then varint deltas
//! posting index  per trigram: u32 trigram, u32 count, u64 offset (16 B)
//! trailer        5 × u64 section offsets, u32 nfiles, u32 ntrigrams,
//!                "CSRSIDX1"
//! ```

use vstd::prelude::*;
use vstd::utf8::{encode_utf8, is_ascii_chars, is_ascii_chars_encode_utf8};

verus! {

/// What an index of this format version starts with.
pub const MAGIC: &'static str = "csearch-rs index 1\n";

/// What an index of any format version starts with.
pub const MAGIC_FAMILY: &'static str = "csearch-rs index ";

/// What an index ends with.
pub const TRAILER_MAGIC: &'static str = "CSRSIDX1";

/// The length of the trailer.
pub const TRAILER_LEN: usize = 5 * 8 + 4 + 4 + 8;

/// The length of an entry of the posting index.
pub const POST_ENTRY_LEN: usize = 16;

/// The number whose four bytes, least significant first, stand at `at`.
#[verifier::opaque]
pub open spec fn u32_at(b: Seq<u8>, at: int) -> u32 {
    (b[at] + b[at + 1] * 0x100 + b[at + 2] * 0x1_0000 + b[at + 3] * 0x100_0000) as u32
}

/// The number whose eight bytes, least significant first, stand at `at`.
#[verifier::opaque]
pub open spec fn u64_at(b: Seq<u8>, at: int) -> u64 {
    (u32_at(b, at) + u32_at(b, at + 4) * 0x1_0000_0000) as u64
}

/// A number in four bytes, least significant first.
#[verifier::opaque]
pub open spec fn le32(v: u32) -> Seq<u8> {
    seq![
        (v % 0x100) as u8,
        (v / 0x100 % 0x100) as u8,
        (v / 0x1_0000 % 0x100) as u8,
        (v / 0x100_0000) as u8,
    ]
}

/// A number in eight bytes, least significant first.
#[verifier::opaque]
pub open spec fn le64(v: u64) -> Seq<u8> {
    le32((v % 0x1_0000_0000) as u32) + le32((v / 0x1_0000_0000) as u32)
}

/// How many bytes a number takes.
pub proof fn lemma_le_len(v: u32, w: u64)
    ensures
        le32(v).len() == 4,
        le64(w).len() == 8,
{
    reveal(le32);
    reveal(le64);
}

/// Reading a number back from its bytes.
pub proof fn lemma_le32(before: Seq<u8>, v: u32, after: Seq<u8>)
    ensures
        u32_at(before + le32(v) + after, before.len() as int) == v,
{
    reveal(u32_at);
    reveal(le32);
    let b = before + le32(v) + after;
    let n = before.len() as int;
    assert(b[n] == le32(v)[0]);
    assert(b[n + 1] == le32(v)[1]);
    assert(b[n + 2] == le32(v)[2]);
    assert(b[n + 3] == le32(v)[3]);
}

/// Reading a number back from its bytes.
pub proof fn lemma_le64(before: Seq<u8>, v: u64, after: Seq<u8>)
    ensures
        u64_at(before + le64(v) + after, before.len() as int) == v,
{
    reveal(u64_at);
    reveal(le64);
    let (lo, hi) = ((v % 0x1_0000_0000) as u32, (v / 0x1_0000_0000) as u32);
    let b = before + le64(v) + after;
    assert(b =~= before + le32(lo) + (le32(hi) + after));
    assert(b =~= (before + le32(lo)) + le32(hi) + after);
    lemma_le_len(lo, v);
    lemma_le32(before, lo, le32(hi) + after);
    lemma_le32(before + le32(lo), hi, after);
}

/// The number in the four bytes at `at`.
pub fn rd_u32(b: &[u8], at: usize) -> (v: u32)
    requires
        at + 4 <= b@.len(),
    ensures
        v == u32_at(b@, at as int),
{
    proof {
        reveal(u32_at);
    }
    b[at] as u32 + b[at + 1] as u32 * 0x100 + b[at + 2] as u32 * 0x1_0000 + b[at + 3] as u32
        * 0x100_0000
}

/// The number in the eight bytes at `at`.
pub fn rd_u64(b: &[u8], at: usize) -> (v: u64)
    requires
        at + 8 <= b@.len(),
    ensures
        v == u64_at(b@, at as int),
{
    proof {
        reveal(u64_at);
    }
    assert(b.len() == b@.len());
    rd_u32(b, at) as u64 + rd_u32(b, at + 4) as u64 * 0x1_0000_0000
}

/// Append a number in four bytes.
pub fn wr_u32(b: &mut Vec<u8>, v: u32)
    ensures
        final(b)@ == old(b)@ + le32(v),
{
    proof {
        reveal(le32);
    }
    b.push((v % 0x100) as u8);
    b.push((v / 0x100 % 0x100) as u8);
    b.push((v / 0x1_0000 % 0x100) as u8);
    b.push((v / 0x100_0000) as u8);
    assert(b@ =~= old(b)@ + le32(v));
}

/// Append a number in eight bytes.
pub fn wr_u64(b: &mut Vec<u8>, v: u64)
    ensures
        final(b)@ == old(b)@ + le64(v),
{
    proof {
        reveal(le64);
    }
    wr_u32(b, (v % 0x1_0000_0000) as u32);
    wr_u32(b, (v / 0x1_0000_0000) as u32);
    assert(b@ =~= old(b)@ + le64(v));
}

/// The bytes of the magic.
pub open spec fn magic() -> Seq<u8> {
    encode_utf8(MAGIC@)
}

/// The bytes that every format version starts with.
pub open spec fn magic_family() -> Seq<u8> {
    encode_utf8(MAGIC_FAMILY@)
}

/// The bytes that end the trailer.
pub open spec fn trailer_magic() -> Seq<u8> {
    encode_utf8(TRAILER_MAGIC@)
}

/// How long the markers are.
pub proof fn lemma_magic_len()
    ensures
        magic().len() == 19,
        magic_family().len() == 17,
        trailer_magic().len() == 8,
        magic_family() == magic().take(17),
{
    reveal_strlit("csearch-rs index 1\n");
    reveal_strlit("csearch-rs index ");
    reveal_strlit("CSRSIDX1");
    assert(is_ascii_chars(MAGIC@));
    assert(is_ascii_chars(MAGIC_FAMILY@));
    assert(is_ascii_chars(TRAILER_MAGIC@));
    is_ascii_chars_encode_utf8(MAGIC@);
    is_ascii_chars_encode_utf8(MAGIC_FAMILY@);
    is_ascii_chars_encode_utf8(TRAILER_MAGIC@);
    assert(magic_family() =~= magic().take(17));
}

/// Numbers are written least significant byte first.
pub proof fn law_little_endian(v: u32, w: u64)
    ensures
        le32(v).len() == 4,
        le32(v)[0] + 0x100 * le32(v)[1] + 0x1_0000 * le32(v)[2] + 0x100_0000 * le32(v)[3] == v,
        le64(w) == le32((w % 0x1_0000_0000) as u32) + le32((w / 0x1_0000_0000) as u32),
{
    reveal(le32);
    reveal(le64);
}

} // verus!

//! Trigram extraction.
//!
//! A trigram is three consecutive bytes packed into the low 24 bits of a
//! `u32`, the first byte highest.

use vstd::prelude::*;
use vstd::seq_lib::seq_to_set_is_finite;
use vstd::set_lib::lemma_len_subset;
use vstd::utf8::{decode_utf8, encode_utf8, valid_utf8};

use crate::bitmap::Bitmap;
use crate::sets::{lemma_in_order_unique, lemma_sorted_set, sort_distinct, sorted_set};

verus! {

/// Files longer than this are not indexed.
pub const MAX_FILE_LEN: u64 = 1 << 30;

/// Files with a longer line are not indexed.
pub const MAX_LINE_LEN: usize = 2000;

/// Files with more distinct trigrams are not indexed.
pub const MAX_TEXT_TRIGRAMS: usize = 20_000;

/// What ends a line.
pub const NEWLINE: u8 = 10;

/// How many trigrams are packed at a time.
const CHUNK: usize = 2048;

/// Why a file is not indexed.
#[derive(Debug, Clone, Copy, PartialEq, Eq, Structural)]
pub enum Skip {
    /// Contains a NUL byte.
    Binary,
    /// Not valid UTF-8.
    InvalidUtf8,
    /// A line is longer than `MAX_LINE_LEN`.
    LongLine,
    /// More than `MAX_TEXT_TRIGRAMS` distinct trigrams.
    TooManyTrigrams,
}

impl Skip {
    /// The reason in words.
    pub open spec fn words(self) -> Seq<char> {
        match self {
            Skip::Binary => "binary file (NUL byte)"@,
            Skip::InvalidUtf8 => "invalid UTF-8"@,
            Skip::LongLine => "very long lines"@,
            Skip::TooManyTrigrams => "too many trigrams"@,
        }
    }

    /// The reason in words.
    pub fn message(&self) -> (m: &'static str)
        ensures
            m@ == self.words(),
    {
        match self {
            Skip::Binary => "binary file (NUL byte)",
            Skip::InvalidUtf8 => "invalid UTF-8",
            Skip::LongLine => "very long lines",
            Skip::TooManyTrigrams => "too many trigrams",
        }
    }
}

/// The trigram of three bytes.
pub open spec fn tri(a: u8, b: u8, c: u8) -> u32 {
    (a * 0x1_0000 + b * 0x100 + c) as u32
}

/// The trigrams of `data` in order of position.
pub open spec fn packed(data: Seq<u8>) -> Seq<u32> {
    Seq::new(
        if data.len() < 3 {
            0
        } else {
            (data.len() - 2) as nat
        },
        |i: int| tri(data[i], data[i + 1], data[i + 2]),
    )
}

/// The set of trigrams that occur in `data`.
pub open spec fn trigrams(data: Seq<u8>) -> Set<u32> {
    packed(data).to_set()
}

/// Whether some line of `data`, without its newline, has more than
/// `MAX_LINE_LEN` bytes.
pub open spec fn has_long_line(data: Seq<u8>) -> bool {
    exists|i: int| #[trigger] unbroken(data, i, i + MAX_LINE_LEN + 1)
}

/// Whether positions `from` to `to` of `data` hold no newline.
pub open spec fn unbroken(data: Seq<u8>, from: int, to: int) -> bool {
    &&& 0 <= from <= to <= data.len()
    &&& forall|j: int| from <= j < to ==> data[j] != NEWLINE
}

/// What a file's contents amount to for the index: its distinct trigrams in
/// ascending order, or the first reason not to index it.
pub open spec fn analysis(data: Seq<u8>) -> Result<Seq<u32>, Skip> {
    if data.contains(0) {
        Err(Skip::Binary)
    } else if !valid_utf8(data) {
        Err(Skip::InvalidUtf8)
    } else if has_long_line(data) {
        Err(Skip::LongLine)
    } else if trigrams(data).len() > MAX_TEXT_TRIGRAMS {
        Err(Skip::TooManyTrigrams)
    } else {
        Ok(sorted_set(packed(data)))
    }
}

/// The three bytes of a packed trigram.
pub open spec fn tri_bytes(t: u32) -> Seq<u8> {
    seq![(t / 0x1_0000 % 0x100) as u8, (t / 0x100 % 0x100) as u8, (t % 0x100) as u8]
}

/// The text that `String::from_utf8_lossy` makes of bytes that are not valid
/// UTF-8.
pub uninterp spec fn replaced(bytes: Seq<u8>) -> Seq<char>;

/// Bytes as text: what they encode, where they are valid UTF-8.
pub open spec fn lossy_text(bytes: Seq<u8>) -> Seq<char> {
    if valid_utf8(bytes) {
        decode_utf8(bytes)
    } else {
        replaced(bytes)
    }
}

/// `memchr::memchr`: the first position of a byte, if it occurs.
pub assume_specification[ memchr::memchr ](needle: u8, haystack: &[u8]) -> (r: Option<usize>)
    ensures
        match r {
            Some(i) => i < haystack@.len() && haystack@[i as int] == needle && forall|j: int|
                0 <= j < i ==> haystack@[j] != needle,
            None => forall|j: int| 0 <= j < haystack@.len() ==> haystack@[j] != needle,
        },
;

/// `memchr::memchr_iter`, collected: the positions of a byte, all of them, in
/// ascending order.
#[verifier::external_body]
pub(crate) fn positions(needle: u8, haystack: &[u8]) -> (r: Vec<usize>)
    ensures
        forall|a: int, b: int| 0 <= a < b < r@.len() ==> r@[a] < r@[b],
        forall|a: int| 0 <= a < r@.len() ==> r@[a] < haystack@.len(),
        forall|a: int| 0 <= a < r@.len() ==> haystack@[#[trigger] r@[a] as int] == needle,
        forall|j: int|
            0 <= j < haystack@.len() && #[trigger] haystack@[j] == needle ==> r@.contains(
                j as usize,
            ),
{
    memchr::memchr_iter(needle, haystack).collect()
}

/// `std::str::from_utf8`: the text of the bytes, if they are valid UTF-8.
#[verifier::external_body]
pub(crate) fn utf8(bytes: &[u8]) -> (r: Option<&str>)
    ensures
        match r {
            Some(s) => valid_utf8(bytes@) && encode_utf8(s@) == bytes@,
            None => !valid_utf8(bytes@),
        },
{
    std::str::from_utf8(bytes).ok()
}

/// `String::from_utf8_lossy`: the text that valid UTF-8 encodes; of other
/// bytes, some text that is a function of the bytes.
#[verifier::external_body]
pub(crate) fn lossy(bytes: &[u8]) -> (r: String)
    ensures
        valid_utf8(bytes@) ==> r@ == decode_utf8(bytes@),
        !valid_utf8(bytes@) ==> r@ == replaced(bytes@),
{
    String::from_utf8_lossy(bytes).into_owned()
}

proof fn lemma_pack(a: u32, b: u32, c: u32)
    by (bit_vector)
    requires
        a < 0x100,
        b < 0x100,
        c < 0x100,
    ensures
        ((a << 16) | (b << 8)) | c == a * 0x1_0000 + b * 0x100 + c,
{
}

proof fn lemma_unpack(t: u32)
    by (bit_vector)
    ensures
        (t >> 16) & 0xff == t / 0x1_0000 % 0x100,
        (t >> 8) & 0xff == t / 0x100 % 0x100,
        t & 0xff == t % 0x100,
{
}

/// The trigram of the first three bytes.
pub fn pack(b: &[u8]) -> (t: u32)
    requires
        b@.len() >= 3,
    ensures
        t == tri(b@[0], b@[1], b@[2]),
        t < 0x100_0000,
{
    proof {
        lemma_pack(b@[0] as u32, b@[1] as u32, b@[2] as u32);
    }
    ((b[0] as u32) << 16) | ((b[1] as u32) << 8) | (b[2] as u32)
}

/// Render a packed trigram for display (lossy for non-UTF-8 byte splits).
pub fn to_string(t: u32) -> (s: String)
    ensures
        s@ == lossy_text(tri_bytes(t)),
{
    proof {
        lemma_unpack(t);
    }
    let mut bytes: Vec<u8> = Vec::new();
    bytes.push(((t >> 16) & 0xff) as u8);
    bytes.push(((t >> 8) & 0xff) as u8);
    bytes.push((t & 0xff) as u8);
    assert(bytes@ =~= tri_bytes(t));
    lossy(&bytes)
}

/// Fill `out[i]` with the trigram at `data[i..i + 3]`, for every `i`.
pub fn pack_trigrams(data: &[u8], out: &mut [u32])
    requires
        old(out)@.len() + 2 == data@.len(),
    ensures
        final(out)@ == packed(data@),
{
    pack_trigrams_scalar(data, out);
    assert(out@ =~= packed(data@));
}

/// Fill `out[i]` with the trigram at `data[i..i + 3]`, for every `i`.
pub fn pack_trigrams_scalar(data: &[u8], out: &mut [u32])
    requires
        old(out)@.len() == 0 || old(out)@.len() + 2 <= data@.len(),
    ensures
        final(out)@ == Seq::new(
            old(out)@.len(),
            |i: int| tri(data@[i], data@[i + 1], data@[i + 2]),
        ),
{
    let len: usize = data.len();
    let mut i: usize = 0;
    while i < out.len()
        invariant
            len == data@.len(),
            i <= out@.len(),
            out@.len() == old(out)@.len(),
            out@.len() == 0 || out@.len() + 2 <= data@.len(),
            forall|k: int|
                0 <= k < i ==> #[trigger] out@[k] == tri(data@[k], data@[k + 1], data@[k + 2]),
        decreases out@.len() - i,
    {
        let t: u32 = pack(&data[i..i + 3]);
        out[i] = t;
        i = i + 1;
    }
}

/// Whether a line of `data` is longer than `MAX_LINE_LEN`.
fn long_line(data: &[u8]) -> (r: bool)
    ensures
        r == has_long_line(data@),
{
    let newlines = positions(NEWLINE, data);
    let mut last: usize = 0;
    let mut k: usize = 0;
    let len: usize = data.len();
    while k < newlines.len()
        invariant
            k <= newlines@.len(),
            last <= len,
            len == data@.len(),
            forall|a: int, b: int| 0 <= a < b < newlines@.len() ==> newlines@[a] < newlines@[b],
            forall|a: int| 0 <= a < newlines@.len() ==> newlines@[a] < data@.len(),
            forall|a: int|
                0 <= a < newlines@.len() ==> data@[#[trigger] newlines@[a] as int] == NEWLINE,
            forall|j: int|
                0 <= j < data@.len() && #[trigger] data@[j] == NEWLINE ==> newlines@.contains(
                    j as usize,
                ),
            forall|a: int| 0 <= a < k ==> newlines@[a] < last,
            forall|a: int| k <= a < newlines@.len() ==> newlines@[a] >= last,
            forall|i: int| #[trigger] unbroken(data@, i, i + MAX_LINE_LEN + 1) ==> i >= last,
        decreases newlines@.len() - k,
    {
        let nl: usize = newlines[k];
        if nl - last > MAX_LINE_LEN {
            proof {
                assert forall|j: int| last <= j < last + MAX_LINE_LEN + 1 implies data@[j] != NEWLINE by {
                    if data@[j] == NEWLINE {
                        assert(newlines@.contains(j as usize));
                    }
                }
                assert(unbroken(data@, last as int, last + MAX_LINE_LEN + 1));
            }
            return true;
        }
        proof {
            assert forall|i: int| #[trigger] unbroken(data@, i, i + MAX_LINE_LEN + 1) implies i
                >= nl + 1 by {
                if i <= nl {
                    assert(data@[nl as int] == NEWLINE);
                }
            }
        }
        last = nl + 1;
        k = k + 1;
    }
    proof {
        if len - last > MAX_LINE_LEN {
            assert forall|j: int| last <= j < last + MAX_LINE_LEN + 1 implies data@[j] != NEWLINE by {
                if data@[j] == NEWLINE {
                    assert(newlines@.contains(j as usize));
                }
            }
            assert(unbroken(data@, last as int, last + MAX_LINE_LEN + 1));
        }
    }
    len - last > MAX_LINE_LEN
}

/// Take every listed trigram out of the bitmap.
fn erase(seen: &mut Bitmap, listed: &[u32])
    requires
        old(seen).wf(),
        forall|k: int| 0 <= k < listed@.len() ==> listed@[k] < 0x100_0000,
        forall|t: u32| #[trigger] old(seen)@.contains(t) ==> listed@.contains(t),
    ensures
        final(seen).wf(),
        final(seen)@ == Set::<u32>::empty(),
{
    let mut k: usize = 0;
    while k < listed.len()
        invariant
            k <= listed@.len(),
            seen.wf(),
            forall|a: int| 0 <= a < listed@.len() ==> listed@[a] < 0x100_0000,
            forall|t: u32| #[trigger]
                seen@.contains(t) ==> exists|a: int| k <= a < listed@.len() && listed@[a] == t,
        decreases listed@.len() - k,
    {
        let ghost before = seen@;
        seen.remove(listed[k]);
        proof {
            assert forall|t: u32| #[trigger] seen@.contains(t) implies exists|a: int|
                k + 1 <= a < listed@.len() && listed@[a] == t by {
                assert(before.contains(t));
                let a = choose|a: int| k <= a < listed@.len() && listed@[a] == t;
                assert(a != k);
            }
        }
        k = k + 1;
    }
    assert(seen@ =~= Set::<u32>::empty());
}

/// Validate a file's contents and return its sorted set of distinct trigrams.
/// Contents shorter than three bytes yield an empty set.
pub fn analyze(data: &[u8]) -> (r: Result<Vec<u32>, Skip>)
    ensures
        match r {
            Ok(v) => analysis(data@) == Ok::<Seq<u32>, Skip>(v@),
            Err(e) => analysis(data@) == Err::<Seq<u32>, Skip>(e),
        },
{
    let mut seen = Bitmap::new();
    analyze_with(&mut seen, data)
}

/// `analyze` with a bitmap that is kept from one file to the next. Only the
/// bits that the file set are cleared afterwards, so small files stay cheap.
pub fn analyze_with(seen: &mut Bitmap, data: &[u8]) -> (r: Result<Vec<u32>, Skip>)
    requires
        old(seen).wf(),
        old(seen)@ == Set::<u32>::empty(),
    ensures
        final(seen).wf(),
        final(seen)@ == Set::<u32>::empty(),
        match r {
            Ok(v) => analysis(data@) == Ok::<Seq<u32>, Skip>(v@),
            Err(e) => analysis(data@) == Err::<Seq<u32>, Skip>(e),
        },
{
    if memchr::memchr(0, data).is_some() {
        return Err(Skip::Binary);
    }
    if utf8(data).is_none() {
        return Err(Skip::InvalidUtf8);
    }
    if long_line(data) {
        return Err(Skip::LongLine);
    }
    let ghost all = packed(data@);
    if data.len() < 3 {
        assert(all.to_set() =~= Set::<u32>::empty());
        assert(sorted_set(all) =~= seq![]);
        return Ok(Vec::new());
    }
    let n: usize = data.len() - 2;
    let mut out: Vec<u32> = Vec::new();
    let mut buf: Vec<u32> = Vec::new();
    let mut i: usize = 0;
    while i < n
        invariant
            i <= n,
            n + 2 == data@.len(),
            data@.len() <= usize::MAX,
            all == packed(data@),
            !data@.contains(0),
            valid_utf8(data@),
            !has_long_line(data@),
            seen.wf(),
            gathered(out@, seen@, all.take(i as int)),
            out@.len() <= MAX_TEXT_TRIGRAMS,
        decreases n - i,
    {
        let m: usize = if n - i < CHUNK { n - i } else { CHUNK };
        buf.resize(m, 0);
        let piece = &data[i..i + m + 2];
        pack_trigrams(piece, buf.as_mut_slice());
        assert(buf@ =~= all.subrange(i as int, i + m));
        let mut k: usize = 0;
        while k < m
            invariant
                k <= m,
                i + m <= n,
                n + 2 == data@.len(),
                all == packed(data@),
                !data@.contains(0),
                valid_utf8(data@),
                !has_long_line(data@),
                buf@ == all.subrange(i as int, i + m),
                seen.wf(),
                gathered(out@, seen@, all.take(i + k)),
                out@.len() <= MAX_TEXT_TRIGRAMS,
            decreases m - k,
        {
            let t: u32 = buf[k];
            assert(t == all[i + k]);
            let ghost (out0, seen0) = (out@, seen@);
            if seen.insert(t) {
                out.push(t);
                proof {
                    lemma_gathered_fresh(out0, seen0, all, i + k);
                }
                if out.len() > MAX_TEXT_TRIGRAMS {
                    proof {
                        lemma_gathered_len(out@, seen@, all, i + k + 1);
                    }
                    erase(seen, &out);
                    return Err(Skip::TooManyTrigrams);
                }
            } else {
                proof {
                    lemma_gathered_again(out0, seen0, all, i + k);
                    assert(seen@ =~= seen0);
                }
            }
            k = k + 1;
        }
        i = i + m;
    }
    proof {
        assert(all.take(n as int) =~= all);
        lemma_gathered_set(out@, all);
    }
    erase(seen, &out);
    Ok(sort_distinct(&out))
}

/// What has been collected of the trigrams `all`: each in `out` once, and the
/// same in `seen`.
spec fn gathered(out: Seq<u32>, seen: Set<u32>, all: Seq<u32>) -> bool {
    &&& out.no_duplicates()
    &&& forall|k: int| 0 <= k < out.len() ==> out[k] < 0x100_0000
    &&& forall|t: u32| #[trigger] seen.contains(t) <==> out.contains(t)
    &&& forall|t: u32| #[trigger] out.contains(t) <==> all.contains(t)
}

proof fn lemma_gathered_fresh(out: Seq<u32>, seen: Set<u32>, all: Seq<u32>, i: int)
    requires
        0 <= i < all.len(),
        gathered(out, seen, all.take(i)),
        !seen.contains(all[i]),
        all[i] < 0x100_0000,
    ensures
        gathered(out.push(all[i]), seen.insert(all[i]), all.take(i + 1)),
{
    let t0 = all[i];
    let out1 = out.push(t0);
    assert(all.take(i + 1) =~= all.take(i).push(t0));
    assert forall|t: u32| #[trigger] out1.contains(t) <==> out.contains(t) || t == t0 by {
        lemma_push_contains(out, t0, t);
    }
    assert forall|t: u32| #[trigger] all.take(i + 1).contains(t) <==> all.take(i).contains(t)
        || t == t0 by {
        lemma_push_contains(all.take(i), t0, t);
    }
    assert(!out.contains(t0));
}

proof fn lemma_gathered_again(out: Seq<u32>, seen: Set<u32>, all: Seq<u32>, i: int)
    requires
        0 <= i < all.len(),
        gathered(out, seen, all.take(i)),
        seen.contains(all[i]),
    ensures
        gathered(out, seen, all.take(i + 1)),
{
    let t0 = all[i];
    assert(all.take(i + 1) =~= all.take(i).push(t0));
    assert(out.contains(t0));
    assert forall|t: u32| #[trigger] out.contains(t) <==> all.take(i + 1).contains(t) by {
        lemma_push_contains(all.take(i), t0, t);
    }
}

proof fn lemma_push_contains(s: Seq<u32>, x: u32, t: u32)
    ensures
        s.push(x).contains(t) <==> s.contains(t) || t == x,
{
    if s.contains(t) {
        let k = choose|k: int| 0 <= k < s.len() && s[k] == t;
        assert(s.push(x)[k] == t);
    }
    assert(s.push(x)[s.len() as int] == x);
    if s.push(x).contains(t) && t != x {
        let k = choose|k: int| 0 <= k < s.push(x).len() && s.push(x)[k] == t;
        assert(s[k] == t);
    }
}

proof fn lemma_gathered_len(out: Seq<u32>, seen: Set<u32>, all: Seq<u32>, i: int)
    requires
        0 <= i <= all.len(),
        gathered(out, seen, all.take(i)),
    ensures
        out.len() <= all.to_set().len(),
{
    out.unique_seq_to_set();
    seq_to_set_is_finite(all);
    assert forall|t: u32| #[trigger] out.to_set().contains(t) implies all.to_set().contains(t) by {
        assert(out.contains(t));
        assert(all.take(i).contains(t));
        let k = choose|k: int| 0 <= k < i && all.take(i)[k] == t;
        assert(all[k] == t);
    }
    lemma_len_subset(out.to_set(), all.to_set());
}

proof fn lemma_gathered_set(out: Seq<u32>, all: Seq<u32>)
    requires
        out.no_duplicates(),
        forall|t: u32| #[trigger] out.contains(t) <==> all.contains(t),
    ensures
        sorted_set(out) == sorted_set(all),
        all.to_set().len() == out.len(),
{
    lemma_sorted_set(out);
    lemma_sorted_set(all);
    assert forall|t: u32| #[trigger] sorted_set(out).contains(t) <==> sorted_set(all).contains(
        t,
    ) by {
        assert(out.contains(t) <==> all.contains(t));
    }
    lemma_in_order_unique(sorted_set(out), sorted_set(all));
    out.unique_seq_to_set();
    assert(out.to_set() =~= all.to_set()) by {
        assert forall|t: u32| out.to_set().contains(t) <==> all.to_set().contains(t) by {
            assert(out.contains(t) <==> all.contains(t));
        }
    }
}

/// Whether the three bytes at `i` make the trigram `t`, the first byte highest.
pub open spec fn stands_in(t: u32, data: Seq<u8>, i: int) -> bool {
    0 <= i && i + 2 < data.len() && t == data[i] * 0x1_0000 + data[i + 1] * 0x100 + data[i + 2]
}

proof fn lemma_packed(data: Seq<u8>, t: u32)
    ensures
        packed(data).contains(t) <==> exists|i: int| #[trigger] stands_in(t, data, i),
{
    if packed(data).contains(t) {
        let i = choose|i: int| 0 <= i < packed(data).len() && packed(data)[i] == t;
        assert(stands_in(t, data, i));
    }
    if exists|i: int| #[trigger] stands_in(t, data, i) {
        let i = choose|i: int| #[trigger] stands_in(t, data, i);
        assert(packed(data)[i] == t);
    }
}

/// The trigrams of a file that is indexed are all those that stand in it, and
/// no others, in ascending order, each once.
pub proof fn law_trigrams_of_file(data: Seq<u8>)
    ensures
        analysis(data) matches Ok(tris) ==> (forall|i: int, j: int|
            0 <= i < j < tris.len() ==> tris[i] < tris[j]) && forall|t: u32| #[trigger]
            tris.contains(t) <==> exists|i: int| #[trigger] stands_in(t, data, i),
{
    if let Ok(tris) = analysis(data) {
        lemma_sorted_set(packed(data));
        assert forall|t: u32| #[trigger] tris.contains(t) <==> exists|i: int| #[trigger]
            stands_in(t, data, i) by {
            lemma_packed(data, t);
            assert(sorted_set(packed(data)).contains(t) <==> packed(data).contains(t));
        }
    }
}

/// A file is indexed if and only if it has no NUL, is valid UTF-8, has no 2001
/// bytes in a row without a newline, and has no more than 20000 distinct
/// trigrams; and of the reasons against it the first in this order is given.
pub proof fn law_indexed_files(data: Seq<u8>)
    ensures
        ({
            let nul = exists|i: int| 0 <= i < data.len() && #[trigger] data[i] == 0;
            let long = exists|i: int| #[trigger] is_stretch(data, i);
            let rich = sorted_set(packed(data)).len() > 20_000;
            &&& analysis(data) is Ok <==> !nul && valid_utf8(data) && !long && !rich
            &&& analysis(data) == Err::<Seq<u32>, Skip>(Skip::Binary) <==> nul
            &&& analysis(data) == Err::<Seq<u32>, Skip>(Skip::InvalidUtf8) <==> !nul && !valid_utf8(
                data,
            )
            &&& analysis(data) == Err::<Seq<u32>, Skip>(Skip::LongLine) <==> !nul && valid_utf8(data)
                && long
            &&& analysis(data) == Err::<Seq<u32>, Skip>(Skip::TooManyTrigrams) <==> !nul
                && valid_utf8(data) && !long && rich
        }),
{
    if data.contains(0) {
        let i = choose|i: int| 0 <= i < data.len() && data[i] == 0;
        assert(data[i] == 0);
    }
    if exists|i: int| #[trigger] is_stretch(data, i) {
        let i = choose|i: int| #[trigger] is_stretch(data, i);
        assert(unbroken(data, i, i + MAX_LINE_LEN + 1));
    }
    if has_long_line(data) {
        let i = choose|i: int| #[trigger] unbroken(data, i, i + MAX_LINE_LEN + 1);
        assert(is_stretch(data, i));
    }
    let tris = sorted_set(packed(data));
    lemma_sorted_set(packed(data));
    assert(tris.no_duplicates());
    tris.unique_seq_to_set();
    assert(tris.to_set() =~= trigrams(data)) by {
        assert forall|t: u32| tris.to_set().contains(t) <==> trigrams(data).contains(t) by {
            assert(tris.contains(t) <==> packed(data).contains(t));
        }
    }
}

/// Whether 2001 bytes from `from` on hold no newline.
pub open spec fn is_stretch(data: Seq<u8>, from: int) -> bool {
    0 <= from && from + 2001 <= data.len() && forall|j: int|
        from <= j < from + 2001 ==> data[j] != 10
}

/// The bytes of a trigram are read back from it, so that no two trigrams are
/// the same number.
pub proof fn law_trigram_bytes(a: u8, b: u8, c: u8)
    ensures
        tri_bytes(tri(a, b, c)) == seq![a, b, c],
        tri(a, b, c) < 0x100_0000,
{
    let t = tri(a, b, c);
    assert(t / 0x1_0000 == a && t / 0x100 % 0x100 == b && t % 0x100 == c) by (nonlinear_arith)
        requires
            t == a * 0x1_0000 + b * 0x100 + c,
            0 <= a < 256,
            0 <= b < 256,
            0 <= c < 256,
    ;
    assert(tri_bytes(t) =~= seq![a, b, c]);
}

/// The reasons not to index a file are told apart in words.
pub proof fn law_reasons_told_apart(a: Skip, b: Skip)
    requires
        a.words() == b.words(),
    ensures
        a == b,
{
    reveal_strlit("binary file (NUL byte)");
    reveal_strlit("invalid UTF-8");
    reveal_strlit("very long lines");
    reveal_strlit("too many trigrams");
    assert("binary file (NUL byte)"@.len() == 22);
    assert("invalid UTF-8"@.len() == 13);
    assert("very long lines"@.len() == 15);
    assert("too many trigrams"@.len() == 17);
    assert(a.words().len() == b.words().len());
}

} // verus!

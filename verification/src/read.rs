//! Index reader and boolean query evaluation.
//!
//! `Index::open` validates every section boundary and every index entry up
//! front, so a truncated or damaged file is reported as such rather than
//! failing part-way through a query.

use vstd::prelude::*;
use vstd::string::StringExecFns;
use vstd::utf8::{decode_utf8, encode_utf8, encode_utf8_decode_utf8, valid_utf8};

use crate::layout::{
    lemma_magic_len, magic, magic_family, rd_u32, rd_u64, trailer_magic, u32_at, u64_at, MAGIC,
    MAGIC_FAMILY, POST_ENTRY_LEN, TRAILER_LEN, TRAILER_MAGIC,
};
use crate::sets::in_order;
use crate::trigram::{lossy, lossy_text, utf8};
use crate::varint::{self, decode_at};

verus! {

/// What is wrong with an index file.
#[derive(Debug, Clone, Copy, PartialEq, Eq, Structural)]
pub enum IndexError {
    /// It is not an index.
    NotAnIndex,
    /// It is an index of another format version.
    OtherVersion,
    /// It is too short to hold a trailer.
    Truncated,
    /// It does not end as an index does.
    BadTrailer,
    /// Its sections are not in order.
    OutOfOrder,
    /// The sizes of its sections are not what the counts ask for.
    SizesDisagree,
    /// A name lies outside the names.
    NameOutOfRange,
    /// A posting list lies outside the postings.
    PostingOutOfRange,
    /// The trigrams are not in order.
    NotSorted,
}

impl IndexError {
    /// What is damaged.
    pub open spec fn what(self) -> Seq<char> {
        match self {
            IndexError::Truncated => "file is truncated"@,
            IndexError::BadTrailer => "bad trailer"@,
            IndexError::OutOfOrder => "section offsets out of order"@,
            IndexError::SizesDisagree => "section sizes disagree with the file counts"@,
            IndexError::NameOutOfRange => "name index entry out of range"@,
            IndexError::PostingOutOfRange => "posting index entry out of range"@,
            IndexError::NotSorted => "posting index is not sorted"@,
            IndexError::NotAnIndex | IndexError::OtherVersion => ""@,
        }
    }

    /// The error text for the index at `path`.
    pub open spec fn text(self, path: Seq<char>) -> Seq<char> {
        match self {
            IndexError::NotAnIndex => path + ": not a csearch-rs index"@,
            IndexError::OtherVersion => path
                + ": written by a different index format version -- run `cindex --reset` and re-index"@,
            _ => path + ": "@ + self.what()
                + " -- the index is corrupt; run `cindex --reset` and re-index"@,
        }
    }

    /// The error text for the index at `path`.
    pub fn message(&self, path: &str) -> (m: String)
        ensures
            m@ == self.text(path@),
    {
        let what = match self {
            IndexError::NotAnIndex => {
                return path.to_owned().concat(": not a csearch-rs index");
            },
            IndexError::OtherVersion => {
                return path.to_owned().concat(
                    ": written by a different index format version -- run `cindex --reset` and re-index",
                );
            },
            IndexError::Truncated => "file is truncated",
            IndexError::BadTrailer => "bad trailer",
            IndexError::OutOfOrder => "section offsets out of order",
            IndexError::SizesDisagree => "section sizes disagree with the file counts",
            IndexError::NameOutOfRange => "name index entry out of range",
            IndexError::PostingOutOfRange => "posting index entry out of range",
            IndexError::NotSorted => "posting index is not sorted",
        };
        path.to_owned().concat(": ").concat(what).concat(
            " -- the index is corrupt; run `cindex --reset` and re-index",
        )
    }
}

/// Where the sections of an index lie, as its trailer has it.
pub struct Sections {
    pub paths: int,
    pub names: int,
    pub nameidx: int,
    pub posts: int,
    pub postidx: int,
    pub end: int,
    pub nfiles: int,
    pub ntrigrams: int,
}

/// The trailer of an index.
pub open spec fn sections(b: Seq<u8>) -> Sections {
    let t = b.len() - TRAILER_LEN;
    Sections {
        paths: u64_at(b, t) as int,
        names: u64_at(b, t + 8) as int,
        nameidx: u64_at(b, t + 16) as int,
        posts: u64_at(b, t + 24) as int,
        postidx: u64_at(b, t + 32) as int,
        end: t,
        nfiles: u32_at(b, t + 40) as int,
        ntrigrams: u32_at(b, t + 44) as int,
    }
}

impl Sections {
    /// Whether the sections follow one another inside the file.
    pub open spec fn in_order(self) -> bool {
        &&& self.paths == magic().len()
        &&& self.paths <= self.names <= self.nameidx <= self.posts <= self.postidx <= self.end
    }

    /// Whether the index sections hold as many entries as the counts say.
    pub open spec fn sized(self) -> bool {
        &&& self.nameidx + self.nfiles * 4 == self.posts
        &&& self.postidx + self.ntrigrams * POST_ENTRY_LEN == self.end
    }

    /// Where the name of file `i` starts, relative to the names.
    pub open spec fn name_start(self, b: Seq<u8>, i: int) -> int {
        u32_at(b, self.nameidx + i * 4) as int
    }

    /// The trigram of posting entry `i`.
    pub open spec fn trigram(self, b: Seq<u8>, i: int) -> u32 {
        u32_at(b, self.postidx + i * POST_ENTRY_LEN)
    }

    /// How many files posting entry `i` lists.
    pub open spec fn count(self, b: Seq<u8>, i: int) -> u32 {
        u32_at(b, self.postidx + i * POST_ENTRY_LEN + 4)
    }

    /// Where the list of posting entry `i` starts, relative to the postings.
    pub open spec fn offset(self, b: Seq<u8>, i: int) -> u64 {
        u64_at(b, self.postidx + i * POST_ENTRY_LEN + 8)
    }

    /// Whether the first `n` names start inside the names.
    pub open spec fn names_inside(self, b: Seq<u8>, n: int) -> bool {
        forall|i: int| 0 <= i < n ==> #[trigger] self.name_start(b, i) < self.nameidx - self.names
    }

    /// What is wrong with the first `n` posting entries: each must point
    /// inside the postings, with room for its count (each posting is at least
    /// one byte), and the trigrams must ascend.
    pub open spec fn entries_error(self, b: Seq<u8>, n: nat) -> Option<IndexError>
        decreases n,
    {
        if n == 0 {
            None
        } else {
            match self.entries_error(b, (n - 1) as nat) {
                Some(e) => Some(e),
                None => if self.offset(b, n - 1) + self.count(b, n - 1) > self.postidx
                    - self.posts {
                    Some(IndexError::PostingOutOfRange)
                } else if n > 1 && self.trigram(b, n - 2) >= self.trigram(b, n - 1) {
                    Some(IndexError::NotSorted)
                } else {
                    None
                },
            }
        }
    }
}

/// What is wrong with the bytes of an index, if anything.
pub open spec fn index_error(b: Seq<u8>) -> Option<IndexError> {
    let s = sections(b);
    if !magic().is_prefix_of(b) {
        if magic_family().is_prefix_of(b) {
            Some(IndexError::OtherVersion)
        } else {
            Some(IndexError::NotAnIndex)
        }
    } else if b.len() < magic().len() + TRAILER_LEN {
        Some(IndexError::Truncated)
    } else if b.skip(b.len() - 8) != trailer_magic() {
        Some(IndexError::BadTrailer)
    } else if !s.in_order() {
        Some(IndexError::OutOfOrder)
    } else if !s.sized() {
        Some(IndexError::SizesDisagree)
    } else if !s.names_inside(b, s.nfiles) {
        Some(IndexError::NameOutOfRange)
    } else {
        s.entries_error(b, s.ntrigrams as nat)
    }
}

/// A validated index.
#[derive(Debug)]
pub struct Index<'a> {
    map: &'a [u8],
    paths_off: usize,
    names_off: usize,
    nameidx_off: usize,
    posts_off: usize,
    postidx_off: usize,
    nfiles: u32,
    ntrigrams: u32,
}

/// Whether `b` starts with `p`.
fn starts_with(b: &[u8], p: &[u8]) -> (r: bool)
    ensures
        r == p@.is_prefix_of(b@),
{
    if p.len() > b.len() {
        return false;
    }
    let mut i: usize = 0;
    while i < p.len()
        invariant
            i <= p@.len() <= b@.len(),
            forall|k: int| 0 <= k < i ==> p@[k] == b@[k],
        decreases p@.len() - i,
    {
        if p[i] != b[i] {
            assert(p@[i as int] != b@.take(p@.len() as int)[i as int]);
            return false;
        }
        i = i + 1;
    }
    assert(p@ =~= b@.take(p@.len() as int));
    true
}

impl<'a> Index<'a> {
    /// The bytes of the index.
    pub closed spec fn bytes(&self) -> Seq<u8> {
        self.map@
    }

    /// The bytes are those of a valid index.
    pub closed spec fn wf(&self) -> bool {
        let s = sections(self.map@);
        &&& index_error(self.map@) is None
        &&& s.paths == self.paths_off
        &&& s.names == self.names_off
        &&& s.nameidx == self.nameidx_off
        &&& s.posts == self.posts_off
        &&& s.postidx == self.postidx_off
        &&& s.nfiles == self.nfiles
        &&& s.ntrigrams == self.ntrigrams
    }

    /// Validate the bytes of an index.
    pub fn open(map: &'a [u8]) -> (r: Result<Index<'a>, IndexError>)
        ensures
            match r {
                Ok(ix) => index_error(map@) is None && ix.wf() && ix.bytes() == map@,
                Err(e) => index_error(map@) == Some(e),
            },
    {
        proof {
            lemma_magic_len();
        }
        let ghost b = map@;
        let ghost s = sections(b);
        if !starts_with(map, MAGIC.as_bytes()) {
            if starts_with(map, MAGIC_FAMILY.as_bytes()) {
                return Err(IndexError::OtherVersion);
            }
            return Err(IndexError::NotAnIndex);
        }
        let len: usize = map.len();
        if len < MAGIC.len() + TRAILER_LEN {
            return Err(IndexError::Truncated);
        }
        let t: usize = len - TRAILER_LEN;
        proof {
            assert(b.subrange(len - 8, len as int) =~= b.skip(len - 8));
            if trailer_magic().is_prefix_of(b.skip(len - 8)) {
                assert(b.skip(len - 8) =~= trailer_magic());
            }
        }
        if !starts_with(&map[len - 8..len], TRAILER_MAGIC.as_bytes()) {
            return Err(IndexError::BadTrailer);
        }
        let paths_off: u64 = rd_u64(map, t);
        let names_off: u64 = rd_u64(map, t + 8);
        let nameidx_off: u64 = rd_u64(map, t + 16);
        let posts_off: u64 = rd_u64(map, t + 24);
        let postidx_off: u64 = rd_u64(map, t + 32);
        let nfiles: u32 = rd_u32(map, t + 40);
        let ntrigrams: u32 = rd_u32(map, t + 44);

        // Sections must be in order and inside the file, and their sizes must
        // agree with the counts. Every later read is bounded by these checks.
        let ordered = paths_off == MAGIC.len() as u64 && paths_off <= names_off && names_off
            <= nameidx_off && nameidx_off <= posts_off && posts_off <= postidx_off && postidx_off
            <= t as u64;
        if !ordered {
            return Err(IndexError::OutOfOrder);
        }
        if posts_off - nameidx_off != nfiles as u64 * 4 || t as u64 - postidx_off != ntrigrams
            as u64 * (POST_ENTRY_LEN as u64) {
            return Err(IndexError::SizesDisagree);
        }
        // Every name-index entry must point inside the names section.
        let names_len: u64 = nameidx_off - names_off;
        let mut i: u32 = 0;
        while i < nfiles
            invariant
                i <= nfiles,
                b == map@,
                s == sections(b),
                s.in_order() && s.sized(),
                s.nfiles == nfiles,
                s.nameidx == nameidx_off,
                s.end <= b.len() == len,
                names_len == s.nameidx - s.names,
                s.names_inside(b, i as int),
                index_error(b) == if !s.names_inside(b, s.nfiles) {
                    Some(IndexError::NameOutOfRange)
                } else {
                    s.entries_error(b, s.ntrigrams as nat)
                },
            decreases nfiles - i,
        {
            let at: usize = nameidx_off as usize + i as usize * 4;
            let start: u32 = rd_u32(map, at);
            assert(start == s.name_start(b, i as int));
            if start as u64 >= names_len {
                assert(!s.names_inside(b, s.nfiles));
                return Err(IndexError::NameOutOfRange);
            }
            i = i + 1;
        }
        // Every posting-index entry must point inside the postings, with room
        // for its count, and the trigrams must be sorted or the binary search
        // is meaningless.
        let posts_len: u64 = postidx_off - posts_off;
        let mut prev: Option<u32> = None;
        let mut i: u32 = 0;
        while i < ntrigrams
            invariant
                i <= ntrigrams,
                b == map@,
                s == sections(b),
                s.in_order() && s.sized(),
                s.ntrigrams == ntrigrams,
                s.postidx == postidx_off,
                s.end <= b.len() == len,
                posts_len == s.postidx - s.posts,
                s.entries_error(b, i as nat) is None,
                index_error(b) == s.entries_error(b, s.ntrigrams as nat),
                i == 0 ==> prev is None,
                i > 0 ==> prev == Some(s.trigram(b, i - 1)),
            decreases ntrigrams - i,
        {
            let at: usize = postidx_off as usize + i as usize * POST_ENTRY_LEN;
            let trigram: u32 = rd_u32(map, at);
            let count: u32 = rd_u32(map, at + 4);
            let off: u64 = rd_u64(map, at + 8);
            if off > posts_len || count as u64 > posts_len - off {
                proof {
                    lemma_first_error(s, b, (i + 1) as nat, s.ntrigrams as nat);
                }
                return Err(IndexError::PostingOutOfRange);
            }
            if let Some(p) = prev {
                if p >= trigram {
                    proof {
                        lemma_first_error(s, b, (i + 1) as nat, s.ntrigrams as nat);
                    }
                    return Err(IndexError::NotSorted);
                }
            }
            prev = Some(trigram);
            i = i + 1;
        }
        Ok(
            Index {
                map,
                paths_off: paths_off as usize,
                names_off: names_off as usize,
                nameidx_off: nameidx_off as usize,
                posts_off: posts_off as usize,
                postidx_off: postidx_off as usize,
                nfiles,
                ntrigrams,
            },
        )
    }
}

/// An error among the first entries is the error of all of them.
proof fn lemma_first_error(s: Sections, b: Seq<u8>, k: nat, n: nat)
    requires
        k <= n,
        s.entries_error(b, k) is Some,
    ensures
        s.entries_error(b, n) == s.entries_error(b, k),
    decreases n - k,
{
    if k < n {
        lemma_first_error(s, b, k, (n - 1) as nat);
    }
}

/// How many bytes stand before the first NUL; all of them, if there is none.
pub open spec fn first_nul(s: Seq<u8>) -> nat
    decreases s.len(),
{
    if s.len() == 0 || s[0] == 0 {
        0
    } else {
        1 + first_nul(s.skip(1))
    }
}

/// The texts of a section of NUL-terminated strings, up to an empty one.
pub open spec fn texts_in(section: Seq<u8>) -> Seq<Seq<char>>
    decreases section.len(),
{
    let n = first_nul(section);
    if n == 0 || n >= section.len() {
        seq![]
    } else {
        seq![lossy_text(section.take(n as int))] + texts_in(section.skip(n as int + 1))
    }
}

/// The texts of a list.
pub open spec fn strings(v: Seq<String>) -> Seq<Seq<char>> {
    Seq::new(v.len(), |i: int| v[i]@)
}

/// The roots of an index.
pub open spec fn roots_of(b: Seq<u8>) -> Seq<Seq<char>> {
    let s = sections(b);
    texts_in(b.subrange(s.paths, s.names))
}

/// The bytes of the name of file `id`.
pub open spec fn raw_name(b: Seq<u8>, id: int) -> Seq<u8> {
    let s = sections(b);
    let rest = b.subrange(s.names + s.name_start(b, id), s.nameidx);
    rest.take(first_nul(rest) as int)
}

/// The name of file `id`; empty for an id the index does not have.
pub open spec fn name_of(b: Seq<u8>, id: int) -> Seq<char> {
    if id >= sections(b).nfiles {
        ""@
    } else if valid_utf8(raw_name(b, id)) {
        decode_utf8(raw_name(b, id))
    } else {
        "<invalid utf-8 name>"@
    }
}

/// Whether posting entry `i` is that of trigram `t`.
pub open spec fn is_entry(b: Seq<u8>, t: u32, i: int) -> bool {
    0 <= i < sections(b).ntrigrams && sections(b).trigram(b, i) == t
}

/// The files that a posting list names: `left` varints from `pos` on, the
/// first an id, the others differences. An id that is repeated is taken once.
/// A list that is cut short, or that names a file that does not exist, ends
/// there.
pub open spec fn ids_at(
    buf: Seq<u8>,
    pos: nat,
    left: nat,
    last: Option<u32>,
    nfiles: int,
) -> Seq<u32>
    decreases left,
{
    if left == 0 {
        seq![]
    } else {
        match decode_at(buf, pos) {
            (Some(v), next) => {
                let id = match last {
                    Some(p) => p + v,
                    None => v as int,
                };
                if id >= nfiles {
                    seq![]
                } else if last is Some && v == 0 {
                    ids_at(buf, next, (left - 1) as nat, last, nfiles)
                } else {
                    seq![id as u32] + ids_at(buf, next, (left - 1) as nat, Some(id as u32), nfiles)
                }
            },
            (None, _) => seq![],
        }
    }
}

/// The files listed by posting entry `i`.
pub open spec fn entry_list(b: Seq<u8>, i: int) -> Seq<u32> {
    let s = sections(b);
    ids_at(
        b.take(s.postidx),
        (s.posts + s.offset(b, i)) as nat,
        s.count(b, i) as nat,
        None,
        s.nfiles,
    )
}

/// The files listed for trigram `t`.
pub open spec fn list_of(b: Seq<u8>, t: u32) -> Seq<u32> {
    if exists|i: int| is_entry(b, t, i) {
        entry_list(b, choose|i: int| is_entry(b, t, i))
    } else {
        seq![]
    }
}

/// How many files the posting entry of trigram `t` claims to list.
pub open spec fn count_of(b: Seq<u8>, t: u32) -> u32 {
    if exists|i: int| is_entry(b, t, i) {
        sections(b).count(b, choose|i: int| is_entry(b, t, i))
    } else {
        0
    }
}

pub proof fn lemma_first_nul(s: Seq<u8>, n: nat)
    requires
        n <= s.len(),
        forall|j: int| 0 <= j < n ==> s[j] != 0,
        n < s.len() ==> s[n as int] == 0,
    ensures
        first_nul(s) == n,
    decreases s.len(),
{
    if n > 0 {
        lemma_first_nul(s.skip(1), (n - 1) as nat);
    }
}

pub proof fn lemma_first_nul_bound(s: Seq<u8>)
    ensures
        first_nul(s) <= s.len(),
        forall|j: int| 0 <= j < first_nul(s) ==> s[j] != 0,
        first_nul(s) < s.len() ==> s[first_nul(s) as int] == 0,
    decreases s.len(),
{
    if s.len() > 0 && s[0] != 0 {
        let rest = s.skip(1);
        lemma_first_nul_bound(rest);
        assert forall|j: int| 0 <= j < first_nul(s) implies s[j] != 0 by {
            if j > 0 {
                assert(rest[j - 1] == s[j]);
            }
        }
    }
}

/// In a valid index every entry points inside the postings and the trigrams
/// ascend.
pub proof fn lemma_entries(s: Sections, b: Seq<u8>, n: nat)
    requires
        s.entries_error(b, n) is None,
    ensures
        forall|i: int|
            0 <= i < n ==> #[trigger] s.offset(b, i) + s.count(b, i) <= s.postidx - s.posts,
        forall|i: int, j: int| 0 <= i < j < n ==> #[trigger] s.trigram(b, i) < #[trigger] s.trigram(b, j),
    decreases n,
{
    if n > 0 {
        lemma_entries(s, b, (n - 1) as nat);
        assert forall|i: int, j: int| 0 <= i < j < n implies #[trigger] s.trigram(b, i)
            < #[trigger] s.trigram(b, j) by {
            if j == n - 1 {
                assert(s.trigram(b, n - 2) < s.trigram(b, n - 1));
                assert(i < n - 2 ==> s.trigram(b, i) < s.trigram(b, n - 2));
            }
        }
    }
}

/// The ids of a posting list ascend, and are those of files.
proof fn lemma_ids(buf: Seq<u8>, pos: nat, left: nat, last: Option<u32>, nfiles: int)
    requires
        nfiles <= u32::MAX,
    ensures
        ({
            let ids = ids_at(buf, pos, left, last, nfiles);
            &&& in_order(ids)
            &&& forall|i: int| 0 <= i < ids.len() ==> ids[i] < nfiles
            &&& last matches Some(p) ==> forall|i: int| 0 <= i < ids.len() ==> p < ids[i]
        }),
    decreases left,
{
    let ids = ids_at(buf, pos, left, last, nfiles);
    let (v, next) = decode_at(buf, pos);
    if ids.len() > 0 && last is Some && v == Some(0u32) {
        lemma_ids(buf, next, (left - 1) as nat, last, nfiles);
    } else if ids.len() > 0 {
        let rest = ids_at(buf, next, (left - 1) as nat, Some(ids[0]), nfiles);
        lemma_ids(buf, next, (left - 1) as nat, Some(ids[0]), nfiles);
        assert(ids =~= seq![ids[0]] + rest);
    }
}

/// A posting list ascends, and names files only.
pub proof fn lemma_list(b: Seq<u8>, t: u32)
    ensures
        in_order(list_of(b, t)),
        forall|id: u32| #[trigger] list_of(b, t).contains(id) ==> id < sections(b).nfiles,
{
    let s = sections(b);
    if exists|i: int| is_entry(b, t, i) {
        let i = choose|i: int| is_entry(b, t, i);
        lemma_ids(
            b.take(s.postidx),
            (s.posts + s.offset(b, i)) as nat,
            s.count(b, i) as nat,
            None,
            s.nfiles,
        );
    }
}

impl<'a> Index<'a> {
    /// Root directories that were indexed.
    pub fn roots(&self) -> (r: Vec<String>)
        requires
            self.wf(),
        ensures
            strings(r@) == roots_of(self.bytes()),
    {
        let section = &self.map[self.paths_off..self.names_off];
        let ghost sec = section@;
        let mut out: Vec<String> = Vec::new();
        let mut pos: usize = 0;
        let len: usize = section.len();
        proof {
            assert(sec.skip(0) =~= sec);
            assert(strings(out@) + texts_in(sec) =~= texts_in(sec));
        }
        while pos < len
            invariant_except_break
                pos <= len,
                len == sec.len(),
                sec == section@,
                strings(out@) + texts_in(sec.skip(pos as int)) == texts_in(sec),
            ensures
                strings(out@) == texts_in(sec),
            decreases len - pos,
        {
            let rest = &section[pos..len];
            let ghost tail = sec.skip(pos as int);
            assert(rest@ =~= tail);
            match memchr::memchr(0, rest) {
                None => {
                    proof {
                        lemma_first_nul(tail, tail.len());
                        assert(strings(out@) + texts_in(tail) =~= strings(out@));
                    }
                    break;
                },
                Some(n) => {
                    proof {
                        lemma_first_nul(tail, n as nat);
                    }
                    if n == 0 {
                        assert(strings(out@) + texts_in(tail) =~= strings(out@));
                        break;
                    }
                    let text = lossy(&section[pos..pos + n]);
                    let ghost before = strings(out@);
                    out.push(text);
                    proof {
                        assert(sec.subrange(pos as int, pos + n) =~= tail.take(n as int));
                        assert(tail.skip(n as int + 1) =~= sec.skip(pos + n + 1));
                        assert(strings(out@) =~= before.push(text@));
                        let later = texts_in(sec.skip(pos + n + 1));
                        assert(before + (seq![text@] + later) =~= before.push(text@) + later);
                    }
                    pos = pos + n + 1;
                },
            }
            proof {
                if pos >= len {
                    assert(texts_in(sec.skip(pos as int)) =~= seq![]);
                    assert(strings(out@) + texts_in(sec.skip(pos as int)) =~= strings(out@));
                }
            }
        }
        out
    }

    /// How many files the index has.
    pub fn num_files(&self) -> (n: u32)
        requires
            self.wf(),
        ensures
            n == sections(self.bytes()).nfiles,
    {
        self.nfiles
    }

    /// How many trigrams the index has.
    pub fn num_trigrams(&self) -> (n: u32)
        requires
            self.wf(),
        ensures
            n == sections(self.bytes()).ntrigrams,
    {
        self.ntrigrams
    }

    /// File name for an id; empty for an id the index does not have.
    pub fn name(&self, id: u32) -> (r: &str)
        requires
            self.wf(),
        ensures
            r@ == name_of(self.bytes(), id as int),
    {
        if id >= self.nfiles {
            return "";
        }
        let ghost b = self.map@;
        let ghost s = sections(b);
        assert(self.map.len() == self.map@.len());
        let start: usize = rd_u32(self.map, self.nameidx_off + id as usize * 4) as usize;
        assert(start == s.name_start(b, id as int));
        let rest = &self.map[self.names_off + start..self.nameidx_off];
        let end: usize = match memchr::memchr(0, rest) {
            Some(n) => n,
            None => rest.len(),
        };
        proof {
            lemma_first_nul(rest@, end as nat);
            assert(rest@.subrange(0, end as int) =~= raw_name(b, id as int));
        }
        match utf8(&rest[0..end]) {
            Some(text) => {
                proof {
                    encode_utf8_decode_utf8(text@);
                }
                text
            },
            None => "<invalid utf-8 name>",
        }
    }

    /// The index of the posting entry for a trigram, via binary search.
    fn find_post(&self, t: u32) -> (r: Option<usize>)
        requires
            self.wf(),
        ensures
            match r {
                Some(i) => is_entry(self.bytes(), t, i as int),
                None => forall|i: int| !is_entry(self.bytes(), t, i),
            },
    {
        let ghost b = self.map@;
        let ghost s = sections(b);
        proof {
            lemma_entries(s, b, s.ntrigrams as nat);
        }
        let mut lo: usize = 0;
        let mut hi: usize = self.ntrigrams as usize;
        while lo < hi
            invariant
                self.wf(),
                b == self.map@,
                s == sections(b),
                lo <= hi <= self.ntrigrams,
                forall|i: int, j: int|
                    0 <= i < j < s.ntrigrams ==> #[trigger] s.trigram(b, i) < #[trigger] s.trigram(b, j),
                forall|i: int| 0 <= i < lo ==> #[trigger] s.trigram(b, i) < t,
                forall|i: int| hi <= i < s.ntrigrams ==> #[trigger] s.trigram(b, i) > t,
            decreases hi - lo,
        {
            let mid: usize = lo + (hi - lo) / 2;
            assert(self.map.len() == self.map@.len());
            assert(mid * POST_ENTRY_LEN + POST_ENTRY_LEN <= s.ntrigrams * POST_ENTRY_LEN);
            let tt: u32 = rd_u32(self.map, self.postidx_off + mid * POST_ENTRY_LEN);
            assert(tt == s.trigram(b, mid as int));
            if tt < t {
                lo = mid + 1;
            } else if tt > t {
                hi = mid;
            } else {
                return Some(mid);
            }
        }
        None
    }

    /// How many files the index lists for a trigram.
    pub fn posting_count(&self, t: u32) -> (n: u32)
        requires
            self.wf(),
        ensures
            n == count_of(self.bytes(), t),
    {
        match self.find_post(t) {
            Some(i) => {
                proof {
                    assert(self.map.len() == self.map@.len());
                    lemma_same_entry(self.map@, t, i as int);
                }
                rd_u32(self.map, self.postidx_off + i * POST_ENTRY_LEN + 4)
            },
            None => 0,
        }
    }

    /// Sorted file ids containing trigram `t`.
    pub fn posting_list(&self, t: u32) -> (r: Vec<u32>)
        requires
            self.wf(),
        ensures
            r@ == list_of(self.bytes(), t),
            in_order(r@),
    {
        proof {
            lemma_list(self.bytes(), t);
        }
        let ghost b = self.map@;
        let ghost s = sections(b);
        assert(self.map.len() == self.map@.len());
        let mut out: Vec<u32> = Vec::new();
        let i: usize = match self.find_post(t) {
            Some(i) => i,
            None => {
                return out;
            },
        };
        proof {
            lemma_same_entry(b, t, i as int);
            lemma_entries(s, b, s.ntrigrams as nat);
            assert(s.offset(b, i as int) + s.count(b, i as int) <= s.postidx - s.posts);
        }
        let count: u32 = rd_u32(self.map, self.postidx_off + i * POST_ENTRY_LEN + 4);
        let off: u64 = rd_u64(self.map, self.postidx_off + i * POST_ENTRY_LEN + 8);
        let postings = &self.map[0..self.postidx_off];
        assert(postings@ =~= b.take(s.postidx));
        let mut pos: usize = self.posts_off + off as usize;
        let mut last: Option<u32> = None;
        let mut k: u32 = 0;
        let ghost whole = entry_list(b, i as int);
        assert(out@ + whole =~= whole);
        while k < count
            invariant_except_break
                k <= count,
                self.wf(),
                s == sections(self.map@),
                postings@ == b.take(s.postidx),
                last matches Some(p) ==> p < self.nfiles,
                out@ + ids_at(postings@, pos as nat, (count - k) as nat, last, s.nfiles) == whole,
            ensures
                out@ == whole,
            decreases count - k,
        {
            let ghost rest = ids_at(postings@, pos as nat, (count - k) as nat, last, s.nfiles);
            match varint::get(postings, &mut pos) {
                None => {
                    assert(out@ + rest =~= out@);
                    break;
                },
                Some(v) => {
                    // Damaged data: stop rather than name a file that does not
                    // exist, and name none twice.
                    let (from, repeated): (u32, bool) = match last {
                        Some(p) => (p, v == 0),
                        None => (0, false),
                    };
                    if v >= self.nfiles - from {
                        assert(out@ + rest =~= out@);
                        break;
                    }
                    k = k + 1;
                    if repeated {
                        proof {
                            let left = (count - k) as nat;
                            let later = ids_at(postings@, pos as nat, left, last, s.nfiles);
                            assert(rest == later);
                            if k == count {
                                assert(out@ + later =~= out@);
                            }
                        }
                        continue;
                    }
                    let id: u32 = from + v;
                    let ghost before = out@;
                    out.push(id);
                    last = Some(id);
                    proof {
                        let later = ids_at(
                            postings@,
                            pos as nat,
                            (count - k) as nat,
                            last,
                            s.nfiles,
                        );
                        assert(rest == seq![id] + later);
                        assert(before + (seq![id] + later) =~= before.push(id) + later);
                        if k == count {
                            assert(before.push(id) + later =~= before.push(id));
                        }
                    }
                },
            }
        }
        out
    }
}

/// A trigram has at most one entry.
pub proof fn lemma_same_entry(b: Seq<u8>, t: u32, i: int)
    requires
        index_error(b) is None,
        is_entry(b, t, i),
    ensures
        list_of(b, t) == entry_list(b, i),
        count_of(b, t) == sections(b).count(b, i),
{
    let s = sections(b);
    lemma_entries(s, b, s.ntrigrams as nat);
    let j = choose|j: int| is_entry(b, t, j);
    assert(is_entry(b, t, j));
    assert(i < j ==> s.trigram(b, i) < s.trigram(b, j));
    assert(j < i ==> s.trigram(b, j) < s.trigram(b, i));
}

/// An index that opens starts and ends as an index does, its sections follow
/// one another and fill it, every name starts among the names, every posting
/// list lies among the postings, and the trigrams ascend.
pub proof fn law_opened(b: Seq<u8>)
    requires
        index_error(b) is None,
    ensures
        ({
            let s = sections(b);
            &&& encode_utf8("csearch-rs index 1\n"@).is_prefix_of(b)
            &&& b.len() >= 75
            &&& b.skip(b.len() - 8) == encode_utf8("CSRSIDX1"@)
            &&& 19 == s.paths <= s.names <= s.nameidx <= s.posts <= s.postidx <= b.len() - 56
            &&& s.nameidx + 4 * s.nfiles == s.posts
            &&& s.postidx + 16 * s.ntrigrams == b.len() - 56
            &&& forall|i: int|
                0 <= i < s.nfiles ==> #[trigger] s.name_start(b, i) < s.nameidx - s.names
            &&& forall|i: int|
                0 <= i < s.ntrigrams ==> #[trigger] s.offset(b, i) + s.count(b, i) <= s.postidx
                    - s.posts
            &&& forall|i: int, j: int|
                0 <= i < j < s.ntrigrams ==> #[trigger] s.trigram(b, i) < #[trigger] s.trigram(b, j)
        }),
{
    let s = sections(b);
    lemma_magic_len();
    lemma_entries(s, b, s.ntrigrams as nat);
}

/// What is not an index is told from an index of another version and from one
/// that is cut short or does not end as an index does.
pub proof fn law_refused(b: Seq<u8>)
    ensures
        ({
            let ours = encode_utf8("csearch-rs index 1\n"@).is_prefix_of(b);
            let kin = encode_utf8("csearch-rs index "@).is_prefix_of(b);
            &&& !kin && !ours ==> index_error(b) == Some(IndexError::NotAnIndex)
            &&& kin && !ours ==> index_error(b) == Some(IndexError::OtherVersion)
            &&& ours && b.len() < 75 ==> index_error(b) == Some(IndexError::Truncated)
            &&& ours && b.len() >= 75 && b.skip(b.len() - 8) != encode_utf8("CSRSIDX1"@)
                ==> index_error(b) == Some(IndexError::BadTrailer)
        }),
{
    lemma_magic_len();
}

/// Whatever the bytes, a posting list ascends and names no file that the index
/// does not have, and no file without a name is given one.
pub proof fn law_lists_name_files(b: Seq<u8>, t: u32, id: u32)
    ensures
        forall|i: int, j: int|
            0 <= i < j < list_of(b, t).len() ==> list_of(b, t)[i] < list_of(b, t)[j],
        list_of(b, t).contains(id) ==> id < sections(b).nfiles,
        id >= sections(b).nfiles ==> name_of(b, id as int).len() == 0,
{
    reveal_strlit("");
    lemma_list(b, t);
}

/// How long the text of an error is, but for where the index is.
spec fn text_len(e: IndexError) -> nat {
    match e {
        IndexError::NotAnIndex => 24,
        IndexError::OtherVersion => 82,
        IndexError::Truncated => 78,
        IndexError::BadTrailer => 72,
        IndexError::OutOfOrder => 89,
        IndexError::SizesDisagree => 104,
        IndexError::NameOutOfRange => 90,
        IndexError::PostingOutOfRange => 93,
        IndexError::NotSorted => 88,
    }
}

proof fn lemma_text_len(e: IndexError, path: Seq<char>)
    ensures
        e.text(path).len() == path.len() + text_len(e),
{
    reveal_strlit("file is truncated");
    reveal_strlit("bad trailer");
    reveal_strlit("section offsets out of order");
    reveal_strlit("section sizes disagree with the file counts");
    reveal_strlit("name index entry out of range");
    reveal_strlit("posting index entry out of range");
    reveal_strlit("posting index is not sorted");
    reveal_strlit(": not a csearch-rs index");
    reveal_strlit(
        ": written by a different index format version -- run `cindex --reset` and re-index",
    );
    reveal_strlit(" -- the index is corrupt; run `cindex --reset` and re-index");
    reveal_strlit(": ");
}

/// What is said of an index that does not open starts with where it is, and
/// tells the reasons apart; of one that is damaged it says to index anew.
pub proof fn law_errors_told_apart(a: IndexError, b: IndexError, path: Seq<char>)
    ensures
        path.is_prefix_of(a.text(path)),
        a.text(path) == b.text(path) ==> a == b,
        a != IndexError::NotAnIndex ==> exists|front: Seq<char>|
            a.text(path) == #[trigger] (front + "run `cindex --reset` and re-index"@),
{
    let x = a.text(path);
    lemma_text_len(a, path);
    lemma_text_len(b, path);
    assert(x == b.text(path) ==> text_len(a) == text_len(b));
    assert(text_len(a) == text_len(b) ==> a == b);
    assert(x.take(path.len() as int) =~= path);
    if a != IndexError::NotAnIndex {
        reveal_strlit(
            ": written by a different index format version -- run `cindex --reset` and re-index",
        );
        reveal_strlit(" -- the index is corrupt; run `cindex --reset` and re-index");
        reveal_strlit("run `cindex --reset` and re-index");
        let end = "run `cindex --reset` and re-index"@;
        let front = x.take(x.len() - end.len());
        assert(x.skip(x.len() - end.len()) =~= end);
        assert(x =~= front + end);
    }
}

/// A posting list is read number by number: each is added to the id before it,
/// or is the first id. A sum that is no file of the index ends the list, and a
/// difference of nothing is passed over.
pub proof fn law_list_step(
    before: Seq<u8>,
    v: u32,
    after: Seq<u8>,
    left: nat,
    last: Option<u32>,
    nfiles: int,
)
    requires
        left > 0,
    ensures
        ({
            let buf = before + varint::encode(v as nat) + after;
            let next = (before.len() + varint::encode(v as nat).len()) as nat;
            let list = ids_at(buf, before.len(), left, last, nfiles);
            let id = match last {
                Some(p) => p + v,
                None => v as int,
            };
            &&& id >= nfiles ==> list.len() == 0
            &&& id < nfiles && last is Some && v == 0 ==> list == ids_at(
                buf,
                next,
                (left - 1) as nat,
                last,
                nfiles,
            )
            &&& id < nfiles <= u32::MAX && (last is None || v > 0) ==> list == seq![id as u32]
                + ids_at(buf, next, (left - 1) as nat, Some(id as u32), nfiles)
        }),
{
    varint::law_roundtrip(before, v, after);
}

/// A posting list that is cut short ends where it was cut.
pub proof fn law_list_cut_short(buf: Seq<u8>, left: nat, last: Option<u32>, nfiles: int)
    ensures
        ids_at(buf, buf.len(), left, last, nfiles).len() == 0,
        ids_at(buf, 0, 0, last, nfiles).len() == 0,
{
    assert(buf.skip(buf.len() as int) =~= seq![]);
}

/// Whether posting entry `i` points outside the postings.
pub open spec fn points_outside(b: Seq<u8>, i: int) -> bool {
    let s = sections(b);
    s.offset(b, i) + s.count(b, i) > s.postidx - s.posts
}

/// Whether the trigram of posting entry `i` is not above that before it.
pub open spec fn descends(b: Seq<u8>, i: int) -> bool {
    i > 0 && sections(b).trigram(b, i - 1) >= sections(b).trigram(b, i)
}

/// What is wrong with an index that starts and ends as one is told by the first
/// of these that is wrong: its sections do not follow one another, their sizes
/// are not those of the counts, a name starts outside the names, or there is a
/// first posting entry that points outside the postings or is out of order.
pub proof fn law_damage_told(b: Seq<u8>, i: int)
    requires
        encode_utf8("csearch-rs index 1\n"@).is_prefix_of(b),
        b.len() >= 75,
        b.skip(b.len() - 8) == encode_utf8("CSRSIDX1"@),
    ensures
        ({
            let s = sections(b);
            let follow = 19 == s.paths <= s.names <= s.nameidx <= s.posts <= s.postidx <= b.len()
                - 56;
            let fit = s.nameidx + 4 * s.nfiles == s.posts && s.postidx + 16 * s.ntrigrams == b.len()
                - 56;
            let named = forall|k: int|
                0 <= k < s.nfiles ==> #[trigger] s.name_start(b, k) < s.nameidx - s.names;
            let first = 0 <= i < s.ntrigrams && forall|k: int|
                0 <= k < i ==> !(#[trigger] points_outside(b, k)) && !descends(b, k);
            &&& !follow ==> index_error(b) == Some(IndexError::OutOfOrder)
            &&& follow && !fit ==> index_error(b) == Some(IndexError::SizesDisagree)
            &&& follow && fit && !named ==> index_error(b) == Some(IndexError::NameOutOfRange)
            &&& follow && fit && named && first && points_outside(b, i) ==> index_error(b) == Some(
                IndexError::PostingOutOfRange,
            )
            &&& follow && fit && named && first && !points_outside(b, i) && descends(b, i)
                ==> index_error(b) == Some(IndexError::NotSorted)
        }),
{
    let s = sections(b);
    lemma_magic_len();
    if 0 <= i < s.ntrigrams && forall|k: int|
        0 <= k < i ==> !(#[trigger] points_outside(b, k)) && !descends(b, k) {
        lemma_entries_before(b, i as nat);
        if points_outside(b, i) || descends(b, i) {
            lemma_entries_after(b, (i + 1) as nat, s.ntrigrams as nat);
        }
    }
}

proof fn lemma_entries_before(b: Seq<u8>, n: nat)
    requires
        forall|k: int| 0 <= k < n ==> !(#[trigger] points_outside(b, k)) && !descends(b, k),
    ensures
        sections(b).entries_error(b, n) is None,
    decreases n,
{
    if n > 0 {
        lemma_entries_before(b, (n - 1) as nat);
        assert(!points_outside(b, n - 1));
    }
}

proof fn lemma_entries_after(b: Seq<u8>, n: nat, m: nat)
    requires
        n <= m,
        sections(b).entries_error(b, n) is Some,
    ensures
        sections(b).entries_error(b, m) == sections(b).entries_error(b, n),
    decreases m,
{
    if n < m {
        lemma_entries_after(b, n, (m - 1) as nat);
    }
}

} // verus!

//! Index construction.
//!
//! Files are taken in the order of their ids, and each is appended to the
//! delta-varint posting lists of its trigrams through a dense trigram-to-slot
//! table (no hashing, no global sort), so that the lists come out sorted.

use rayon::slice::ParallelSliceMut;
use vstd::prelude::*;
use vstd::seq_lib::to_multiset_contains;
use vstd::set_lib::{lemma_int_range, lemma_len_subset, set_int_range};
use vstd::utf8::encode_utf8;

use crate::bitmap::Bitmap;
use crate::image::{encode_ids, image, index_bytes, posts_of, utf8_of, Post, Posting};
use crate::paths::{plain_path, strip_verbatim};
use crate::read::{index_error, sections};
use crate::roots::{collapse_roots, collapsed, utf8_pairs};
use crate::search::{entry_count, indexable, law_built_opens, law_built_totals};
use crate::sets::{in_order, lemma_in_order_unique, lemma_sorted_set, sorted_set};
use crate::strset::canon;
use crate::trigram::{analysis, analyze_with, packed, tri, Skip};

verus! {

/// How many trigrams there are.
pub const TRIGRAMS: usize = 0x100_0000;

/// What a build has come to.
#[derive(Debug, Clone, Copy, PartialEq, Eq, Structural)]
pub struct Stats {
    pub files_seen: usize,
    pub files_indexed: usize,
    pub files_skipped: usize,
    pub bytes_indexed: u64,
    pub distinct_trigrams: usize,
    pub posting_entries: u64,
    pub index_bytes: u64,
}

impl Default for Stats {
    fn default() -> (s: Stats)
        ensures
            s == (Stats {
                files_seen: 0,
                files_indexed: 0,
                files_skipped: 0,
                bytes_indexed: 0,
                distinct_trigrams: 0,
                posting_entries: 0,
                index_bytes: 0,
            }),
    {
        Stats {
            files_seen: 0,
            files_indexed: 0,
            files_skipped: 0,
            bytes_indexed: 0,
            distinct_trigrams: 0,
            posting_entries: 0,
            index_bytes: 0,
        }
    }
}

/// The ids of the files that hold trigram `t`, in ascending order.
pub open spec fn ids_with(files: Seq<Seq<u32>>, t: u32) -> Seq<u32>
    decreases files.len(),
{
    if files.len() == 0 {
        seq![]
    } else if files.last().contains(t) {
        ids_with(files.drop_last(), t).push((files.len() - 1) as u32)
    } else {
        ids_with(files.drop_last(), t)
    }
}

/// The trigrams of all files, one file after the other.
pub open spec fn flat(files: Seq<Seq<u32>>) -> Seq<u32>
    decreases files.len(),
{
    if files.len() == 0 {
        seq![]
    } else {
        flat(files.drop_last()) + files.last()
    }
}

/// The posting list of trigram `t`.
pub open spec fn post_for(files: Seq<Seq<u32>>, t: u32) -> Post {
    let ids = ids_with(files, t);
    Post { trigram: t, count: ids.len() as u32, bytes: encode_ids(None, ids) }
}

/// The posting lists of files, in order of their trigrams.
pub open spec fn posts_for(files: Seq<Seq<u32>>) -> Seq<Post> {
    let ts = sorted_set(flat(files));
    Seq::new(ts.len(), |i: int| post_for(files, ts[i]))
}

/// The index of files with the given names and trigrams.
pub open spec fn index_of(
    roots: Seq<Seq<u8>>,
    names: Seq<Seq<u8>>,
    files: Seq<Seq<u32>>,
) -> Seq<u8> {
    image(roots, names, posts_for(files))
}

/// Whether these are the trigrams of a file: ascending, and 24 bits each.
pub open spec fn are_trigrams(tris: Seq<u32>) -> bool {
    &&& in_order(tris)
    &&& forall|i: int| 0 <= i < tris.len() ==> tris[i] < TRIGRAMS
}

pub proof fn lemma_ids_with(files: Seq<Seq<u32>>, t: u32)
    requires
        files.len() <= u32::MAX,
    ensures
        in_order(ids_with(files, t)),
        ids_with(files, t).len() <= files.len(),
        forall|k: int| 0 <= k < ids_with(files, t).len() ==> ids_with(files, t)[k] < files.len(),
        forall|id: u32| #[trigger]
            ids_with(files, t).contains(id) <==> id < files.len() && files[id as int].contains(t),
    decreases files.len(),
{
    let ids = ids_with(files, t);
    if files.len() > 0 {
        let short = files.drop_last();
        lemma_ids_with(short, t);
        let before = ids_with(short, t);
        let n = (files.len() - 1) as u32;
        assert forall|id: u32| #[trigger] ids.contains(id) <==> id < files.len()
            && files[id as int].contains(t) by {
            assert(before.contains(id) <==> id < short.len() && short[id as int].contains(t));
            if files.last().contains(t) {
                assert(ids[before.len() as int] == n);
                if before.contains(id) {
                    let k = choose|k: int| 0 <= k < before.len() && before[k] == id;
                    assert(ids[k] == id);
                }
                if ids.contains(id) && id != n {
                    let k = choose|k: int| 0 <= k < ids.len() && ids[k] == id;
                    assert(before[k] == id);
                }
            }
        }
    }
}

pub proof fn lemma_flat(files: Seq<Seq<u32>>, t: u32)
    requires
        files.len() <= u32::MAX,
    ensures
        flat(files).contains(t) <==> ids_with(files, t).len() > 0,
    decreases files.len(),
{
    if files.len() > 0 {
        let short = files.drop_last();
        lemma_flat(short, t);
        let (a, b) = (flat(short), files.last());
        if a.contains(t) {
            let k = choose|k: int| 0 <= k < a.len() && a[k] == t;
            assert((a + b)[k] == t);
        }
        if b.contains(t) {
            let k = choose|k: int| 0 <= k < b.len() && b[k] == t;
            assert((a + b)[a.len() + k] == t);
        }
        if (a + b).contains(t) {
            let k = choose|k: int| 0 <= k < (a + b).len() && (a + b)[k] == t;
            if k < a.len() {
                assert(a[k] == t);
            } else {
                assert(b[k - a.len()] == t);
            }
        }
    }
}

/// Distinct numbers below a bound are no more than the bound.
proof fn lemma_pigeonhole(s: Seq<u32>, bound: int)
    requires
        s.no_duplicates(),
        0 <= bound,
        forall|i: int| 0 <= i < s.len() ==> s[i] < bound,
    ensures
        s.len() <= bound,
{
    let ints = s.map_values(|x: u32| x as int);
    assert(ints.no_duplicates());
    ints.unique_seq_to_set();
    lemma_int_range(0, bound);
    assert forall|x: int| #[trigger] ints.to_set().contains(x) implies set_int_range(
        0,
        bound,
    ).contains(x) by {
        let k = choose|k: int| 0 <= k < ints.len() && ints[k] == x;
        assert(s[k] == x);
    }
    lemma_len_subset(ints.to_set(), set_int_range(0, bound));
}

/// How many trigrams the files have together.
pub open spec fn total(files: Seq<Seq<u32>>) -> nat
    decreases files.len(),
{
    if files.len() == 0 {
        0
    } else {
        total(files.drop_last()) + files.last().len()
    }
}

/// Whether the slots and the posting lists are those of the files.
spec fn indexed(slot: Seq<u32>, postings: Seq<Posting>, files: Seq<Seq<u32>>) -> bool {
    &&& slot.len() == TRIGRAMS
    &&& forall|t: u32|
        t < TRIGRAMS ==> (#[trigger] slot[t as int] == 0 <==> ids_with(files, t).len() == 0)
    &&& forall|t: u32|
        t < TRIGRAMS && #[trigger] slot[t as int] != 0 ==> slot[t as int] <= postings.len()
            && postings[slot[t as int] - 1].trigram == t
    &&& forall|k: int|
        0 <= k < postings.len() ==> (#[trigger] postings[k]).trigram < TRIGRAMS
            && slot[postings[k].trigram as int] == k + 1
    &&& forall|k: int|
        0 <= k < postings.len() ==> (#[trigger] postings[k]).lists(
            ids_with(files, postings[k].trigram),
        )
}

/// An index under construction.
pub struct Builder {
    names: Vec<String>,
    /// The posting list of each trigram, counted from 1; 0 means there is
    /// none yet.
    slot: Vec<u32>,
    postings: Vec<Posting>,
    stats: Stats,
    files: Ghost<Seq<Seq<u32>>>,
}

impl Builder {
    /// The trigrams of the files so far.
    pub closed spec fn files(&self) -> Seq<Seq<u32>> {
        self.files@
    }

    /// The names of the files so far, in UTF-8.
    pub closed spec fn names(&self) -> Seq<Seq<u8>> {
        utf8_of(self.names@)
    }

    /// The counts so far.
    pub closed spec fn stats(&self) -> Stats {
        self.stats
    }

    /// The posting lists are those of the files.
    pub closed spec fn wf(&self) -> bool {
        &&& self.names@.len() == self.files@.len()
        &&& self.files@.len() <= u32::MAX
        &&& forall|i: int| 0 <= i < self.files@.len() ==> are_trigrams(#[trigger] self.files@[i])
        &&& indexed(self.slot@, self.postings@, self.files@)
        &&& self.stats.posting_entries == total(self.files@)
        &&& self.stats.posting_entries <= self.files@.len() * TRIGRAMS
    }
}

/// `rayon::slice::ParallelSliceMut::par_sort_unstable_by_key`, with the trigram
/// as the key: the same posting lists in order of their trigrams.
#[verifier::external_body]
fn sort_by_trigram(postings: &mut Vec<Posting>)
    ensures
        final(postings)@.to_multiset() == old(postings)@.to_multiset(),
        forall|i: int, j: int|
            0 <= i < j < final(postings)@.len() ==> (#[trigger] final(postings)@[i]).trigram <= (
            #[trigger] final(postings)@[j]).trigram,
{
    postings.par_sort_unstable_by_key(|p| p.trigram)
}

proof fn lemma_total_step(files: Seq<Seq<u32>>, tris: Seq<u32>)
    ensures
        total(files.push(tris)) == total(files) + tris.len(),
{
    assert(files.push(tris).drop_last() =~= files);
}

pub proof fn lemma_few_trigrams(tris: Seq<u32>)
    requires
        are_trigrams(tris),
    ensures
        tris.len() <= TRIGRAMS,
{
    assert(tris.no_duplicates());
    lemma_pigeonhole(tris, TRIGRAMS as int);
}

proof fn lemma_few_postings(slot: Seq<u32>, postings: Seq<Posting>, files: Seq<Seq<u32>>)
    requires
        indexed(slot, postings, files),
    ensures
        postings.len() <= TRIGRAMS,
{
    let ts = postings.map_values(|p: Posting| p.trigram);
    assert forall|i: int, j: int| 0 <= i < ts.len() && 0 <= j < ts.len() && i != j implies ts[i]
        != ts[j] by {
        assert(slot[postings[i].trigram as int] == i + 1);
        assert(slot[postings[j].trigram as int] == j + 1);
    }
    lemma_pigeonhole(ts, TRIGRAMS as int);
}

/// Who holds a trigram, when a file is added.
proof fn lemma_ids_step(files: Seq<Seq<u32>>, tris: Seq<u32>, t: u32)
    ensures
        ids_with(files.push(tris), t) == if tris.contains(t) {
            ids_with(files, t).push(files.len() as u32)
        } else {
            ids_with(files, t)
        },
{
    assert(files.push(tris).drop_last() =~= files);
}

/// The effect of one more trigram of the file that is being added.
proof fn lemma_one_more(files: Seq<Seq<u32>>, tris: Seq<u32>, j: int, t: u32)
    requires
        0 <= j < tris.len(),
        in_order(tris),
    ensures
        ids_with(files.push(tris.take(j + 1)), t) == if t == tris[j] {
            ids_with(files, t).push(files.len() as u32)
        } else {
            ids_with(files.push(tris.take(j)), t)
        },
        t == tris[j] ==> ids_with(files.push(tris.take(j)), t) == ids_with(files, t),
{
    lemma_ids_step(files, tris.take(j + 1), t);
    lemma_ids_step(files, tris.take(j), t);
    let (a, b) = (tris.take(j), tris.take(j + 1));
    assert(b[j] == tris[j]);
    if a.contains(t) {
        let k = choose|k: int| 0 <= k < a.len() && a[k] == t;
        assert(b[k] == t);
        assert(tris[k] < tris[j]);
    }
    if b.contains(t) && t != tris[j] {
        let k = choose|k: int| 0 <= k < b.len() && b[k] == t;
        assert(a[k] == t);
    }
}

/// One posting list grew, or began.
proof fn lemma_indexed_step(
    slot0: Seq<u32>,
    postings0: Seq<Posting>,
    slot: Seq<u32>,
    postings: Seq<Posting>,
    before: Seq<Seq<u32>>,
    after: Seq<Seq<u32>>,
    t: u32,
)
    requires
        indexed(slot0, postings0, before),
        t < TRIGRAMS,
        ids_with(after, t).len() > 0,
        forall|u: u32| u != t ==> ids_with(after, u) == #[trigger] ids_with(before, u),
        slot0[t as int] == 0 ==> {
            &&& slot == slot0.update(t as int, postings.len() as u32)
            &&& postings.len() == postings0.len() + 1 <= u32::MAX
            &&& postings.drop_last() == postings0
            &&& postings.last().trigram == t
            &&& postings.last().lists(ids_with(after, t))
        },
        slot0[t as int] != 0 ==> {
            let k = slot0[t as int] - 1;
            &&& slot == slot0
            &&& postings == postings0.update(k, postings[k])
            &&& postings[k].trigram == t
            &&& postings[k].lists(ids_with(after, t))
        },
    ensures
        indexed(slot, postings, after),
{
    if slot0[t as int] == 0 {
        assert forall|k: int| 0 <= k < postings0.len() implies postings[k] == #[trigger] postings0[k] by {
            assert(postings.drop_last()[k] == postings[k]);
        }
        assert forall|k: int| 0 <= k < postings0.len() implies (#[trigger] postings0[k]).trigram
            != t by {
            assert(slot0[postings0[k].trigram as int] == k + 1);
        }
        assert forall|u: u32| u < TRIGRAMS && #[trigger] slot[u as int] != 0 implies slot[u as int]
            <= postings.len() && postings[slot[u as int] - 1].trigram == u by {
            if u != t {
                assert(slot0[u as int] != 0);
                assert(postings0[slot0[u as int] - 1].trigram == u);
            }
        }
    } else {
        let k0 = slot0[t as int] - 1;
        assert forall|k: int| 0 <= k < postings.len() implies (#[trigger] postings[k]).trigram
            == postings0[k].trigram && (k != k0 ==> postings[k] == postings0[k]
            && postings0[k].trigram != t) by {
            assert(slot0[postings0[k].trigram as int] == k + 1);
        }
    }
    assert forall|u: u32| u < TRIGRAMS implies (#[trigger] slot[u as int] == 0 <==> ids_with(
        after,
        u,
    ).len() == 0) by {
        assert(slot0[u as int] == 0 <==> ids_with(before, u).len() == 0);
        if u != t {
            assert(ids_with(after, u) == ids_with(before, u));
        }
    }
    assert forall|k: int| 0 <= k < postings.len() implies (#[trigger] postings[k]).trigram
        < TRIGRAMS && slot[postings[k].trigram as int] == k + 1 by {
        if k < postings0.len() {
            assert(postings0[k].trigram < TRIGRAMS && slot0[postings0[k].trigram as int] == k + 1);
            assert(postings[k].trigram == postings0[k].trigram);
        }
    }
    assert forall|k: int| 0 <= k < postings.len() implies (#[trigger] postings[k]).lists(
        ids_with(after, postings[k].trigram),
    ) by {
        let u = postings[k].trigram;
        if u != t {
            assert(ids_with(after, u) == ids_with(before, u));
            assert(postings[k] == postings0[k]);
        } else {
            assert(slot[u as int] == k + 1);
        }
    }
}

impl Builder {
    /// An index without files, of a build that found `files_found` files to
    /// read and passed over `too_large` others.
    pub fn new(files_found: usize, too_large: usize) -> (b: Builder)
        requires
            files_found + too_large <= usize::MAX,
        ensures
            b.wf(),
            b.files() == Seq::<Seq<u32>>::empty(),
            b.names() == Seq::<Seq<u8>>::empty(),
            b.stats() == (Stats {
                files_seen: (files_found + too_large) as usize,
                files_indexed: 0,
                files_skipped: too_large,
                bytes_indexed: 0,
                distinct_trigrams: 0,
                posting_entries: 0,
                index_bytes: 0,
            }),
    {
        // A zero-filled table is allocated untouched: only the pages of
        // trigrams that occur are ever used.
        let slot: Vec<u32> = vec![0; TRIGRAMS];
        let mut stats = Stats::default();
        stats.files_seen = files_found + too_large;
        stats.files_skipped = too_large;
        let b = Builder {
            names: Vec::new(),
            slot,
            postings: Vec::new(),
            stats,
            files: Ghost(Seq::empty()),
        };
        assert(b.names() =~= Seq::<Seq<u8>>::empty());
        b
    }

    /// Pass over a file.
    pub fn skip(&mut self)
        requires
            old(self).wf(),
            old(self).stats().files_skipped < usize::MAX,
        ensures
            final(self).wf(),
            final(self).files() == old(self).files(),
            final(self).names() == old(self).names(),
            final(self).stats() == (Stats {
                files_skipped: (old(self).stats().files_skipped + 1) as usize,
                ..old(self).stats()
            }),
    {
        self.stats.files_skipped = self.stats.files_skipped + 1;
    }

    /// Add a file under the next id: its name, its trigrams and its length.
    pub fn add_file(&mut self, name: String, tris: &[u32], len: u64)
        requires
            old(self).wf(),
            are_trigrams(tris@),
            old(self).files().len() < u32::MAX,
            old(self).stats().bytes_indexed + len <= u64::MAX,
        ensures
            final(self).wf(),
            final(self).files() == old(self).files().push(tris@),
            final(self).names() == old(self).names().push(encode_utf8(name@)),
            final(self).stats() == (Stats {
                bytes_indexed: (old(self).stats().bytes_indexed + len) as u64,
                posting_entries: (old(self).stats().posting_entries + tris@.len()) as u64,
                ..old(self).stats()
            }),
    {
        let ghost files = self.files@;
        let id: u32 = self.names.len() as u32;
        proof {
            lemma_few_trigrams(tris@);
            lemma_total_step(files, tris@);
            assert(self.stats.posting_entries + tris@.len() <= (files.len() + 1) * TRIGRAMS);
            assert forall|t: u32| ids_with(files.push(tris@.take(0)), t) == #[trigger] ids_with(
                files,
                t,
            ) by {
                lemma_ids_step(files, tris@.take(0), t);
            }
        }
        self.names.push(name);
        self.stats.bytes_indexed = self.stats.bytes_indexed + len;
        self.stats.posting_entries = self.stats.posting_entries + tris.len() as u64;
        let mut j: usize = 0;
        while j < tris.len()
            invariant
                j <= tris@.len(),
                are_trigrams(tris@),
                files == old(self).files@,
                files.len() == id < u32::MAX,
                self.names@ == old(self).names@.push(name),
                self.files == old(self).files,
                self.stats == (Stats {
                    bytes_indexed: (old(self).stats.bytes_indexed + len) as u64,
                    posting_entries: (old(self).stats.posting_entries + tris@.len()) as u64,
                    ..old(self).stats
                }),
                indexed(self.slot@, self.postings@, files.push(tris@.take(j as int))),
            decreases tris@.len() - j,
        {
            let t: u32 = tris[j];
            let ghost before = files.push(tris@.take(j as int));
            let ghost after = files.push(tris@.take(j + 1));
            proof {
                lemma_few_postings(self.slot@, self.postings@, before);
                lemma_one_more(files, tris@, j as int, t);
                lemma_ids_with(files, t);
                assert forall|u: u32| u != t implies ids_with(after, u) == #[trigger] ids_with(
                    before,
                    u,
                ) by {
                    lemma_one_more(files, tris@, j as int, u);
                }
            }
            let ghost (slot0, postings0) = (self.slot@, self.postings@);
            let s: u32 = self.slot[t as usize];
            if s == 0 {
                let mut p = Posting { trigram: t, last: 0, count: 0, bytes: Vec::new() };
                assert(p.bytes@ =~= encode_ids(None, ids_with(before, t)));
                assert(p.lists(ids_with(before, t)));
                p.push(id);
                self.postings.push(p);
                assert(self.postings@.drop_last() =~= postings0);
                assert(p.lists(ids_with(before, t).push(id)));
                self.slot.set(t as usize, self.postings.len() as u32);
            } else {
                let k: usize = (s - 1) as usize;
                assert(self.postings@[k as int].lists(ids_with(before, t)));
                self.postings[k].push(id);
            }
            proof {
                lemma_indexed_step(
                    slot0,
                    postings0,
                    self.slot@,
                    self.postings@,
                    before,
                    after,
                    t,
                );
            }
            j = j + 1;
        }
        self.files = Ghost(files.push(tris@));
        proof {
            assert(tris@.take(j as int) =~= tris@);
            assert(self.names() =~= old(self).names().push(encode_utf8(name@)));
        }
    }
}

pub proof fn lemma_flat_bound(files: Seq<Seq<u32>>, t: u32)
    requires
        forall|i: int| 0 <= i < files.len() ==> are_trigrams(#[trigger] files[i]),
        flat(files).contains(t),
    ensures
        t < TRIGRAMS,
    decreases files.len(),
{
    if files.len() > 0 {
        let (a, b) = (flat(files.drop_last()), files.last());
        let k = choose|k: int| 0 <= k < (a + b).len() && (a + b)[k] == t;
        if k < a.len() {
            assert(a[k] == t);
            assert(a.contains(t));
            lemma_flat_bound(files.drop_last(), t);
        } else {
            assert(b[k - a.len()] == t);
            assert(are_trigrams(files[files.len() - 1]));
        }
    }
}

/// The posting lists in order of their trigrams.
proof fn lemma_sorted_postings(
    slot: Seq<u32>,
    postings0: Seq<Posting>,
    postings: Seq<Posting>,
    files: Seq<Seq<u32>>,
)
    requires
        files.len() <= u32::MAX,
        forall|i: int| 0 <= i < files.len() ==> are_trigrams(#[trigger] files[i]),
        indexed(slot, postings0, files),
        postings.to_multiset() == postings0.to_multiset(),
        forall|i: int, j: int|
            0 <= i < j < postings.len() ==> (#[trigger] postings[i]).trigram <= (
            #[trigger] postings[j]).trigram,
    ensures
        posts_of(postings) == posts_for(files),
{
    assert forall|i: int, j: int| 0 <= i < j < postings0.len() implies postings0[i]
        != postings0[j] by {
        assert(slot[postings0[i].trigram as int] == i + 1);
        assert(slot[postings0[j].trigram as int] == j + 1);
    }
    postings0.lemma_multiset_has_no_duplicates();
    postings.lemma_multiset_has_no_duplicates_conv();
    let ts = postings.map_values(|p: Posting| p.trigram);
    assert forall|i: int| 0 <= i < postings.len() implies exists|k: int|
        0 <= k < postings0.len() && postings0[k] == #[trigger] postings[i] by {
        to_multiset_contains(postings, postings[i]);
        to_multiset_contains(postings0, postings[i]);
        assert(postings.contains(postings[i]));
    }
    assert forall|i: int, j: int| 0 <= i < j < ts.len() implies ts[i] < ts[j] by {
        let a = choose|k: int| 0 <= k < postings0.len() && postings0[k] == postings[i];
        let b = choose|k: int| 0 <= k < postings0.len() && postings0[k] == postings[j];
        assert(postings0[a] == postings[i] && postings0[b] == postings[j]);
        assert(slot[postings0[a].trigram as int] == a + 1);
        assert(slot[postings0[b].trigram as int] == b + 1);
        assert(postings[i].trigram <= postings[j].trigram);
        assert(postings[i] != postings[j]);
    }
    let want = sorted_set(flat(files));
    lemma_sorted_set(flat(files));
    assert forall|t: u32| #[trigger] ts.contains(t) <==> want.contains(t) by {
        lemma_flat(files, t);
        assert(want.contains(t) <==> flat(files).contains(t));
        if ts.contains(t) {
            let i = choose|i: int| 0 <= i < ts.len() && ts[i] == t;
            let k = choose|k: int| 0 <= k < postings0.len() && postings0[k] == postings[i];
            assert(postings0[k] == postings[i]);
            assert(slot[t as int] == k + 1);
        }
        if flat(files).contains(t) {
            lemma_flat_bound(files, t);
            assert(slot[t as int] != 0);
            let p = postings0[slot[t as int] - 1];
            assert(p.trigram == t);
            assert(postings0.contains(p));
            to_multiset_contains(postings0, p);
            to_multiset_contains(postings, p);
            let i = choose|i: int| 0 <= i < postings.len() && postings[i] == p;
            assert(ts[i] == t);
        }
    }
    lemma_in_order_unique(ts, want);
    assert forall|i: int| 0 <= i < postings.len() implies (#[trigger] postings[i])@ == post_for(
        files,
        want[i],
    ) by {
        let k = choose|k: int| 0 <= k < postings0.len() && postings0[k] == postings[i];
        assert(postings0[k] == postings[i]);
        assert(postings0[k].lists(ids_with(files, postings0[k].trigram)));
        assert(ts[i] == want[i]);
    }
    assert(posts_of(postings) =~= posts_for(files));
}

/// There is a posting list for every trigram that occurs, and for no other.
proof fn lemma_posting_count(slot: Seq<u32>, postings: Seq<Posting>, files: Seq<Seq<u32>>)
    requires
        files.len() <= u32::MAX,
        forall|i: int| 0 <= i < files.len() ==> are_trigrams(#[trigger] files[i]),
        indexed(slot, postings, files),
    ensures
        postings.len() == posts_for(files).len(),
{
    let ts = postings.map_values(|p: Posting| p.trigram);
    assert forall|i: int, j: int| 0 <= i < ts.len() && 0 <= j < ts.len() && i != j implies ts[i]
        != ts[j] by {
        assert(slot[postings[i].trigram as int] == i + 1);
        assert(slot[postings[j].trigram as int] == j + 1);
    }
    let want = sorted_set(flat(files));
    lemma_sorted_set(flat(files));
    ts.unique_seq_to_set();
    want.unique_seq_to_set();
    assert forall|t: u32| ts.to_set().contains(t) <==> want.to_set().contains(t) by {
        lemma_flat(files, t);
        assert(want.contains(t) <==> flat(files).contains(t));
        if ts.contains(t) {
            let k = choose|k: int| 0 <= k < ts.len() && ts[k] == t;
            assert(postings[k].trigram == t);
            assert(slot[t as int] == k + 1);
        }
        if flat(files).contains(t) {
            lemma_flat_bound(files, t);
            assert(slot[t as int] != 0);
            assert(ts[slot[t as int] - 1] == t);
        }
    }
    assert(ts.to_set() =~= want.to_set());
}

impl Builder {
    /// The entries counted so far.
    proof fn lemma_entries(&self)
        requires
            self.wf(),
        ensures
            self.stats().posting_entries == total(self.files()),
    {
    }

    /// How many files have been added, and how many distinct trigrams they
    /// hold.
    pub fn progress(&self) -> (r: (usize, usize))
        requires
            self.wf(),
        ensures
            r.0 == self.files().len(),
            r.1 == posts_for(self.files()).len(),
    {
        proof {
            lemma_posting_count(self.slot@, self.postings@, self.files@);
        }
        (self.names.len(), self.postings.len())
    }

    /// Write the index of the files added. Returns its bytes and the counts.
    pub fn finish(self, roots: &[String]) -> (r: (Vec<u8>, Stats))
        requires
            self.wf(),
        ensures
            r.0@ == index_of(utf8_of(roots@), self.names(), self.files()),
            indexable(utf8_of(roots@), self.names(), self.files()),
            r.1 == (Stats {
                files_indexed: self.files().len() as usize,
                distinct_trigrams: posts_for(self.files()).len() as usize,
                index_bytes: r.0@.len() as u64,
                ..self.stats()
            }),
    {
        let ghost before = self.postings@;
        let mut postings = self.postings;
        sort_by_trigram(&mut postings);
        proof {
            lemma_sorted_postings(self.slot@, before, postings@, self.files@);
        }
        let bytes = index_bytes(roots, &self.names, &postings);
        let mut stats = self.stats;
        stats.files_indexed = self.names.len();
        stats.distinct_trigrams = postings.len();
        stats.index_bytes = bytes.len() as u64;
        assert(bytes.len() == bytes@.len());
        (bytes, stats)
    }
}

/// The trigrams of a file that is indexed.
proof fn lemma_analysis_trigrams(data: Seq<u8>)
    ensures
        analysis(data) matches Ok(tris) ==> are_trigrams(tris),
{
    lemma_sorted_set(packed(data));
    let tris = sorted_set(packed(data));
    assert forall|i: int| 0 <= i < tris.len() implies tris[i] < TRIGRAMS by {
        assert(tris.contains(tris[i]));
        let k = choose|k: int| 0 <= k < packed(data).len() && packed(data)[k] == tris[i];
        assert(packed(data)[k] == tri(data[k], data[k + 1], data[k + 2]));
    }
}

/// What is indexed of a file: its name, its trigrams and its length, or why it
/// is not indexed.
pub fn analyze_file(seen: &mut Bitmap, path: &str, data: &[u8]) -> (r: Result<
    (String, Vec<u32>, u64),
    Skip,
>)
    requires
        old(seen).wf(),
        old(seen)@ == Set::<u32>::empty(),
    ensures
        final(seen).wf(),
        final(seen)@ == Set::<u32>::empty(),
        match r {
            Ok((name, tris, len)) => name@ == plain_path(path@) && analysis(data@) == Ok::<
                Seq<u32>,
                Skip,
            >(tris@) && are_trigrams(tris@) && len == data@.len(),
            Err(skip) => analysis(data@) == Err::<Seq<u32>, Skip>(skip),
        },
{
    match analyze_with(seen, data) {
        Ok(tris) => {
            proof {
                lemma_analysis_trigrams(data@);
            }
            Ok((strip_verbatim(path), tris, data.len() as u64))
        },
        Err(skip) => Err(skip),
    }
}

/// A file as it was found: its path, and its contents unless they could not be
/// read.
#[derive(Debug)]
pub struct Source {
    pub path: String,
    pub data: Option<Vec<u8>>,
}

impl Source {
    /// Whether the file is indexed.
    pub open spec fn accepted(self) -> bool {
        match self.data {
            Some(d) => analysis(d@) is Ok,
            None => false,
        }
    }
}

/// The files that are indexed.
pub open spec fn accepted_files(files: Seq<Source>) -> Seq<Source>
    decreases files.len(),
{
    if files.len() == 0 {
        seq![]
    } else if files.last().accepted() {
        accepted_files(files.drop_last()).push(files.last())
    } else {
        accepted_files(files.drop_last())
    }
}

/// The names of files, in UTF-8.
pub open spec fn names_of(files: Seq<Source>) -> Seq<Seq<u8>> {
    Seq::new(files.len(), |i: int| encode_utf8(plain_path(files[i].path@)))
}

/// The trigrams of files.
pub open spec fn trigrams_of(files: Seq<Source>) -> Seq<Seq<u32>> {
    Seq::new(files.len(), |i: int| analysis(files[i].data.unwrap()@).unwrap())
}

/// How many bytes there are in files.
pub open spec fn byte_count(files: Seq<Source>) -> nat
    decreases files.len(),
{
    if files.len() == 0 {
        0
    } else {
        byte_count(files.drop_last()) + match files.last().data {
            Some(d) => d@.len(),
            None => 0,
        }
    }
}

/// A finished index.
#[derive(Debug)]
pub struct Built {
    /// The bytes of the index.
    pub index: Vec<u8>,
    /// The roots that lie inside another, each with the one that covers it.
    pub dropped: Vec<(String, String)>,
    pub stats: Stats,
}

proof fn lemma_byte_count(files: Seq<Source>, i: int)
    requires
        0 <= i <= files.len(),
    ensures
        byte_count(accepted_files(files.take(i))) <= byte_count(accepted_files(files)),
        accepted_files(files.take(i)).len() <= i,
        accepted_files(files.take(i)).len() <= accepted_files(files).len(),
    decreases files.len(),
{
    if i < files.len() {
        let before = accepted_files(files.drop_last());
        lemma_byte_count(files.drop_last(), i);
        assert(files.drop_last().take(i) =~= files.take(i));
        assert(before.push(files.last()).drop_last() =~= before);
    } else {
        assert(files.take(i) =~= files);
        lemma_accepted_len(files);
    }
}

proof fn lemma_accepted_len(files: Seq<Source>)
    ensures
        accepted_files(files).len() <= files.len(),
    decreases files.len(),
{
    if files.len() > 0 {
        lemma_accepted_len(files.drop_last());
    }
}

/// Build an index of files that lie below `roots`, `too_large` others having
/// been passed over. Roots inside other roots are dropped. Files that could not
/// be read, or are not text to be indexed, are counted as skipped.
pub fn build_index(roots: Vec<String>, files: &[Source], too_large: usize) -> (r: Built)
    requires
        files@.len() + too_large <= usize::MAX,
        accepted_files(files@).len() <= u32::MAX,
        byte_count(accepted_files(files@)) <= u64::MAX,
    ensures
        ({
            let (kept, dropped) = collapsed(canon(utf8_of(roots@), false));
            let taken = accepted_files(files@);
            &&& r.index@ == index_of(kept, names_of(taken), trigrams_of(taken))
            &&& indexable(kept, names_of(taken), trigrams_of(taken))
            &&& utf8_pairs(r.dropped@) == dropped
            &&& r.stats == (Stats {
                files_seen: (files@.len() + too_large) as usize,
                files_indexed: taken.len() as usize,
                files_skipped: (files@.len() - taken.len() + too_large) as usize,
                bytes_indexed: byte_count(taken) as u64,
                distinct_trigrams: posts_for(trigrams_of(taken)).len() as usize,
                posting_entries: total(trigrams_of(taken)) as u64,
                index_bytes: r.index@.len() as u64,
            })
        }),
        r.stats.files_seen == r.stats.files_indexed + r.stats.files_skipped,
        r.stats.index_bytes == r.index@.len(),
        index_error(r.index@) is None,
        sections(r.index@).nfiles == r.stats.files_indexed,
        sections(r.index@).ntrigrams == r.stats.distinct_trigrams,
        entry_count(r.index@) == r.stats.posting_entries,
{
    let ghost all = files@;
    let (kept, dropped) = collapse_roots(roots);
    let mut seen = Bitmap::new();
    let mut b = Builder::new(files.len(), too_large);
    let mut i: usize = 0;
    proof {
        assert(all.take(0) =~= seq![]);
        assert(trigrams_of(seq![]) =~= seq![]);
        assert(names_of(seq![]) =~= seq![]);
    }
    while i < files.len()
        invariant
            i <= files@.len(),
            all == files@,
            all.len() + too_large <= usize::MAX,
            accepted_files(all).len() <= u32::MAX,
            byte_count(accepted_files(all)) <= u64::MAX,
            seen.wf(),
            seen@ == Set::<u32>::empty(),
            b.wf(),
            ({
                let taken = accepted_files(all.take(i as int));
                &&& taken.len() <= i
                &&& b.files() == trigrams_of(taken)
                &&& b.names() == names_of(taken)
                &&& b.stats() == (Stats {
                    files_seen: (all.len() + too_large) as usize,
                    files_indexed: 0,
                    files_skipped: (i - taken.len() + too_large) as usize,
                    bytes_indexed: byte_count(taken) as u64,
                    distinct_trigrams: 0,
                    posting_entries: total(trigrams_of(taken)) as u64,
                    index_bytes: 0,
                })
            }),
        decreases files@.len() - i,
    {
        let ghost taken = accepted_files(all.take(i as int));
        let ghost next = accepted_files(all.take(i + 1));
        let ghost file = all[i as int];
        proof {
            assert(all.take(i + 1).drop_last() =~= all.take(i as int));
            assert(all.take(i + 1).last() == file);
            lemma_byte_count(all, i as int);
            lemma_byte_count(all, i + 1);
            assert(taken.push(file).drop_last() =~= taken);
            b.lemma_entries();
        }
        match &files[i].data {
            Some(data) => match analyze_file(&mut seen, &files[i].path, data) {
                Ok((name, tris, len)) => {
                    proof {
                        assert(next == taken.push(file));
                        lemma_total_step(trigrams_of(taken), tris@);
                    }
                    b.add_file(name, &tris, len);
                    proof {
                        assert(trigrams_of(next) =~= trigrams_of(taken).push(tris@));
                        assert(names_of(next) =~= names_of(taken).push(encode_utf8(name@)));
                        b.lemma_entries();
                    }
                },
                Err(_) => {
                    b.skip();
                },
            },
            None => {
                b.skip();
            },
        }
        i = i + 1;
    }
    assert(all.take(i as int) =~= all);
    proof {
        b.lemma_entries();
    }
    let ghost (names, held) = (b.names(), b.files());
    let (index, stats) = b.finish(&kept);
    proof {
        law_built_opens(utf8_of(kept@), names, held);
        law_built_totals(utf8_of(kept@), names, held);
        assert(index.len() == index@.len());
    }
    Built { index, dropped, stats }
}

/// Files are taken one by one, in order: of two lists of files those of the
/// one and then those of the other, with the bytes of both.
pub proof fn law_files_taken_in_order(a: Seq<Source>, b: Seq<Source>)
    ensures
        accepted_files(a + b) == accepted_files(a) + accepted_files(b),
        byte_count(a + b) == byte_count(a) + byte_count(b),
    decreases b.len(),
{
    if b.len() == 0 {
        assert(a + b =~= a);
        assert(accepted_files(a) + accepted_files(b) =~= accepted_files(a));
    } else {
        law_files_taken_in_order(a, b.drop_last());
        assert((a + b).drop_last() =~= a + b.drop_last());
        assert((a + b).last() == b.last());
        assert(accepted_files(a + b) =~= accepted_files(a) + accepted_files(b));
    }
}

/// A file is taken if it could be read and its contents are fit to be indexed,
/// and has as many bytes as its contents.
pub proof fn law_one_file_taken(file: Source)
    ensures
        accepted_files(seq![file]) == match file.data {
            Some(d) => if analysis(d@) is Ok {
                seq![file]
            } else {
                seq![]
            },
            None => seq![],
        },
        byte_count(seq![file]) == match file.data {
            Some(d) => d@.len(),
            None => 0,
        },
{
    let one = seq![file];
    let none: Seq<Source> = seq![];
    assert(one.drop_last() =~= none);
    assert(one.last() == file);
    assert(accepted_files(none) == none);
    assert(byte_count(none) == 0);
    assert(none.push(file) =~= one);
}

/// A file is named by its path, without the verbatim prefix, in UTF-8, and
/// every file has a name and trigrams of its own.
pub proof fn law_names_and_trigrams(files: Seq<Source>, i: int, tris: Seq<u32>)
    requires
        0 <= i < files.len(),
    ensures
        names_of(files).len() == files.len(),
        trigrams_of(files).len() == files.len(),
        names_of(files)[i] == encode_utf8(plain_path(files[i].path@)),
        files[i].data matches Some(d) ==> analysis(d@) == Ok::<Seq<u32>, Skip>(tris)
            ==> trigrams_of(files)[i] == tris,
{
}

} // verus!

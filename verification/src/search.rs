//! What a search through an index is worth.

use regex::bytes::Regex;
use vstd::prelude::*;
use vstd::utf8::{encode_utf8, encode_utf8_decode_utf8, encode_utf8_valid_utf8};

use crate::cover::law_no_match_missed;
use crate::eval::{candidates, law_candidates, listed_for};
use crate::expr::Pattern;
use crate::files::{covers, joined, law_batches_keep_files};
use crate::grep::{finds_only, first_match, hits, stays_inside};
use crate::image::{encode_ids, terminated};
use crate::precision::law_literal_query;
use crate::query::Formula;
use crate::read::{count_of, index_error, list_of, name_of, roots_of, sections};
use crate::regexp::pattern_query;
use crate::roundtrip::{
    law_counts_read_back, law_lists_read_back, law_names_read_back, law_no_other_lists, law_roots_read_back,
    law_written_opens, root_texts, writable,
};
use crate::sets::{in_order, lemma_sorted_set, sorted_set};
use crate::trigram::{analysis, lossy_text, packed, trigrams, Skip};
use crate::write::{
    accepted_files, are_trigrams, byte_count, flat, ids_with, index_of, lemma_few_trigrams,
    lemma_flat, lemma_flat_bound, lemma_ids_with, names_of, post_for, posts_for, total,
    trigrams_of, Source,
};

verus! {

/// What an index can be built of: a name for every file, no more files than a
/// `u32` counts, and no more bytes than a `u64` counts.
pub open spec fn indexable(
    roots: Seq<Seq<u8>>,
    names: Seq<Seq<u8>>,
    files: Seq<Seq<u32>>,
) -> bool {
    &&& names.len() == files.len()
    &&& files.len() <= u32::MAX
    &&& forall|i: int| 0 <= i < files.len() ==> are_trigrams(#[trigger] files[i])
    &&& index_of(roots, names, files).len() <= u64::MAX
}

proof fn lemma_encode_ids_len(last: Option<u32>, ids: Seq<u32>)
    ensures
        encode_ids(last, ids).len() >= ids.len(),
    decreases ids.len(),
{
    if ids.len() > 0 {
        lemma_encode_ids_len(Some(ids[0]), ids.skip(1));
    }
}

proof fn lemma_writable(roots: Seq<Seq<u8>>, names: Seq<Seq<u8>>, files: Seq<Seq<u32>>)
    requires
        indexable(roots, names, files),
    ensures
        writable(roots, names, posts_for(files)),
{
    let ts = sorted_set(flat(files));
    let posts = posts_for(files);
    lemma_sorted_set(flat(files));
    assert forall|i: int| 0 <= i < ts.len() implies ts[i] < crate::write::TRIGRAMS by {
        assert(ts.contains(ts[i]));
        lemma_flat_bound(files, ts[i]);
    }
    lemma_few_trigrams(ts);
    assert forall|i: int| 0 <= i < posts.len() implies (#[trigger] posts[i]).count
        <= posts[i].bytes.len() by {
        lemma_ids_with(files, ts[i]);
        lemma_encode_ids_len(None, ids_with(files, ts[i]));
    }
}

/// An index that was built opens, and has every file.
pub proof fn law_built_opens(roots: Seq<Seq<u8>>, names: Seq<Seq<u8>>, files: Seq<Seq<u32>>)
    requires
        indexable(roots, names, files),
    ensures
        index_error(index_of(roots, names, files)) is None,
        sections(index_of(roots, names, files)).nfiles == files.len(),
        sections(index_of(roots, names, files)).ntrigrams == posts_for(files).len(),
{
    lemma_writable(roots, names, files);
    law_written_opens(roots, names, posts_for(files));
}

/// The name of a file is read back, unless it holds a NUL or the names before
/// it take more bytes than a `u32` counts.
pub proof fn law_built_names(
    roots: Seq<Seq<u8>>,
    names: Seq<Seq<u8>>,
    files: Seq<Seq<u32>>,
    id: int,
    text: Seq<char>,
)
    requires
        indexable(roots, names, files),
        0 <= id < files.len(),
        names[id] == encode_utf8(text),
        !names[id].contains(0),
        terminated(names.take(id)).len() <= u32::MAX,
    ensures
        name_of(index_of(roots, names, files), id) == text,
{
    law_built_opens(roots, names, files);
    lemma_writable(roots, names, files);
    law_names_read_back(roots, names, posts_for(files), id);
    encode_utf8_valid_utf8(text);
    encode_utf8_decode_utf8(text);
}

/// The roots are read back, unless one is empty or holds a NUL.
pub proof fn law_built_roots(
    roots: Seq<Seq<u8>>,
    names: Seq<Seq<u8>>,
    files: Seq<Seq<u32>>,
    texts: Seq<Seq<char>>,
)
    requires
        indexable(roots, names, files),
        roots == Seq::new(texts.len(), |i: int| encode_utf8(texts[i])),
        forall|i: int|
            0 <= i < roots.len() ==> (#[trigger] roots[i]).len() > 0 && !roots[i].contains(0),
    ensures
        roots_of(index_of(roots, names, files)) == texts,
{
    lemma_writable(roots, names, files);
    law_roots_read_back(roots, names, posts_for(files));
    assert forall|i: int| 0 <= i < texts.len() implies lossy_text(#[trigger] roots[i])
        == texts[i] by {
        encode_utf8_valid_utf8(texts[i]);
        encode_utf8_decode_utf8(texts[i]);
    }
    assert(root_texts(roots) =~= texts);
}

/// The posting list of a trigram names exactly the files that hold it, in
/// ascending order, each once.
pub proof fn law_built_lists(
    roots: Seq<Seq<u8>>,
    names: Seq<Seq<u8>>,
    files: Seq<Seq<u32>>,
    t: u32,
)
    requires
        indexable(roots, names, files),
    ensures
        list_of(index_of(roots, names, files), t) == ids_with(files, t),
        in_order(list_of(index_of(roots, names, files), t)),
        forall|id: u32| #[trigger]
            list_of(index_of(roots, names, files), t).contains(id) <==> id < files.len()
                && files[id as int].contains(t),
{
    let ts = sorted_set(flat(files));
    let posts = posts_for(files);
    lemma_writable(roots, names, files);
    lemma_sorted_set(flat(files));
    lemma_flat(files, t);
    lemma_ids_with(files, t);
    if flat(files).contains(t) {
        assert(ts.contains(t));
        let i = choose|i: int| 0 <= i < ts.len() && ts[i] == t;
        assert(posts[i] == post_for(files, t));
        law_lists_read_back(roots, names, posts, i, ids_with(files, t));
    } else {
        assert forall|i: int| 0 <= i < posts.len() implies (#[trigger] posts[i]).trigram != t by {
            assert(ts.contains(ts[i]));
        }
        law_no_other_lists(roots, names, posts, t);
        assert(ids_with(files, t) =~= seq![]);
    }
}

/// The count of a trigram is the number of files that hold it.
pub proof fn law_built_counts(
    roots: Seq<Seq<u8>>,
    names: Seq<Seq<u8>>,
    files: Seq<Seq<u32>>,
    t: u32,
)
    requires
        indexable(roots, names, files),
    ensures
        count_of(index_of(roots, names, files), t) == ids_with(files, t).len(),
        count_of(index_of(roots, names, files), t) == list_of(
            index_of(roots, names, files),
            t,
        ).len(),
{
    let ts = sorted_set(flat(files));
    let posts = posts_for(files);
    lemma_writable(roots, names, files);
    law_built_lists(roots, names, files, t);
    lemma_sorted_set(flat(files));
    lemma_flat(files, t);
    lemma_ids_with(files, t);
    if flat(files).contains(t) {
        assert(ts.contains(t));
        let i = choose|i: int| 0 <= i < ts.len() && ts[i] == t;
        assert(posts[i] == post_for(files, t));
        law_counts_read_back(roots, names, posts, i);
    } else {
        assert forall|i: int| 0 <= i < posts.len() implies (#[trigger] posts[i]).trigram != t by {
            assert(ts.contains(ts[i]));
        }
        law_no_other_lists(roots, names, posts, t);
    }
}

/// The sum of the counts of the trigrams below `n`.
pub open spec fn counts_below(b: Seq<u8>, n: nat) -> nat
    decreases n,
{
    if n == 0 {
        0
    } else {
        counts_below(b, (n - 1) as nat) + count_of(b, (n - 1) as u32) as nat
    }
}

/// The sum of the counts of all trigrams.
pub open spec fn entry_count(b: Seq<u8>) -> nat {
    counts_below(b, 0x1_0000_0000)
}

/// How many numbers below `n` are among those given.
spec fn held_below(tris: Seq<u32>, n: nat) -> nat
    decreases n,
{
    if n == 0 {
        0
    } else {
        held_below(tris, (n - 1) as nat) + if tris.contains((n - 1) as u32) {
            1nat
        } else {
            0
        }
    }
}

proof fn lemma_held_same(a: Seq<u32>, b: Seq<u32>, n: nat)
    requires
        n <= 0x1_0000_0000,
        forall|t: u32| t < n ==> (#[trigger] a.contains(t) <==> b.contains(t)),
    ensures
        held_below(a, n) == held_below(b, n),
    decreases n,
{
    if n > 0 {
        lemma_held_same(a, b, (n - 1) as nat);
        assert(a.contains((n - 1) as u32) <==> b.contains((n - 1) as u32));
    }
}

proof fn lemma_held(tris: Seq<u32>, n: nat)
    requires
        n <= 0x1_0000_0000,
        in_order(tris),
        forall|i: int| 0 <= i < tris.len() ==> tris[i] < n,
    ensures
        held_below(tris, n) == tris.len(),
    decreases n,
{
    if n == 0 {
        if tris.len() > 0 {
            assert(tris[0] < n);
        }
    } else {
        let t = (n - 1) as u32;
        if tris.contains(t) {
            let k = choose|k: int| 0 <= k < tris.len() && tris[k] == t;
            assert(k == tris.len() - 1) by {
                if k < tris.len() - 1 {
                    assert(tris[k] < tris[tris.len() - 1]);
                }
            }
            let short = tris.drop_last();
            assert forall|i: int| 0 <= i < short.len() implies short[i] < n - 1 by {
                assert(tris[i] < tris[k]);
            }
            lemma_held(short, (n - 1) as nat);
            assert forall|u: u32| u < n - 1 implies (#[trigger] tris.contains(u)
                <==> short.contains(u)) by {
                if tris.contains(u) {
                    let i = choose|i: int| 0 <= i < tris.len() && tris[i] == u;
                    assert(short[i] == u);
                }
                if short.contains(u) {
                    let i = choose|i: int| 0 <= i < short.len() && short[i] == u;
                    assert(tris[i] == u);
                }
            }
            lemma_held_same(tris, short, (n - 1) as nat);
        } else {
            assert forall|i: int| 0 <= i < tris.len() implies tris[i] < n - 1 by {
                assert(tris.contains(tris[i]));
            }
            lemma_held(tris, (n - 1) as nat);
        }
    }
}

/// The sum over the trigrams below `n` of the number of files that hold them.
spec fn holders_below(files: Seq<Seq<u32>>, n: nat) -> nat
    decreases n,
{
    if n == 0 {
        0
    } else {
        holders_below(files, (n - 1) as nat) + ids_with(files, (n - 1) as u32).len()
    }
}

proof fn lemma_holders_step(files: Seq<Seq<u32>>, n: nat)
    requires
        files.len() > 0,
    ensures
        holders_below(files, n) == holders_below(files.drop_last(), n) + held_below(
            files.last(),
            n,
        ),
    decreases n,
{
    if n > 0 {
        lemma_holders_step(files, (n - 1) as nat);
    }
}

proof fn lemma_no_holders(files: Seq<Seq<u32>>, n: nat)
    requires
        files.len() == 0,
    ensures
        holders_below(files, n) == 0,
    decreases n,
{
    if n > 0 {
        lemma_no_holders(files, (n - 1) as nat);
    }
}

/// Counted trigram by trigram or file by file, the entries are as many.
proof fn lemma_holders(files: Seq<Seq<u32>>)
    requires
        forall|i: int| 0 <= i < files.len() ==> are_trigrams(#[trigger] files[i]),
    ensures
        holders_below(files, 0x1_0000_0000) == total(files),
    decreases files.len(),
{
    if files.len() == 0 {
        lemma_no_holders(files, 0x1_0000_0000);
    } else {
        let tris = files.last();
        assert(are_trigrams(files[files.len() - 1]));
        lemma_holders(files.drop_last());
        lemma_holders_step(files, 0x1_0000_0000);
        lemma_held(tris, 0x1_0000_0000);
    }
}

proof fn lemma_counts(roots: Seq<Seq<u8>>, names: Seq<Seq<u8>>, files: Seq<Seq<u32>>, n: nat)
    requires
        indexable(roots, names, files),
    ensures
        counts_below(index_of(roots, names, files), n) == holders_below(files, n),
    decreases n,
{
    if n > 0 {
        lemma_counts(roots, names, files, (n - 1) as nat);
        law_built_counts(roots, names, files, (n - 1) as u32);
    }
}

/// The counts of all trigrams add up to the number of trigrams that the files
/// hold, each file's own trigrams counted once.
pub proof fn law_built_totals(roots: Seq<Seq<u8>>, names: Seq<Seq<u8>>, files: Seq<Seq<u32>>)
    requires
        indexable(roots, names, files),
    ensures
        entry_count(index_of(roots, names, files)) == total(files),
{
    lemma_counts(roots, names, files, 0x1_0000_0000);
    lemma_holders(files);
}

/// The candidates for a query are exactly the files whose trigrams satisfy it,
/// in ascending order, each once.
pub proof fn law_built_answers(
    roots: Seq<Seq<u8>>,
    names: Seq<Seq<u8>>,
    files: Seq<Seq<u32>>,
    q: Formula,
)
    requires
        indexable(roots, names, files),
    ensures
        in_order(candidates(index_of(roots, names, files), q, None)),
        forall|id: u32| #[trigger]
            candidates(index_of(roots, names, files), q, None).contains(id) <==> id < files.len()
                && q.sat(files[id as int].to_set()),
{
    let b = index_of(roots, names, files);
    law_built_opens(roots, names, files);
    law_candidates(b, q, None);
    assert forall|id: u32| #[trigger] candidates(b, q, None).contains(id) <==> id < files.len()
        && q.sat(files[id as int].to_set()) by {
        if id < files.len() {
            assert forall|t: u32|
                listed_for(b, id).contains(t) <==> files[id as int].to_set().contains(t) by {
                law_built_lists(roots, names, files, t);
                lemma_ids_with(files, t);
                assert(ids_with(files, t).contains(id) <==> files[id as int].contains(t));
            }
            assert(listed_for(b, id) =~= files[id as int].to_set());
        }
    }
}

proof fn lemma_held_trigrams(data: Seq<u8>)
    ensures
        analysis(data) matches Ok(tris) ==> tris.to_set() == trigrams(data),
{
    if let Ok(tris) = analysis(data) {
        lemma_sorted_set(packed(data));
        assert forall|t: u32| tris.to_set().contains(t) <==> trigrams(data).contains(t) by {
            assert(tris.contains(t) <==> packed(data).contains(t));
        }
        assert(tris.to_set() =~= trigrams(data));
    }
}

/// No match is missed: every indexed file in which a pattern matches is among
/// the candidates for the pattern's query.
pub proof fn law_search_complete(
    roots: Seq<Seq<u8>>,
    names: Seq<Seq<u8>>,
    files: Seq<Seq<u32>>,
    p: Pattern,
    id: u32,
    data: Seq<u8>,
    from: int,
    to: int,
)
    requires
        indexable(roots, names, files),
        id < files.len(),
        analysis(data) == Ok::<Seq<u32>, Skip>(files[id as int]),
        0 <= from <= to <= data.len(),
        p.matches(data.subrange(from, to)),
    ensures
        candidates(index_of(roots, names, files), pattern_query(p), None).contains(id),
{
    let q = pattern_query(p);
    law_no_match_missed(p, data, from, to);
    lemma_held_trigrams(data);
    law_built_answers(roots, names, files, q);
}

/// Nothing that grepping every file would report is missed: an indexed file
/// with a hit is among the candidates for the query of the same pattern.
pub proof fn law_every_hit_is_a_candidate(
    roots: Seq<Seq<u8>>,
    names: Seq<Seq<u8>>,
    files: Seq<Seq<u32>>,
    p: Pattern,
    re: Regex,
    id: u32,
    data: Seq<u8>,
)
    requires
        indexable(roots, names, files),
        stays_inside(re),
        finds_only(re, p),
        id < files.len(),
        analysis(data) == Ok::<Seq<u32>, Skip>(files[id as int]),
        hits(re, data, 0).len() > 0,
    ensures
        candidates(index_of(roots, names, files), pattern_query(p), None).contains(id),
{
    let (s, e) = first_match(re, data, 0).unwrap();
    law_search_complete(roots, names, files, p, id, data, s, e);
}

/// How files are cut into batches decides nothing: read batch after batch, the
/// same files are indexed under the same ids, with the same bytes, and written
/// to the same index.
pub proof fn law_batching_changes_nothing(
    roots: Seq<Seq<u8>>,
    sources: Seq<Source>,
    ranges: Seq<(usize, usize)>,
)
    requires
        covers(ranges, sources.len() as int),
    ensures
        ({
            let whole = accepted_files(sources);
            let taken = accepted_files(joined(sources, ranges));
            &&& joined(sources, ranges).len() == sources.len()
            &&& taken == whole
            &&& byte_count(taken) == byte_count(whole)
            &&& total(trigrams_of(taken)) == total(trigrams_of(whole))
            &&& index_of(roots, names_of(taken), trigrams_of(taken)) == index_of(
                roots,
                names_of(whole),
                trigrams_of(whole),
            )
        }),
{
    law_batches_keep_files(sources, ranges);
}

/// What `build_index` lists is what the contents hold: the posting list of a
/// trigram is ascending, as long as the trigram's count, and names a file just
/// if the file was indexed and the trigram occurs in its contents.
pub proof fn law_build_then_list(roots: Seq<Seq<u8>>, sources: Seq<Source>, t: u32)
    requires
        indexable(
            roots,
            names_of(accepted_files(sources)),
            trigrams_of(accepted_files(sources)),
        ),
    ensures
        ({
            let taken = accepted_files(sources);
            let b = index_of(roots, names_of(taken), trigrams_of(taken));
            &&& in_order(list_of(b, t))
            &&& list_of(b, t).len() == count_of(b, t)
            &&& forall|id: u32| #[trigger]
                list_of(b, t).contains(id) <==> id < taken.len() && trigrams(
                    taken[id as int].data.unwrap()@,
                ).contains(t)
        }),
{
    let taken = accepted_files(sources);
    let files = trigrams_of(taken);
    let b = index_of(roots, names_of(taken), files);
    law_built_lists(roots, names_of(taken), files, t);
    law_built_counts(roots, names_of(taken), files, t);
    lemma_accepted(sources);
    assert forall|id: u32| #[trigger]
        list_of(b, t).contains(id) <==> id < taken.len() && trigrams(
            taken[id as int].data.unwrap()@,
        ).contains(t) by {
        if id < taken.len() {
            assert(taken[id as int].accepted());
            lemma_held_trigrams(taken[id as int].data.unwrap()@);
            assert(files[id as int].to_set().contains(t) <==> files[id as int].contains(t));
        }
    }
}

/// What `build_index` writes leads every search for a pattern to every file
/// with a hit: the candidates for the pattern's query are ascending, and of the
/// files that were indexed, one in which the compiled pattern finds something
/// is among them.
pub proof fn law_build_then_search(
    roots: Seq<Seq<u8>>,
    sources: Seq<Source>,
    p: Pattern,
    re: Regex,
)
    requires
        stays_inside(re),
        finds_only(re, p),
        indexable(
            roots,
            names_of(accepted_files(sources)),
            trigrams_of(accepted_files(sources)),
        ),
    ensures
        ({
            let taken = accepted_files(sources);
            let b = index_of(roots, names_of(taken), trigrams_of(taken));
            let found = candidates(b, pattern_query(p), None);
            &&& in_order(found)
            &&& forall|id: u32|
                id < taken.len() && hits(
                    re,
                    (#[trigger] taken[id as int]).data.unwrap()@,
                    0,
                ).len() > 0 ==> found.contains(id)
        }),
{
    let taken = accepted_files(sources);
    let files = trigrams_of(taken);
    let b = index_of(roots, names_of(taken), files);
    lemma_accepted(sources);
    law_built_answers(roots, names_of(taken), files, pattern_query(p));
    assert forall|id: u32|
        id < taken.len() && hits(
            re,
            (#[trigger] taken[id as int]).data.unwrap()@,
            0,
        ).len() > 0 implies candidates(b, pattern_query(p), None).contains(id) by {
        assert(taken[id as int].accepted());
        let data = taken[id as int].data.unwrap()@;
        law_every_hit_is_a_candidate(roots, names_of(taken), files, p, re, id, data);
    }
}

proof fn lemma_accepted(sources: Seq<Source>)
    ensures
        forall|i: int|
            0 <= i < accepted_files(sources).len() ==> (#[trigger] accepted_files(
                sources,
            )[i]).accepted(),
    decreases sources.len(),
{
    if sources.len() > 0 {
        let before = accepted_files(sources.drop_last());
        lemma_accepted(sources.drop_last());
        assert forall|i: int| 0 <= i < accepted_files(sources).len() implies (
        #[trigger] accepted_files(sources)[i]).accepted() by {
            if i < before.len() {
                assert(before[i].accepted());
            }
        }
    }
}

/// A search for a literal looks at no file in vain that the index can rule out:
/// its candidates are exactly the indexed files that hold every trigram of the
/// literal.
pub proof fn law_literal_search(
    roots: Seq<Seq<u8>>,
    sources: Seq<Source>,
    bytes: Seq<u8>,
    id: u32,
)
    requires
        indexable(
            roots,
            names_of(accepted_files(sources)),
            trigrams_of(accepted_files(sources)),
        ),
    ensures
        ({
            let taken = accepted_files(sources);
            let b = index_of(roots, names_of(taken), trigrams_of(taken));
            candidates(b, pattern_query(Pattern::Literal(bytes)), None).contains(id) <==> id
                < taken.len() && forall|i: int|
                0 <= i && i + 2 < bytes.len() ==> trigrams(
                    taken[id as int].data.unwrap()@,
                ).contains(
                    (#[trigger] bytes[i] * 0x1_0000 + bytes[i + 1] * 0x100 + bytes[i + 2]) as u32,
                )
        }),
{
    let taken = accepted_files(sources);
    let files = trigrams_of(taken);
    let q = pattern_query(Pattern::Literal(bytes));
    lemma_accepted(sources);
    law_built_answers(roots, names_of(taken), files, q);
    if id < taken.len() {
        assert(taken[id as int].accepted());
        lemma_held_trigrams(taken[id as int].data.unwrap()@);
        law_literal_query(bytes, trigrams(taken[id as int].data.unwrap()@));
    }
}

} // verus!

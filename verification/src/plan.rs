//! What a run of `cindex` sets out to do, and what it says of it.

use vstd::prelude::*;
use vstd::string::StringExecFns;

use crate::files::BuildOptions;
use crate::text::{decimal, decimal_text, occurs, stands_at};
use crate::trigram::MAX_FILE_LEN;
use crate::write::Stats;

verus! {

/// The index to work on: the one that was named, or the one at the root of the
/// repository, or the usual one.
pub fn choose_index<P>(named: Option<P>, local: Option<P>, usual: P) -> (r: P)
    ensures
        r == match named {
            Some(p) => p,
            None => match local {
                Some(p) => p,
                None => usual,
            },
        },
{
    match named {
        Some(p) => p,
        None => match local {
            Some(p) => p,
            None => usual,
        },
    }
}

/// How to build: batches of `batch_mib` MiB, modulo 64 bits, and the file list
/// from git if asked for, or for a local index unless that is declined.
pub fn build_options(verbose: bool, batch_mib: u64, git: bool, local: bool, no_git: bool) -> (r:
    BuildOptions)
    ensures
        r == (BuildOptions {
            verbose,
            batch_bytes: (batch_mib * 0x10_0000 % 0x1_0000_0000_0000_0000) as u64,
            max_file_bytes: MAX_FILE_LEN,
            git: git || local && !no_git,
        }),
{
    let mut opts = BuildOptions::default();
    opts.verbose = verbose;
    opts.batch_bytes = batch_mib.wrapping_mul(0x10_0000);
    opts.git = git || (local && !no_git);
    opts
}

/// Why there is nothing to index, if there is nothing.
pub open spec fn nothing(planned: nat, stored: nat, index: Seq<char>) -> Option<Seq<char>> {
    if planned > 0 {
        None
    } else if stored == 0 {
        Some("no paths given and no existing index at "@ + index)
    } else {
        Some("no roots left to index; use --reset to delete the index"@)
    }
}

/// Why there is nothing to index, if there is nothing: no root is planned, of
/// `stored` roots that the index at `index` has.
pub fn nothing_to_index(planned: usize, stored: usize, index: &str) -> (r: Option<String>)
    ensures
        match r {
            Some(m) => nothing(planned as nat, stored as nat, index@) == Some(m@),
            None => nothing(planned as nat, stored as nat, index@) is None,
        },
{
    if planned > 0 {
        None
    } else if stored == 0 {
        Some("no paths given and no existing index at ".to_owned().concat(index))
    } else {
        Some("no roots left to index; use --reset to delete the index".to_owned())
    }
}

/// The line that ends a build.
pub open spec fn summary_text(s: Stats) -> Seq<char> {
    "cindex: "@ + decimal(s.files_indexed as nat) + " files indexed ("@ + decimal(
        s.files_skipped as nat,
    ) + " skipped), "@ + decimal(s.distinct_trigrams as nat) + " trigrams, "@ + decimal(
        s.posting_entries as nat,
    ) + " posting entries, index "@ + decimal(s.index_bytes as nat) + " bytes"@
}

/// The line that ends a build.
pub fn summary(s: &Stats) -> (r: String)
    ensures
        r@ == summary_text(*s),
{
    "cindex: ".to_owned().concat(&decimal_text(s.files_indexed as u64)).concat(
        " files indexed (",
    ).concat(&decimal_text(s.files_skipped as u64)).concat(" skipped), ").concat(
        &decimal_text(s.distinct_trigrams as u64),
    ).concat(" trigrams, ").concat(&decimal_text(s.posting_entries)).concat(
        " posting entries, index ",
    ).concat(&decimal_text(s.index_bytes)).concat(" bytes")
}

/// What is said of a file over the size limit.
pub fn over_limit(path: &str, len: u64, limit: u64) -> (r: String)
    ensures
        r@ == "cindex: "@ + path@ + ": "@ + decimal(len as nat) + " bytes is over the "@ + decimal(
            limit as nat,
        ) + "-byte limit, skipping"@,
{
    "cindex: ".to_owned().concat(path).concat(": ").concat(&decimal_text(len)).concat(
        " bytes is over the ",
    ).concat(&decimal_text(limit)).concat("-byte limit, skipping")
}

/// The line that ends a build tells every count, each with what it counts.
pub proof fn law_summary_tells(s: Stats)
    ensures
        occurs(summary_text(s), decimal(s.files_indexed as nat) + " files indexed ("@),
        occurs(summary_text(s), "("@ + decimal(s.files_skipped as nat) + " skipped), "@),
        occurs(summary_text(s), decimal(s.distinct_trigrams as nat) + " trigrams, "@),
        occurs(summary_text(s), decimal(s.posting_entries as nat) + " posting entries, index "@),
        occurs(summary_text(s), " index "@ + decimal(s.index_bytes as nat) + " bytes"@),
{
    reveal_strlit(" files indexed (");
    reveal_strlit("(");
    reveal_strlit(" posting entries, index ");
    reveal_strlit(" index ");
    let all = summary_text(s);
    let (a, b, c, d, e) = (
        decimal(s.files_indexed as nat),
        decimal(s.files_skipped as nat),
        decimal(s.distinct_trigrams as nat),
        decimal(s.posting_entries as nat),
        decimal(s.index_bytes as nat),
    );
    let (x1, x2) = ("cindex: "@, a + " files indexed ("@);
    let (x3, x4) = (x1 + x2, b + " skipped), "@);
    let (x5, x6) = (x3 + x4, c + " trigrams, "@);
    let (x7, x8) = (x5 + x6, d + " posting entries, index "@);
    let (x9, x10) = (x7 + x8, e + " bytes"@);
    assert(all =~= x9 + x10);
    lemma_stands(all, x1, x2);
    lemma_stands(all, x5, x6);
    lemma_stands(all, x7, x8);
    let skipped = "("@ + b + " skipped), "@;
    let before = x3.take(x3.len() - 1);
    assert(x3 =~= before + "("@);
    assert(x3 + x4 =~= before + skipped);
    lemma_stands(all, before, skipped);
    let bytes = " index "@ + e + " bytes"@;
    let front = x9.take(x9.len() - 7);
    assert(x9 =~= front + " index "@) by {
        assert(x9.skip(x9.len() - 7) =~= " posting entries, index "@.skip(17));
        assert(" posting entries, index "@.skip(17) =~= " index "@);
    }
    assert(x9 + x10 =~= front + bytes);
    lemma_stands(all, front, bytes);
}

proof fn lemma_stands(all: Seq<char>, before: Seq<char>, p: Seq<char>)
    requires
        (before + p).is_prefix_of(all),
    ensures
        occurs(all, p),
{
    let at = before.len() as int;
    assert(all.subrange(at, at + p.len()) =~= all.take((before + p).len() as int).skip(at));
    assert((before + p).skip(at) =~= p);
    assert(stands_at(all, p, at));
}

/// There is something to index just if a root is planned; what is said
/// otherwise depends on whether the index has roots, and tells where it is if
/// it has none.
pub proof fn law_nothing_to_index(planned: nat, stored: nat, index: Seq<char>)
    ensures
        nothing(planned, stored, index) is None <==> planned > 0,
        planned == 0 && stored == 0 ==> (nothing(planned, stored, index) matches Some(m)
            && occurs(m, index)),
        planned == 0 && stored > 0 ==> (nothing(planned, stored, index) matches Some(m)
            && occurs(m, "--reset"@)),
{
    if planned == 0 && stored == 0 {
        let m = nothing(planned, stored, index).unwrap();
        let front = "no paths given and no existing index at "@;
        assert(m.take((front + index).len() as int) =~= front + index);
        lemma_stands(m, front, index);
    }
    if planned == 0 && stored > 0 {
        reveal_strlit("no roots left to index; use --reset to delete the index");
        reveal_strlit("--reset");
        let m = nothing(planned, stored, index).unwrap();
        assert(m.subrange(28, 35) =~= "--reset"@);
        assert(stands_at(m, "--reset"@, 28));
    }
}

} // verus!

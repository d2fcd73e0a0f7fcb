//! Index-file location and path normalisation helpers.

use vstd::prelude::*;

use crate::text::{from_chars, is_at, stands_at, to_chars};

verus! {

/// The index file's name, both in the home directory and at a project root.
pub const INDEX_FILE_NAME: &'static str = ".csearchindex";

/// The position of the first probe that succeeded.
pub open spec fn first_present<P>(probes: Seq<(P, bool)>) -> Option<int>
    decreases probes.len(),
{
    if probes.len() == 0 {
        None
    } else {
        match first_present(probes.drop_last()) {
            Some(i) => Some(i),
            None => if probes.last().1 {
                Some(probes.len() - 1)
            } else {
                None
            },
        }
    }
}

/// What the first successful probe looked for.
pub open spec fn nearest<P>(probes: Seq<(P, bool)>) -> Option<P> {
    match first_present(probes) {
        Some(i) => Some(probes[i].0),
        None => None,
    }
}

proof fn lemma_first_present<P>(probes: Seq<(P, bool)>, i: int)
    requires
        0 <= i <= probes.len(),
        forall|j: int| 0 <= j < i ==> !(#[trigger] probes[j]).1,
        i < probes.len() ==> probes[i].1,
    ensures
        first_present(probes) == if i < probes.len() {
            Some(i)
        } else {
            None
        },
    decreases probes.len(),
{
    if probes.len() > 0 {
        if i < probes.len() {
            lemma_first_present(probes.drop_last(), i);
        } else {
            lemma_first_present(probes.drop_last(), i - 1);
        }
    }
}

fn take_nearest<P>(probes: Vec<(P, bool)>) -> (r: Option<P>)
    ensures
        r == nearest(probes@),
{
    let mut left = probes;
    let ghost all = probes@;
    let mut i: usize = 0;
    while i < left.len()
        invariant
            i <= all.len(),
            all == probes@,
            left@ == all,
            forall|j: int| 0 <= j < i ==> !(#[trigger] all[j]).1,
        decreases all.len() - i,
    {
        if left[i].1 {
            proof {
                lemma_first_present(all, i as int);
            }
            let (p, _) = left.swap_remove(i);
            return Some(p);
        }
        i = i + 1;
    }
    proof {
        lemma_first_present(all, i as int);
    }
    None
}

/// Where the index is, in order of precedence:
///
/// 1. `$CSEARCHINDEX`, if set and non-empty;
/// 2. the nearest `.csearchindex` **file** at or above the working directory,
///    a per-project index created by `cindex --local`;
/// 3. `.csearchindex` in the home directory, or in the working directory where
///    there is no home.
///
/// `probes` are the places of step 2, nearest first, each with whether there is
/// such a file.
pub fn resolve_index_path<P>(
    env_override: Option<P>,
    probes: Vec<(P, bool)>,
    home: Option<P>,
    here: P,
) -> (r: P)
    ensures
        r == match env_override {
            Some(p) => p,
            None => match nearest(probes@) {
                Some(p) => p,
                None => match home {
                    Some(p) => p,
                    None => here,
                },
            },
        },
{
    if let Some(p) = env_override {
        return p;
    }
    if let Some(local) = find_local_index(probes) {
        return local;
    }
    match home {
        Some(p) => p,
        None => here,
    }
}

/// Where the index is when it is not named: `resolve_index_path` on the
/// environment. `named` is `$CSEARCHINDEX`, where it is set, with whether it is
/// empty, which counts as unset; `home` and `user_profile` are the places of
/// the index in `$HOME` and `$USERPROFILE`, of which the first goes before the
/// second.
pub fn default_index_path<P>(
    named: Option<(P, bool)>,
    probes: Vec<(P, bool)>,
    home: Option<P>,
    user_profile: Option<P>,
    here: P,
) -> (r: P)
    ensures
        r == match named {
            Some((p, false)) => p,
            _ => match nearest(probes@) {
                Some(p) => p,
                None => match home {
                    Some(p) => p,
                    None => match user_profile {
                        Some(p) => p,
                        None => here,
                    },
                },
            },
        },
{
    let env_override = match named {
        Some((p, empty)) => {
            if empty {
                None
            } else {
                Some(p)
            }
        },
        None => None,
    };
    let home = match home {
        Some(p) => Some(p),
        None => user_profile,
    };
    resolve_index_path(env_override, probes, home, here)
}

/// The nearest `.csearchindex` file at or above a directory. `probes` are the
/// places to look, nearest first, each with whether there is such a file. A
/// directory of that name does not count.
pub fn find_local_index<P>(probes: Vec<(P, bool)>) -> (r: Option<P>)
    ensures
        r == nearest(probes@),
{
    take_nearest(probes)
}

/// The enclosing repository root: the nearest directory with a `.git` entry, a
/// directory normally, a file for a worktree. `probes` are the directories,
/// nearest first, each with whether there is such an entry. `None` outside any
/// repository.
pub fn find_repo_root<P>(probes: Vec<(P, bool)>) -> (r: Option<P>)
    ensures
        r == nearest(probes@),
{
    take_nearest(probes)
}

/// A path without the Windows `\\?\` verbatim prefix.
pub open spec fn plain_path(s: Seq<char>) -> Seq<char> {
    if stands_at(s, "\\\\?\\UNC\\"@, 0) {
        "\\\\"@ + s.skip("\\\\?\\UNC\\"@.len() as int)
    } else if stands_at(s, "\\\\?\\"@, 0) {
        s.skip("\\\\?\\"@.len() as int)
    } else {
        s
    }
}

/// Absolute, canonical path as a display string, without the Windows `\\?\`
/// verbatim prefix that canonicalisation adds. `resolved` is the outcome of
/// canonicalisation.
pub fn canonical_string<E>(resolved: Result<String, E>) -> (r: Result<String, E>)
    ensures
        match resolved {
            Ok(s) => r matches Ok(p) && p@ == plain_path(s@),
            Err(e) => r == Err::<String, E>(e),
        },
{
    match resolved {
        Ok(s) => Ok(strip_verbatim(&s)),
        Err(e) => Err(e),
    }
}

/// A path without the Windows `\\?\` verbatim prefix.
pub fn strip_verbatim(s: &str) -> (r: String)
    ensures
        r@ == plain_path(s@),
{
    let all = to_chars(s);
    let unc = to_chars("\\\\?\\UNC\\");
    if is_at(&all, &unc, 0) {
        let mut out = to_chars("\\\\");
        let ghost front = out@;
        let rest = &all.as_slice()[unc.len()..all.len()];
        out.extend_from_slice(rest);
        assert(out@ =~= front + s@.skip(unc@.len() as int));
        return from_chars(&out);
    }
    let verbatim = to_chars("\\\\?\\");
    if is_at(&all, &verbatim, 0) {
        let rest = &all.as_slice()[verbatim.len()..all.len()];
        assert(rest@ =~= s@.skip(verbatim@.len() as int));
        return from_chars(rest);
    }
    s.to_owned()
}

/// The nearest is the first probe that succeeded: no probe before it did. There
/// is none if and only if no probe succeeded.
pub proof fn law_nearest<P>(probes: Seq<(P, bool)>)
    ensures
        nearest(probes) is None <==> forall|i: int|
            0 <= i < probes.len() ==> !(#[trigger] probes[i]).1,
        forall|i: int|
            0 <= i < probes.len() && (#[trigger] probes[i]).1 && (forall|j: int|
                0 <= j < i ==> !(#[trigger] probes[j]).1) ==> nearest(probes) == Some(probes[i].0),
    decreases probes.len(),
{
    assert forall|i: int|
        0 <= i < probes.len() && (#[trigger] probes[i]).1 && (forall|j: int|
            0 <= j < i ==> !(#[trigger] probes[j]).1) implies nearest(probes) == Some(
        probes[i].0,
    ) by {
        lemma_first_present(probes, i);
    }
    if forall|i: int| 0 <= i < probes.len() ==> !(#[trigger] probes[i]).1 {
        lemma_first_present(probes, probes.len() as int);
    } else {
        lemma_some_present(probes);
    }
}

proof fn lemma_some_present<P>(probes: Seq<(P, bool)>)
    requires
        exists|i: int| 0 <= i < probes.len() && (#[trigger] probes[i]).1,
    ensures
        first_present(probes) is Some,
    decreases probes.len(),
{
    let i = choose|i: int| 0 <= i < probes.len() && (#[trigger] probes[i]).1;
    if i < probes.len() - 1 {
        assert(probes.drop_last()[i].1);
        lemma_some_present(probes.drop_last());
    }
}

/// Of a path on a share with the verbatim prefix, two backslashes stand for the
/// prefix; of any other path with it, it is taken away; and a path without it
/// stays as it is.
pub proof fn law_plain_path(rest: Seq<char>)
    ensures
        plain_path("\\\\?\\UNC\\"@ + rest) == "\\\\"@ + rest,
        !"UNC\\"@.is_prefix_of(rest) ==> plain_path("\\\\?\\"@ + rest) == rest,
        !"\\\\?\\"@.is_prefix_of(rest) ==> plain_path(rest) == rest,
{
    reveal_strlit("\\\\?\\UNC\\");
    reveal_strlit("\\\\?\\");
    reveal_strlit("UNC\\");
    reveal_strlit("\\\\");
    let (unc, verbatim, share) = ("\\\\?\\UNC\\"@, "\\\\?\\"@, "UNC\\"@);
    assert(unc =~= verbatim + share);
    let a = unc + rest;
    assert(a.subrange(0, unc.len() as int) =~= unc);
    assert(a.skip(unc.len() as int) =~= rest);
    let b = verbatim + rest;
    assert(b.subrange(0, verbatim.len() as int) =~= verbatim);
    assert(b.skip(verbatim.len() as int) =~= rest);
    if stands_at(b, unc, 0) {
        assert(rest.take(share.len() as int) =~= b.subrange(0, unc.len() as int).skip(
            verbatim.len() as int,
        ));
        assert(unc.skip(verbatim.len() as int) =~= share);
    }
    if stands_at(rest, verbatim, 0) {
        assert(rest.take(verbatim.len() as int) =~= rest.subrange(0, verbatim.len() as int));
    }
    if stands_at(rest, unc, 0) {
        assert(rest.take(verbatim.len() as int) =~= rest.subrange(0, unc.len() as int).take(
            verbatim.len() as int,
        ));
        assert(unc.take(verbatim.len() as int) =~= verbatim);
    }
}

} // verus!

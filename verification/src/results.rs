//! What a search comes to: which files it looks at, and what it reports.

use vstd::prelude::*;
use vstd::string::StringExecFns;

use crate::eval::{all_ids, candidates};
use crate::query::Query;
use crate::read::{name_of, sections, Index};
use crate::regexp::{bad_regexp, pattern_query, regexp_query};
use crate::syntax::parsed;
use crate::text::{decimal, decimal_text, occurs, stands_at};

verus! {

/// `regex::Regex`, a compiled regular expression on text.
#[verifier::external_type_specification]
#[verifier::external_body]
pub struct ExTextRegex(regex::Regex);

/// Whether `regex::Regex::is_match` finds a match in a text.
pub uninterp spec fn text_matches(re: regex::Regex, text: Seq<char>) -> bool;

/// Whether an expression made of a pattern by `regex::Regex::new` matches
/// somewhere in a text.
pub uninterp spec fn pattern_matches(pattern: Seq<char>, text: Seq<char>) -> bool;

/// What `regex::Regex::new` says of a pattern that it refuses.
pub uninterp spec fn text_refusal(pattern: Seq<char>) -> Option<Seq<char>>;

/// `regex::Regex::is_match`: a function of the expression and the text.
#[verifier::external_body]
fn is_match(re: &regex::Regex, text: &str) -> (r: bool)
    ensures
        r == text_matches(*re, text@),
{
    re.is_match(text)
}

/// Whether an expression matches what the pattern matches.
pub open spec fn is_made_of(re: regex::Regex, pattern: Seq<char>) -> bool {
    forall|text: Seq<char>| #[trigger] text_matches(re, text) == pattern_matches(pattern, text)
}

/// `regex::Regex::new`: whether a pattern is accepted, what is said of one that
/// is not, and what one that is matches, are functions of the pattern.
#[verifier::external_body]
fn new_regex(pattern: &str) -> (r: Result<regex::Regex, String>)
    ensures
        match r {
            Ok(re) => text_refusal(pattern@) is None && forall|text: Seq<char>| #[trigger]
                text_matches(re, text) == pattern_matches(pattern@, text),
            Err(e) => text_refusal(pattern@) == Some(e@),
        },
{
    regex::Regex::new(pattern).map_err(|e| format!("{e}"))
}

/// Which files to look at, by their names.
#[derive(Debug)]
pub struct NameFilter {
    pub re: Option<regex::Regex>,
}

impl NameFilter {
    /// Whether a file of this name is looked at.
    pub open spec fn lets(&self, name: Seq<char>) -> bool {
        match self.re {
            Some(re) => text_matches(re, name),
            None => true,
        }
    }

    /// A filter by a regular expression, or one that lets every file through.
    pub fn new(pattern: Option<&str>) -> (r: Result<NameFilter, String>)
        ensures
            match pattern {
                Some(p) => match r {
                    Ok(f) => text_refusal(p@) is None && f.re is Some && is_made_of(
                        f.re.unwrap(),
                        p@,
                    ),
                    Err(e) => text_refusal(p@) == Some(e@),
                },
                None => r matches Ok(f) && f.re is None,
            },
    {
        match pattern {
            Some(p) => match new_regex(p) {
                Ok(re) => Ok(NameFilter { re: Some(re) }),
                Err(e) => Err(e),
            },
            None => Ok(NameFilter { re: None }),
        }
    }
}

/// The names of the files that a filter lets through, in order.
pub open spec fn let_through(f: NameFilter, b: Seq<u8>, ids: Seq<u32>) -> Seq<Seq<char>>
    decreases ids.len(),
{
    if ids.len() == 0 {
        seq![]
    } else {
        let name = name_of(b, ids.last() as int);
        let before = let_through(f, b, ids.drop_last());
        if f.lets(name) {
            before.push(name)
        } else {
            before
        }
    }
}

/// The texts of a list.
pub open spec fn str_texts(v: Seq<&str>) -> Seq<Seq<char>> {
    Seq::new(v.len(), |i: int| v[i]@)
}

impl<'a> Index<'a> {
    /// The files to grep: those that a query leaves, or every one.
    pub fn select(&self, q: Option<&Query>) -> (r: Vec<u32>)
        requires
            self.wf(),
        ensures
            r@ == match q {
                Some(q) => candidates(self.bytes(), q@, None),
                None => all_ids(sections(self.bytes()).nfiles),
            },
    {
        match q {
            Some(q) => self.posting_query(q),
            None => {
                let every = Query::all();
                self.posting_query(&every)
            },
        }
    }

    /// The files that a search for a pattern greps, and the query that left
    /// them; every file, and no query, where the index is not to be used.
    pub fn find(&self, pattern: &str, case_insensitive: bool, brute: bool) -> (r: Result<
        (Option<Query>, Vec<u32>),
        String,
    >)
        requires
            self.wf(),
        ensures
            match r {
                Ok((Some(q), ids)) => !brute && (parsed(pattern@, case_insensitive) matches Ok(p)
                    && q@ == pattern_query(p) && ids@ == candidates(
                    self.bytes(),
                    pattern_query(p),
                    None,
                )),
                Ok((None, ids)) => brute && ids@ == all_ids(sections(self.bytes()).nfiles),
                Err(m) => !brute && (parsed(pattern@, case_insensitive) matches Err(e) && m@
                    == bad_regexp(e)),
            },
    {
        if brute {
            return Ok((None, self.select(None)));
        }
        match regexp_query(pattern, case_insensitive) {
            Ok(q) => {
                let ids = self.select(Some(&q));
                Ok((Some(q), ids))
            },
            Err(m) => Err(m),
        }
    }

    /// The names of the given files that a filter lets through.
    pub fn names_for(&self, ids: &[u32], filter: &NameFilter) -> (r: Vec<&str>)
        requires
            self.wf(),
        ensures
            str_texts(r@) == let_through(*filter, self.bytes(), ids@),
    {
        let ghost b = self.bytes();
        let mut out: Vec<&str> = Vec::new();
        let mut i: usize = 0;
        assert(ids@.take(0) =~= seq![]);
        assert(str_texts(out@) =~= seq![]);
        while i < ids.len()
            invariant
                i <= ids@.len(),
                self.wf(),
                b == self.bytes(),
                str_texts(out@) == let_through(*filter, b, ids@.take(i as int)),
            decreases ids@.len() - i,
        {
            let name = self.name(ids[i]);
            let ghost so_far = str_texts(out@);
            proof {
                assert(ids@.take(i + 1).drop_last() =~= ids@.take(i as int));
                assert(ids@.take(i + 1).last() == ids@[i as int]);
            }
            let keep = match &filter.re {
                Some(re) => is_match(re, name),
                None => true,
            };
            if keep {
                out.push(name);
                assert(str_texts(out@) =~= so_far.push(name@));
            }
            i = i + 1;
        }
        assert(ids@.take(i as int) =~= ids@);
        out
    }
}

/// What a search has come to so far.
#[derive(Debug, Clone, Copy, PartialEq, Eq, Structural)]
pub struct Tally {
    /// Files with a match.
    pub files: usize,
    /// Matches in all files.
    pub total: usize,
    /// Indexed files that no longer exist.
    pub missing: usize,
    /// Indexed files that could not be read.
    pub unreadable: usize,
}

impl Tally {
    /// Nothing yet.
    pub fn new() -> (t: Tally)
        ensures
            t == (Tally { files: 0, total: 0, missing: 0, unreadable: 0 }),
    {
        Tally { files: 0, total: 0, missing: 0, unreadable: 0 }
    }

    /// Count a file with `matches` matches.
    pub fn count(&mut self, matches: usize)
        requires
            old(self).total + matches <= usize::MAX,
            old(self).files < usize::MAX,
        ensures
            *final(self) == (Tally {
                files: (old(self).files + if matches > 0 {
                    1int
                } else {
                    0
                }) as usize,
                total: (old(self).total + matches) as usize,
                ..*old(self)
            }),
    {
        if matches > 0 {
            self.files = self.files + 1;
            self.total = self.total + matches;
        }
    }

    /// grep's exit status: 0 if something matched, 1 if nothing did.
    pub fn exit_code(&self) -> (code: i32)
        ensures
            code == if self.total == 0 {
                1int
            } else {
                0
            },
    {
        if self.total == 0 {
            1
        } else {
            0
        }
    }

    /// What is said of files that are gone, if any are.
    pub open spec fn missing_note(self) -> Option<Seq<char>> {
        if self.missing > 0 {
            Some(
                "csearch: "@ + decimal(self.missing as nat)
                    + " indexed file(s) no longer exist -- run cindex to refresh the index"@,
            )
        } else {
            None
        }
    }

    /// What is said of files that could not be read, if any could not.
    pub open spec fn unreadable_note(self) -> Option<Seq<char>> {
        if self.unreadable > 0 {
            Some(
                "csearch: "@ + decimal(self.unreadable as nat)
                    + " indexed file(s) could not be read"@,
            )
        } else {
            None
        }
    }

    /// What is said at the end, so that a stale index is never silent: of
    /// files that are gone, and of files that could not be read.
    pub fn notes(&self) -> (r: (Option<String>, Option<String>))
        ensures
            match r.0 {
                Some(m) => self.missing_note() == Some(m@),
                None => self.missing_note() is None,
            },
            match r.1 {
                Some(m) => self.unreadable_note() == Some(m@),
                None => self.unreadable_note() is None,
            },
    {
        let missing = if self.missing > 0 {
            Some(
                "csearch: ".to_owned().concat(&decimal_text(self.missing as u64)).concat(
                    " indexed file(s) no longer exist -- run cindex to refresh the index",
                ),
            )
        } else {
            None
        };
        let unreadable = if self.unreadable > 0 {
            Some(
                "csearch: ".to_owned().concat(&decimal_text(self.unreadable as u64)).concat(
                    " indexed file(s) could not be read",
                ),
            )
        } else {
            None
        };
        (missing, unreadable)
    }
}

/// Names are let through one by one, in order: of two lists of files those of
/// the one and then those of the other.
pub proof fn law_filter_keeps_order(f: NameFilter, b: Seq<u8>, x: Seq<u32>, y: Seq<u32>)
    ensures
        let_through(f, b, x + y) == let_through(f, b, x) + let_through(f, b, y),
    decreases y.len(),
{
    if y.len() == 0 {
        assert(x + y =~= x);
        assert(let_through(f, b, x) + let_through(f, b, y) =~= let_through(f, b, x));
    } else {
        law_filter_keeps_order(f, b, x, y.drop_last());
        assert((x + y).drop_last() =~= x + y.drop_last());
        assert((x + y).last() == y.last());
        assert(let_through(f, b, x + y) =~= let_through(f, b, x) + let_through(f, b, y));
    }
}

/// A name is let through if the expression of the filter matches it, and every
/// name is where there is no expression.
pub proof fn law_filter(f: NameFilter, b: Seq<u8>, id: u32)
    ensures
        let_through(f, b, seq![id]) == if f.re is None || text_matches(
            f.re.unwrap(),
            name_of(b, id as int),
        ) {
            seq![name_of(b, id as int)]
        } else {
            seq![]
        },
{
    let one = seq![id];
    let none: Seq<Seq<char>> = seq![];
    assert(one.drop_last() =~= seq![]);
    assert(one.last() == id);
    assert(let_through(f, b, one.drop_last()) == none);
    assert(none.push(name_of(b, id as int)) =~= seq![name_of(b, id as int)]);
}

/// Files that are gone, and files that could not be read, are told of if and
/// only if there are any, with how many there are.
pub proof fn law_notes(t: Tally)
    ensures
        t.missing_note() is None <==> t.missing == 0,
        t.unreadable_note() is None <==> t.unreadable == 0,
        t.missing_note() matches Some(m) ==> occurs(
            m,
            decimal(t.missing as nat) + " indexed file(s) no longer exist"@,
        ),
        t.unreadable_note() matches Some(m) ==> occurs(
            m,
            decimal(t.unreadable as nat) + " indexed file(s) could not be read"@,
        ),
{
    reveal_strlit("csearch: ");
    reveal_strlit(" indexed file(s) no longer exist -- run cindex to refresh the index");
    reveal_strlit(" indexed file(s) no longer exist");
    let at = "csearch: "@.len() as int;
    if let Some(m) = t.missing_note() {
        let p = decimal(t.missing as nat) + " indexed file(s) no longer exist"@;
        assert(m.subrange(at, at + p.len()) =~= p);
        assert(stands_at(m, p, at));
    }
    if let Some(m) = t.unreadable_note() {
        let p = decimal(t.unreadable as nat) + " indexed file(s) could not be read"@;
        assert(m.subrange(at, at + p.len()) =~= p);
        assert(stands_at(m, p, at));
    }
}

} // verus!

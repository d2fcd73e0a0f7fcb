//! Search within the text of a file, and the form of what is printed.

use regex::bytes::{Regex, RegexBuilder};
use vstd::prelude::*;
use vstd::seq_lib::group_to_multiset_ensures;
use vstd::utf8::encode_utf8;

use crate::expr::Pattern;
use crate::syntax::parsed;
use crate::text::{decimal, decimal_bytes};
use crate::trigram::{positions, NEWLINE};

verus! {

/// `regex::bytes::Regex`, a compiled regular expression.
#[verifier::external_type_specification]
#[verifier::external_body]
pub struct ExRegex(regex::bytes::Regex);

/// Where `regex::bytes::Regex::find_at` finds the first match from `from` on.
pub uninterp spec fn first_match(re: regex::bytes::Regex, hay: Seq<u8>, from: int) -> Option<
    (int, int),
>;

/// Where an expression that `regex::bytes::RegexBuilder::build` makes of a
/// pattern, with the multi-line and CRLF flags, finds the first match from
/// `from` on.
pub uninterp spec fn found(
    pattern: Seq<char>,
    case_insensitive: bool,
    hay: Seq<u8>,
    from: int,
) -> Option<(int, int)>;

/// What `regex::bytes::RegexBuilder::build` says of a pattern that it refuses,
/// with the multi-line and CRLF flags.
pub uninterp spec fn refusal(pattern: Seq<char>, case_insensitive: bool) -> Option<Seq<char>>;

/// `memchr::memrchr`: the last position of a byte, if it occurs.
pub assume_specification[ memchr::memrchr ](needle: u8, haystack: &[u8]) -> (r: Option<usize>)
    ensures
        match r {
            Some(i) => i < haystack@.len() && haystack@[i as int] == needle && forall|j: int|
                i < j < haystack@.len() ==> haystack@[j] != needle,
            None => forall|j: int| 0 <= j < haystack@.len() ==> haystack@[j] != needle,
        },
;

/// `regex::bytes::Regex::find_at`: a function of the expression, the text and
/// the start, which lies in the text. A match lies between the start and the
/// end of the text, and it is the leftmost: a search from any later start, up
/// to where the match starts, finds the same. Where nothing is found, nothing
/// is found from any later start.
#[verifier::external_body]
fn find_at(re: &Regex, hay: &[u8], from: usize) -> (r: Option<(usize, usize)>)
    requires
        from <= hay@.len(),
    ensures
        match r {
            Some((s, e)) => first_match(*re, hay@, from as int) == Some((s as int, e as int)) && from
                <= s <= e <= hay@.len() && forall|k: int|
                from <= k <= s ==> #[trigger] first_match(*re, hay@, k) == Some(
                    (s as int, e as int),
                ),
            None => first_match(*re, hay@, from as int) is None && forall|k: int|
                from <= k <= hay@.len() ==> #[trigger] first_match(*re, hay@, k) is None,
        },
{
    re.find_at(hay, from).map(|m| (m.start(), m.end()))
}

/// `regex::bytes::RegexBuilder::build`, with the multi-line and CRLF flags.
/// Whether a pattern is accepted, what is said of one that is not, and what is
/// found with one that is, are functions of the pattern and the flag. A match
/// lies between the start of the search and the end of the text, and is the
/// leftmost.
/// Where `regex_syntax` parses the pattern too, what is found is a match of
/// the parsed expression: the CRLF flag only narrows what `.` stands for and
/// where lines end.
#[verifier::external_body]
fn compile(pattern: &str, case_insensitive: bool) -> (r: Result<Regex, String>)
    ensures
        match r {
            Ok(re) => refusal(pattern@, case_insensitive) is None && (forall|hay: Seq<u8>, from: int|
                #[trigger] first_match(re, hay, from) == found(
                    pattern@,
                    case_insensitive,
                    hay,
                    from,
                )) && stays_inside(re) && is_leftmost(re) && (parsed(
                pattern@,
                case_insensitive,
            ) matches Ok(p) ==> finds_only(re, p)),
            Err(e) => refusal(pattern@, case_insensitive) == Some(e@),
        },
{
    RegexBuilder::new(pattern)
        .case_insensitive(case_insensitive)
        .multi_line(true)
        .crlf(true)
        .build()
        .map_err(|e| format!("{e}"))
}

/// Whether `re` finds what the pattern finds.
pub open spec fn is_made_of(re: Regex, pattern: Seq<char>, case_insensitive: bool) -> bool {
    forall|hay: Seq<u8>, from: int| #[trigger]
        first_match(re, hay, from) == found(pattern, case_insensitive, hay, from)
}

/// Whether what `re` finds lies between the start of the search and the end of
/// the text.
pub open spec fn stays_inside(re: Regex) -> bool {
    forall|hay: Seq<u8>, from: int|
        0 <= from <= hay.len() ==> match #[trigger] first_match(re, hay, from) {
            Some((s, e)) => from <= s <= e <= hay.len(),
            None => true,
        }
}

/// Whether what `re` finds is the leftmost match: a search from any later
/// start, up to where the match starts, finds the same, and where nothing is
/// found, nothing is found from any later start.
pub open spec fn is_leftmost(re: Regex) -> bool {
    forall|hay: Seq<u8>, from: int, k: int|
        0 <= from <= k <= hay.len() ==> match #[trigger] first_match(re, hay, from) {
            Some((s, _)) => k <= s ==> #[trigger] first_match(re, hay, k) == first_match(
                re,
                hay,
                from,
            ),
            None => first_match(re, hay, k) is None,
        }
}

/// Whether a match starts at position `k`.
pub open spec fn starts_at(re: Regex, data: Seq<u8>, k: int) -> bool {
    &&& 0 <= k <= data.len()
    &&& match first_match(re, data, k) {
        Some((s, _)) => s == k,
        None => false,
    }
}

/// Whether position `k` belongs to a line: the end of a text whose last line is
/// ended by a newline does not.
pub open spec fn on_a_line(data: Seq<u8>, k: int) -> bool {
    0 <= k < data.len() || (k == data.len() && k > 0 && data.last() != 10)
}

/// Whether everything that `re` finds is a match of `p`.
pub open spec fn finds_only(re: Regex, p: Pattern) -> bool {
    forall|hay: Seq<u8>, from: int|
        0 <= from <= hay.len() ==> match #[trigger] first_match(re, hay, from) {
            Some((s, e)) => p.matches(hay.subrange(s, e)),
            None => true,
        }
}

/// Where the line that holds position `at` starts.
pub open spec fn line_start(data: Seq<u8>, at: int) -> int
    decreases at,
{
    if at <= 0 || data[at - 1] == NEWLINE {
        at
    } else {
        line_start(data, at - 1)
    }
}

/// Where the line that holds position `at` ends, without its newline.
pub open spec fn line_end(data: Seq<u8>, at: int) -> int
    decreases data.len() - at,
{
    if at >= data.len() || data[at] == NEWLINE {
        at
    } else {
        line_end(data, at + 1)
    }
}

/// How many newlines there are.
pub open spec fn newlines(s: Seq<u8>) -> nat
    decreases s.len(),
{
    if s.len() == 0 {
        0
    } else {
        newlines(s.drop_last()) + if s.last() == NEWLINE {
            1nat
        } else {
            0
        }
    }
}

/// Whether no line starts at the end of the text: it is empty, or its last
/// line is ended by a newline.
pub open spec fn complete(data: Seq<u8>) -> bool {
    data.len() == 0 || data.last() == NEWLINE
}

/// The lines with a match that starts at `pos` or later: for each, where it
/// starts and where it ends. A line is taken once; a match over several lines
/// takes them together. After a final newline there is no line.
pub open spec fn hits(re: Regex, data: Seq<u8>, pos: int) -> Seq<(int, int)>
    decreases data.len() - pos,
{
    if pos >= data.len() {
        seq![]
    } else {
        match first_match(re, data, pos) {
            Some((s, e)) => {
                let end = line_end(data, e);
                if (complete(data) && s >= data.len()) || end < pos {
                    seq![]
                } else {
                    seq![(line_start(data, s), end)] + (if end < data.len() {
                        hits(re, data, end + 1)
                    } else {
                        seq![]
                    })
                }
            },
            None => seq![],
        }
    }
}

/// How matches are reported.
#[derive(Debug)]
pub struct Grep {
    pub re: Regex,
    /// Print only a count of matching lines per file.
    pub count: bool,
    /// Print only the names of matching files.
    pub list: bool,
    /// Print file names.
    pub names: bool,
    /// Print line numbers.
    pub line_numbers: bool,
}

impl Grep {
    /// What precedes a line, or a count.
    pub open spec fn label(&self, name: Seq<u8>) -> Seq<u8> {
        if self.names {
            name.push(58)
        } else {
            seq![]
        }
    }

    /// A hit as it is printed.
    pub open spec fn printed(&self, name: Seq<u8>, data: Seq<u8>, hit: (int, int)) -> Seq<u8> {
        self.label(name) + (if self.line_numbers {
            encode_utf8(decimal(1 + newlines(data.take(hit.0)))).push(58)
        } else {
            seq![]
        }) + data.subrange(hit.0, hit.1).push(NEWLINE)
    }

    /// Hits as they are printed, one after the other.
    pub open spec fn printed_all(
        &self,
        name: Seq<u8>,
        data: Seq<u8>,
        found: Seq<(int, int)>,
    ) -> Seq<u8>
        decreases found.len(),
    {
        if found.len() == 0 {
            seq![]
        } else {
            self.printed_all(name, data, found.drop_last()) + self.printed(name, data, found.last())
        }
    }

    /// What is printed for a file, and how many hits are counted.
    pub open spec fn report(&self, name: Seq<u8>, data: Seq<u8>) -> (Seq<u8>, nat) {
        let found = hits(self.re, data, 0);
        if self.list {
            if found.len() > 0 {
                (name.push(NEWLINE), 1)
            } else {
                (seq![], 0)
            }
        } else if self.count {
            if found.len() > 0 {
                (
                    self.label(name) + encode_utf8(decimal(found.len())).push(NEWLINE),
                    found.len(),
                )
            } else {
                (seq![], 0)
            }
        } else {
            (self.printed_all(name, data, found), found.len())
        }
    }
}

proof fn lemma_line_start(data: Seq<u8>, at: int, i: int)
    requires
        0 <= i <= at <= data.len(),
        i > 0 ==> data[i - 1] == NEWLINE,
        forall|j: int| i <= j < at ==> data[j] != NEWLINE,
    ensures
        line_start(data, at) == i,
    decreases at - i,
{
    if at > i {
        lemma_line_start(data, at - 1, i);
    }
}

proof fn lemma_line_end(data: Seq<u8>, at: int, i: int)
    requires
        0 <= at <= i <= data.len(),
        i < data.len() ==> data[i] == NEWLINE,
        forall|j: int| at <= j < i ==> data[j] != NEWLINE,
    ensures
        line_end(data, at) == i,
    decreases i - at,
{
    if at < i {
        lemma_line_end(data, at + 1, i);
    }
}

proof fn lemma_newlines_bound(s: Seq<u8>)
    ensures
        newlines(s) <= s.len(),
    decreases s.len(),
{
    if s.len() > 0 {
        lemma_newlines_bound(s.drop_last());
    }
}

proof fn lemma_newlines_split(s: Seq<u8>, i: int)
    requires
        0 <= i <= s.len(),
    ensures
        newlines(s) == newlines(s.take(i)) + newlines(s.skip(i)),
    decreases s.len() - i,
{
    if i == s.len() {
        assert(s.take(i) =~= s);
    } else {
        lemma_newlines_split(s.drop_last(), i);
        assert(s.drop_last().take(i) =~= s.take(i));
        assert(s.skip(i).drop_last() =~= s.drop_last().skip(i));
    }
}

/// All positions of newlines are as many as there are newlines.
proof fn lemma_positions(s: Seq<u8>, r: Seq<usize>)
    requires
        s.len() <= usize::MAX,
        forall|a: int, b: int| 0 <= a < b < r.len() ==> r[a] < r[b],
        forall|a: int| 0 <= a < r.len() ==> r[a] < s.len(),
        forall|a: int| 0 <= a < r.len() ==> s[#[trigger] r[a] as int] == NEWLINE,
        forall|j: int|
            0 <= j < s.len() && #[trigger] s[j] == NEWLINE ==> r.contains(j as usize),
    ensures
        r.len() == newlines(s),
    decreases s.len(),
{
    if s.len() == 0 {
        if r.len() > 0 {
            assert(r[0] < s.len());
        }
    } else {
        let short = s.drop_last();
        let n = (s.len() - 1) as usize;
        let q = if s.last() == NEWLINE { r.drop_last() } else { r };
        if s.last() == NEWLINE {
            assert(s[n as int] == NEWLINE);
            let k = choose|k: int| 0 <= k < r.len() && r[k] == n;
            if k < r.len() - 1 {
                assert(r[k] < r[r.len() - 1]);
            }
            assert(r.last() == n);
        }
        assert forall|a: int| 0 <= a < q.len() implies q[a] < short.len() by {
            assert(q[a] == r[a]);
            if s.last() == NEWLINE {
                assert(r[a] < r[r.len() - 1]);
            } else if r[a] == n {
                assert(s[r[a] as int] == NEWLINE);
            }
        }
        assert forall|a: int| 0 <= a < q.len() implies short[#[trigger] q[a] as int] == NEWLINE by {
            assert(q[a] == r[a]);
            assert(s[r[a] as int] == NEWLINE);
        }
        assert forall|j: int| 0 <= j < short.len() && #[trigger] short[j] == NEWLINE implies q.contains(
            j as usize,
        ) by {
            assert(s[j] == NEWLINE);
            let k = choose|k: int| 0 <= k < r.len() && r[k] == j as usize;
            assert(q[k] == j as usize);
        }
        lemma_positions(short, q);
    }
}

/// How many newlines there are.
fn count_newlines(s: &[u8]) -> (n: usize)
    ensures
        n == newlines(s@),
{
    let r = positions(NEWLINE, s);
    proof {
        assert(s.len() == s@.len());
        lemma_positions(s@, r@);
    }
    r.len()
}

/// How many newlines stand from `from` to `to`.
fn newlines_between(data: &[u8], from: usize, to: usize) -> (n: usize)
    requires
        from <= to < data@.len(),
    ensures
        n == newlines(data@.take(to as int)) - newlines(data@.take(from as int)),
        newlines(data@.take(to as int)) <= to,
{
    proof {
        let upto = data@.take(to as int);
        lemma_newlines_split(upto, from as int);
        assert(upto.take(from as int) =~= data@.take(from as int));
        assert(upto.skip(from as int) =~= data@.subrange(from as int, to as int));
        lemma_newlines_bound(upto);
    }
    count_newlines(&data[from..to])
}

/// Where the line that holds `s` starts and the line that holds `e` ends. The
/// start is no earlier than that of a line before.
fn lines_of(data: &[u8], s: usize, e: usize, pos: usize) -> (r: (usize, usize))
    requires
        pos <= s <= e <= data@.len(),
        pos > 0 ==> data@[pos - 1] == NEWLINE,
    ensures
        r.0 == line_start(data@, s as int),
        r.1 == line_end(data@, e as int),
        pos <= r.0 <= s,
        r.0 > 0 ==> data@[r.0 - 1] == NEWLINE,
        e <= r.1 <= data@.len(),
        r.1 < data@.len() ==> data@[r.1 as int] == NEWLINE,
{
    let ghost d = data@;
    let len: usize = data.len();
    let start: usize = match memchr::memrchr(NEWLINE, &data[0..s]) {
        Some(i) => i + 1,
        None => 0,
    };
    let end: usize = match memchr::memchr(NEWLINE, &data[e..len]) {
        Some(i) => e + i,
        None => len,
    };
    proof {
        let before = d.subrange(0, s as int);
        let after = d.subrange(e as int, len as int);
        assert forall|j: int| start <= j < s implies d[j] != NEWLINE by {
            assert(before[j] == d[j]);
        }
        assert(start > 0 ==> before[start - 1] == NEWLINE);
        if pos > 0 {
            assert(before[pos - 1] == NEWLINE);
        }
        lemma_line_start(d, s as int, start as int);
        assert forall|j: int| e <= j < end implies d[j] != NEWLINE by {
            assert(after[j - e] == d[j]);
        }
        assert(end < len ==> after[end - e] == NEWLINE);
        lemma_line_end(d, e as int, end as int);
    }
    (start, end)
}

proof fn lemma_printed_push(
    g: Grep,
    name: Seq<u8>,
    data: Seq<u8>,
    found: Seq<(int, int)>,
    hit: (int, int),
)
    ensures
        g.printed_all(name, data, found.push(hit)) == g.printed_all(name, data, found) + g.printed(
            name,
            data,
            hit,
        ),
{
    assert(found.push(hit).drop_last() =~= found);
}

impl Grep {
    /// A search for a pattern, or what is wrong with the pattern.
    pub fn new(
        pattern: &str,
        case_insensitive: bool,
        count: bool,
        list: bool,
        names: bool,
        line_numbers: bool,
    ) -> (r: Result<Grep, String>)
        ensures
            match r {
                Ok(g) => refusal(pattern@, case_insensitive) is None && is_made_of(
                    g.re,
                    pattern@,
                    case_insensitive,
                ) && stays_inside(g.re) && is_leftmost(g.re) && (parsed(
                    pattern@,
                    case_insensitive,
                ) matches Ok(p) ==> finds_only(g.re, p)) && g == (Grep {
                    re: g.re,
                    count,
                    list,
                    names,
                    line_numbers,
                }),
                Err(e) => refusal(pattern@, case_insensitive) == Some(e@),
            },
    {
        match compile(pattern, case_insensitive) {
            Ok(re) => Ok(Grep { re, count, list, names, line_numbers }),
            Err(e) => Err(e),
        }
    }

    /// Append the label of a file.
    fn write_label(&self, out: &mut Vec<u8>, name: &str)
        ensures
            final(out)@ == old(out)@ + self.label(encode_utf8(name@)),
    {
        if self.names {
            out.extend_from_slice(name.as_bytes());
            out.push(58);
        }
        assert(out@ =~= old(out)@ + self.label(encode_utf8(name@)));
    }

    /// Append a hit: the lines from `start` to `end`, the first of which has
    /// number `line_no`.
    fn write_hit(
        &self,
        out: &mut Vec<u8>,
        name: &str,
        data: &[u8],
        start: usize,
        end: usize,
        line_no: usize,
    )
        requires
            start <= end <= data@.len(),
            self.line_numbers ==> line_no == 1 + newlines(data@.take(start as int)),
        ensures
            final(out)@ == old(out)@ + self.printed(
                encode_utf8(name@),
                data@,
                (start as int, end as int),
            ),
    {
        self.write_label(out, name);
        if self.line_numbers {
            let digits = decimal_bytes(line_no as u64);
            out.extend_from_slice(&digits);
            out.push(58);
        }
        out.extend_from_slice(&data[start..end]);
        out.push(NEWLINE);
        assert(out@ =~= old(out)@ + self.printed(
            encode_utf8(name@),
            data@,
            (start as int, end as int),
        ));
    }

    /// Grep an in-memory file. At most one hit is counted per line, like
    /// `grep -c`, and the output is formatted per the flags.
    pub fn grep_bytes(&self, name: &str, data: &[u8]) -> (r: (Vec<u8>, usize))
        ensures
            (r.0@, r.1 as nat) == self.report(encode_utf8(name@), data@),
            r.1 > 0 <==> exists|k: int|
                #[trigger] starts_at(self.re, data@, k) && on_a_line(data@, k),
    {
        let ghost nm = encode_utf8(name@);
        let ghost d = data@;
        let ghost all = hits(self.re, d, 0);
        let ghost mut found: Seq<(int, int)> = seq![];
        let len: usize = data.len();
        let mut out: Vec<u8> = Vec::new();
        let mut matches: usize = 0;
        let mut pos: usize = 0;
        let mut line_no: usize = 1;
        let mut line_counted_to: usize = 0;
        // A file that is empty or ends in a newline has no line after that
        // final newline, but an empty match is still found there for patterns
        // like `$`, `^$` or `x*`. Such a match belongs to a line that does not
        // exist; grep never reports it, so neither do we.
        let no_line_at_end = len == 0 || data[len - 1] == NEWLINE;
        proof {
            assert(found + all =~= all);
            assert(d.take(0) =~= seq![]);
        }
        while pos < len
            invariant_except_break
                found + hits(self.re, d, pos as int) == all,
                matches <= pos <= len,
                pos > 0 ==> d[pos - 1] == NEWLINE,
                self.list ==> found.len() == 0,
                found.len() == 0 ==> pos == 0,
                line_counted_to <= pos,
                line_no == 1 + newlines(d.take(line_counted_to as int)),
            invariant
                d == data@,
                len == d.len(),
                nm == encode_utf8(name@),
                no_line_at_end == complete(d),
                matches == found.len(),
                !self.list && !self.count ==> out@ == self.printed_all(nm, d, found),
                self.list || self.count ==> out@.len() == 0,
                found.len() > 0 ==> exists|k: int| #[trigger]
                    starts_at(self.re, d, k) && on_a_line(d, k),
            ensures
                found.len() == 0 ==> forall|k: int|
                    !(#[trigger] starts_at(self.re, d, k) && on_a_line(d, k)),
                !self.list ==> found == all,
                self.list ==> (found.len() > 0 <==> all.len() > 0) && found.len() <= 1,
            decreases len - pos,
        {
            let ghost here = hits(self.re, d, pos as int);
            let (s, e): (usize, usize) = match find_at(&self.re, data, pos) {
                Some(m) => m,
                None => {
                    assert(found + here =~= found);
                    break;
                },
            };
            if no_line_at_end && s >= len {
                assert(found + here =~= found);
                break;
            }
            let (start, end): (usize, usize) = lines_of(data, s, e, pos);
            assert(start < len);
            assert(starts_at(self.re, d, s as int) && on_a_line(d, s as int));
            matches = matches + 1;
            let ghost hit = (start as int, end as int);
            let ghost rest = if end < len { hits(self.re, d, end + 1) } else { seq![] };
            let ghost before = found;
            proof {
                assert(here == seq![hit] + rest);
                assert(before + (seq![hit] + rest) =~= before.push(hit) + rest);
                found = before.push(hit);
            }
            if self.list {
                break;
            }
            if !self.count {
                if self.line_numbers {
                    line_no = line_no + newlines_between(data, line_counted_to, start);
                    line_counted_to = start;
                }
                self.write_hit(&mut out, name, data, start, end, line_no);
                proof {
                    lemma_printed_push(*self, nm, d, before, hit);
                }
            }
            if end >= len {
                assert(found + rest =~= found);
                break;
            }
            pos = end + 1;
        }
        if matches > 0 {
            if self.list {
                out.extend_from_slice(name.as_bytes());
                out.push(NEWLINE);
                assert(out@ =~= nm.push(NEWLINE));
            } else if self.count {
                self.write_label(&mut out, name);
                let digits = decimal_bytes(matches as u64);
                out.extend_from_slice(&digits);
                out.push(NEWLINE);
                assert(out@ =~= self.label(nm) + encode_utf8(decimal(all.len())).push(NEWLINE));
            }
        } else {
            assert(out@ =~= seq![]);
        }
        (out, matches)
    }
}

proof fn lemma_line_start_bounds(data: Seq<u8>, at: int, pos: int)
    requires
        0 <= pos <= at <= data.len(),
        pos > 0 ==> data[pos - 1] == NEWLINE,
    ensures
        pos <= line_start(data, at) <= at,
    decreases at - pos,
{
    if at > pos && data[at - 1] != NEWLINE {
        lemma_line_start_bounds(data, at - 1, pos);
    }
}

proof fn lemma_line_end_bounds(data: Seq<u8>, at: int)
    requires
        0 <= at <= data.len(),
    ensures
        at <= line_end(data, at) <= data.len(),
        line_end(data, at) < data.len() ==> data[line_end(data, at)] == NEWLINE,
    decreases data.len() - at,
{
    if at < data.len() && data[at] != NEWLINE {
        lemma_line_end_bounds(data, at + 1);
    }
}

/// At most one hit per line: every hit ends before the next one starts, and
/// all lie inside the text.
pub proof fn law_one_hit_per_line(re: Regex, data: Seq<u8>, pos: int)
    requires
        stays_inside(re),
        0 <= pos <= data.len(),
        pos > 0 ==> data[pos - 1] == NEWLINE,
    ensures
        forall|i: int|
            0 <= i < hits(re, data, pos).len() ==> pos <= (#[trigger] hits(re, data, pos)[i]).0
                <= hits(re, data, pos)[i].1 <= data.len(),
        forall|i: int, j: int|
            0 <= i < j < hits(re, data, pos).len() ==> (#[trigger] hits(re, data, pos)[i]).1 < (
            #[trigger] hits(re, data, pos)[j]).0,
    decreases data.len() - pos,
{
    let all = hits(re, data, pos);
    if all.len() > 0 {
        let (s, e) = first_match(re, data, pos).unwrap();
        lemma_line_start_bounds(data, s, pos);
        lemma_line_end_bounds(data, e);
        let end = line_end(data, e);
        if end < data.len() {
            law_one_hit_per_line(re, data, end + 1);
            let rest = hits(re, data, end + 1);
            assert forall|i: int| 1 <= i < all.len() implies #[trigger] all[i] == rest[i - 1] by {}
        }
    }
}

/// No phantom line: every hit starts before the end of the text, so none is
/// reported for the line that does not follow a final newline.
pub proof fn law_no_phantom_line(re: Regex, data: Seq<u8>, pos: int)
    requires
        stays_inside(re),
        0 <= pos <= data.len(),
        pos > 0 ==> data[pos - 1] == NEWLINE,
    ensures
        forall|i: int|
            0 <= i < hits(re, data, pos).len() ==> (#[trigger] hits(re, data, pos)[i]).0
                < data.len(),
    decreases data.len() - pos,
{
    let all = hits(re, data, pos);
    if all.len() > 0 {
        let (s, e) = first_match(re, data, pos).unwrap();
        lemma_line_start_bounds(data, s, pos);
        lemma_line_end_bounds(data, e);
        let end = line_end(data, e);
        if s == data.len() {
            assert(data.last() != NEWLINE);
            lemma_line_start_bounds(data, s - 1, pos);
        }
        if end < data.len() {
            law_no_phantom_line(re, data, end + 1);
            let rest = hits(re, data, end + 1);
            assert forall|i: int| 1 <= i < all.len() implies #[trigger] all[i] == rest[i - 1] by {}
        }
    }
}

/// Whether position `k` lies in one of the hits.
pub open spec fn is_reported(found: Seq<(int, int)>, k: int) -> bool {
    exists|i: int| 0 <= i < found.len() && (#[trigger] found[i]).0 <= k <= found[i].1
}

/// Whether no newline stands between two positions.
pub open spec fn same_line(data: Seq<u8>, a: int, b: int) -> bool {
    0 <= a <= b <= data.len() && forall|j: int| a <= j < b ==> data[j] != 10
}

/// Whether a match starts in the line that starts at `start`.
pub open spec fn match_starts_in_line(re: Regex, data: Seq<u8>, start: int) -> bool {
    exists|k: int| #[trigger]
        starts_at(re, data, k) && on_a_line(data, k) && same_line(data, start, k)
}

/// Lines are reported where matches start: every position of a line where a
/// match starts lies in a hit, and in the first line of every hit a match
/// starts. (The further lines of a hit are those that the match goes on over.)
pub proof fn law_reported_where_matches_start(re: Regex, data: Seq<u8>)
    requires
        stays_inside(re),
        is_leftmost(re),
    ensures
        forall|k: int| #[trigger]
            starts_at(re, data, k) && on_a_line(data, k) ==> is_reported(hits(re, data, 0), k),
        forall|i: int|
            0 <= i < hits(re, data, 0).len() ==> match_starts_in_line(
                re,
                data,
                (#[trigger] hits(re, data, 0)[i]).0,
            ),
{
    assert forall|k: int| #[trigger]
        starts_at(re, data, k) && on_a_line(data, k) implies is_reported(hits(re, data, 0), k) by {
        let i = lemma_start_is_hit(re, data, 0, k);
        assert(hits(re, data, 0)[i].0 <= k);
    }
    assert forall|i: int| 0 <= i < hits(re, data, 0).len() implies match_starts_in_line(
        re,
        data,
        (#[trigger] hits(re, data, 0)[i]).0,
    ) by {
        let k = lemma_hit_has_start(re, data, 0, i);
        assert(starts_at(re, data, k));
        law_one_hit_per_line(re, data, 0);
        lemma_no_newline_after(data, hits(re, data, 0)[i].0);
        assert(same_line(data, hits(re, data, 0)[i].0, k));
    }
}

/// The hit that holds a position where a match starts.
proof fn lemma_start_is_hit(re: Regex, data: Seq<u8>, pos: int, k: int) -> (i: int)
    requires
        stays_inside(re),
        is_leftmost(re),
        0 <= pos <= k,
        pos > 0 ==> data[pos - 1] == NEWLINE,
        starts_at(re, data, k),
        on_a_line(data, k),
    ensures
        0 <= i < hits(re, data, pos).len(),
        hits(re, data, pos)[i].0 <= k <= hits(re, data, pos)[i].1,
    decreases data.len() - pos,
{
    assert(pos < data.len());
    let (s, e) = first_match(re, data, pos).unwrap();
    assert(first_match(re, data, k) is Some);
    assert(s <= k);
    lemma_line_start_bounds(data, s, pos);
    lemma_line_end_bounds(data, e);
    let end = line_end(data, e);
    if k <= end {
        0
    } else {
        let i = lemma_start_is_hit(re, data, end + 1, k);
        assert(hits(re, data, pos)[i + 1] == hits(re, data, end + 1)[i]);
        i + 1
    }
}

/// Where, in the first line of a hit, a match starts.
proof fn lemma_hit_has_start(re: Regex, data: Seq<u8>, pos: int, i: int) -> (k: int)
    requires
        stays_inside(re),
        is_leftmost(re),
        0 <= pos <= data.len(),
        pos > 0 ==> data[pos - 1] == NEWLINE,
        0 <= i < hits(re, data, pos).len(),
    ensures
        starts_at(re, data, k),
        on_a_line(data, k),
        hits(re, data, pos)[i].0 <= k <= line_end(data, hits(re, data, pos)[i].0),
    decreases data.len() - pos,
{
    let (s, e) = first_match(re, data, pos).unwrap();
    lemma_line_start_bounds(data, s, pos);
    lemma_line_end_bounds(data, e);
    let end = line_end(data, e);
    if i == 0 {
        assert(first_match(re, data, s) == first_match(re, data, pos));
        lemma_within_line(data, s);
        s
    } else {
        assert(hits(re, data, pos)[i] == hits(re, data, end + 1)[i - 1]);
        lemma_hit_has_start(re, data, end + 1, i - 1)
    }
}

/// A position lies before the end of the line that it is on.
proof fn lemma_within_line(data: Seq<u8>, at: int)
    requires
        0 <= at <= data.len(),
    ensures
        line_start(data, at) <= at <= line_end(data, line_start(data, at)),
        line_end(data, line_start(data, at)) == line_end(data, at),
    decreases at,
{
    lemma_line_end_bounds(data, at);
    if at > 0 && data[at - 1] != NEWLINE {
        lemma_within_line(data, at - 1);
    }
}

/// Whether a hit, from `start` to `end`, is the lines of a match: it starts
/// with the line in which the match starts and ends with the one in which the
/// match ends, without its newline.
pub open spec fn is_lines_of_match(
    re: Regex,
    data: Seq<u8>,
    start: int,
    end: int,
    from: int,
) -> bool {
    &&& 0 <= from <= data.len()
    &&& match first_match(re, data, from) {
        Some((s, e)) => {
            &&& 0 <= start <= s <= e <= end <= data.len()
            &&& start == 0 || data[start - 1] == 10
            &&& end == data.len() || data[end] == 10
            &&& forall|j: int| start <= j < s ==> data[j] != 10
            &&& forall|j: int| e <= j < end ==> data[j] != 10
        },
        None => false,
    }
}

/// What is printed of a hit is whole lines, those of a match and no others.
pub proof fn law_hits_are_lines(re: Regex, data: Seq<u8>, i: int)
    requires
        stays_inside(re),
        0 <= i < hits(re, data, 0).len(),
    ensures
        exists|from: int| #[trigger]
            is_lines_of_match(re, data, hits(re, data, 0)[i].0, hits(re, data, 0)[i].1, from),
{
    let from = lemma_hit_lines(re, data, 0, i);
    assert(is_lines_of_match(re, data, hits(re, data, 0)[i].0, hits(re, data, 0)[i].1, from));
}

proof fn lemma_no_newline_before(data: Seq<u8>, at: int)
    requires
        0 <= at <= data.len(),
    ensures
        0 <= line_start(data, at) <= at,
        line_start(data, at) == 0 || data[line_start(data, at) - 1] == 10,
        forall|j: int| line_start(data, at) <= j < at ==> data[j] != 10,
    decreases at,
{
    if at > 0 && data[at - 1] != NEWLINE {
        lemma_no_newline_before(data, at - 1);
    }
}

proof fn lemma_no_newline_after(data: Seq<u8>, at: int)
    requires
        0 <= at <= data.len(),
    ensures
        at <= line_end(data, at) <= data.len(),
        line_end(data, at) == data.len() || data[line_end(data, at)] == 10,
        forall|j: int| at <= j < line_end(data, at) ==> data[j] != 10,
    decreases data.len() - at,
{
    if at < data.len() && data[at] != NEWLINE {
        lemma_no_newline_after(data, at + 1);
    }
}

proof fn lemma_hit_lines(re: Regex, data: Seq<u8>, pos: int, i: int) -> (from: int)
    requires
        stays_inside(re),
        0 <= pos <= data.len(),
        0 <= i < hits(re, data, pos).len(),
    ensures
        is_lines_of_match(re, data, hits(re, data, pos)[i].0, hits(re, data, pos)[i].1, from),
    decreases data.len() - pos,
{
    let (s, e) = first_match(re, data, pos).unwrap();
    let end = line_end(data, e);
    lemma_no_newline_before(data, s);
    lemma_no_newline_after(data, e);
    if i == 0 {
        pos
    } else {
        assert(hits(re, data, pos)[i] == hits(re, data, end + 1)[i - 1]);
        lemma_hit_lines(re, data, end + 1, i - 1)
    }
}

/// The number of newlines is the number of times that the byte 10 occurs.
proof fn lemma_newlines_counted(s: Seq<u8>)
    ensures
        newlines(s) == s.to_multiset().count(10),
    decreases s.len(),
{
    broadcast use group_to_multiset_ensures;

    if s.len() > 0 {
        lemma_newlines_counted(s.drop_last());
        assert(s =~= s.drop_last().push(s.last()));
    }
}

/// What stands in front of the lines of a hit: the name of the file and a
/// colon, if names are asked for; and the number of the first line, counted
/// from 1, and a colon, if line numbers are.
pub open spec fn heading(g: Grep, name: Seq<u8>, data: Seq<u8>, start: int) -> Seq<u8> {
    let number = encode_utf8(decimal(1 + data.take(start).to_multiset().count(10)));
    if g.names && g.line_numbers {
        name + seq![58u8] + number + seq![58u8]
    } else if g.names {
        name + seq![58u8]
    } else if g.line_numbers {
        number + seq![58u8]
    } else {
        seq![]
    }
}

/// Without `-l` and `-c` every hit is printed once, in order, with nothing
/// between: its heading, its lines, and a newline.
pub proof fn law_every_hit_is_printed(g: Grep, name: Seq<u8>, data: Seq<u8>)
    requires
        !g.list,
        !g.count,
    ensures
        g.report(name, data).1 == hits(g.re, data, 0).len(),
        g.report(name, data).0 == hits(g.re, data, 0).map_values(
            |hit: (int, int)|
                heading(g, name, data, hit.0) + data.subrange(hit.0, hit.1) + seq![10u8],
        ).flatten(),
{
    lemma_printed_all(g, name, data, hits(g.re, data, 0));
}

proof fn lemma_printed_all(g: Grep, name: Seq<u8>, data: Seq<u8>, found: Seq<(int, int)>)
    ensures
        g.printed_all(name, data, found) == found.map_values(
            |hit: (int, int)|
                heading(g, name, data, hit.0) + data.subrange(hit.0, hit.1) + seq![10u8],
        ).flatten(),
    decreases found.len(),
{
    let one = |hit: (int, int)|
        heading(g, name, data, hit.0) + data.subrange(hit.0, hit.1) + seq![10u8];
    let all = found.map_values(one);
    if found.len() == 0 {
        assert(all.flatten() =~= seq![]);
    } else {
        let short = found.drop_last();
        let hit = found.last();
        lemma_printed_all(g, name, data, short);
        lemma_newlines_counted(data.take(hit.0));
        assert(all =~= short.map_values(one).push(one(hit)));
        short.map_values(one).lemma_flatten_push(one(hit));
        assert(g.printed(name, data, hit) =~= one(hit));
    }
}

/// With `-l` only the name of a file with a hit is printed, on a line of its
/// own, and it counts once, whatever the other flags.
pub proof fn law_list_prints_names(g: Grep, name: Seq<u8>, data: Seq<u8>)
    requires
        g.list,
    ensures
        hits(g.re, data, 0).len() == 0 ==> g.report(name, data) == (Seq::<u8>::empty(), 0nat),
        hits(g.re, data, 0).len() > 0 ==> g.report(name, data) == (name + seq![10u8], 1nat),
{
    assert(name.push(NEWLINE) =~= name + seq![10u8]);
}

/// With `-c` only the number of hits is printed, on a line of its own, after
/// the name of the file and a colon if names are asked for; nothing for a file
/// without a hit.
pub proof fn law_count_prints_numbers(g: Grep, name: Seq<u8>, data: Seq<u8>)
    requires
        !g.list,
        g.count,
    ensures
        g.report(name, data).1 == hits(g.re, data, 0).len(),
        hits(g.re, data, 0).len() == 0 ==> g.report(name, data).0.len() == 0,
        hits(g.re, data, 0).len() > 0 && g.names ==> g.report(name, data).0 == name + seq![58u8]
            + encode_utf8(decimal(hits(g.re, data, 0).len())) + seq![10u8],
        hits(g.re, data, 0).len() > 0 && !g.names ==> g.report(name, data).0 == encode_utf8(
            decimal(hits(g.re, data, 0).len()),
        ) + seq![10u8],
{
    let n = encode_utf8(decimal(hits(g.re, data, 0).len()));
    if g.names {
        assert(g.label(name) + n.push(NEWLINE) =~= name + seq![58u8] + n + seq![10u8]);
    } else {
        assert(g.label(name) + n.push(NEWLINE) =~= n + seq![10u8]);
    }
}

/// With file names, what is printed of a file with one hit is what is printed
/// without, after the name and a colon, whether lines are numbered or not.
pub proof fn law_names_go_first(g: Grep, h: Grep, name: Seq<u8>, data: Seq<u8>)
    requires
        !g.list,
        g.names,
        h == (Grep { names: false, ..g }),
        hits(g.re, data, 0).len() == 1,
    ensures
        g.report(name, data).0 == name + seq![58u8] + h.report(name, data).0,
        g.report(name, data).1 == h.report(name, data).1,
{
    let found = hits(g.re, data, 0);
    assert(found.drop_last() =~= seq![]);
    assert(g.printed_all(name, data, found.drop_last()) =~= seq![]);
    assert(h.printed_all(name, data, found.drop_last()) =~= seq![]);
    assert(g.report(name, data).0 =~= name + seq![58u8] + h.report(name, data).0);
}

} // verus!

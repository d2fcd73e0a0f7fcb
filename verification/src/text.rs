//! Text: characters, UTF-8 and decimal numbers.

use vstd::prelude::*;
use vstd::utf8::{
    char_is_scalar, encode_scalar, encode_utf8, encode_utf8_decode_utf8, encode_utf8_valid_utf8,
    is_ascii_chars, is_ascii_chars_encode_utf8, is_scalar,
};

use crate::trigram::utf8;

verus! {

/// The decimal digits of a number.
pub open spec fn decimal(n: nat) -> Seq<char>
    decreases n,
{
    if n < 10 {
        seq![(48 + n) as u8 as char]
    } else {
        decimal(n / 10).push((48 + n % 10) as u8 as char)
    }
}

/// Digits are ASCII, and there is at least one.
pub proof fn lemma_decimal_ascii(n: nat)
    ensures
        is_ascii_chars(decimal(n)),
        decimal(n).len() > 0,
        forall|i: int| 0 <= i < decimal(n).len() ==> '0' <= #[trigger] decimal(n)[i] <= '9',
    decreases n,
{
    if n >= 10 {
        lemma_decimal_ascii(n / 10);
    }
}

/// The decimal digits of a number, as bytes.
pub fn decimal_bytes(n: u64) -> (r: Vec<u8>)
    ensures
        r@ == encode_utf8(decimal(n as nat)),
    decreases n,
{
    proof {
        lemma_decimal_ascii(n as nat);
        is_ascii_chars_encode_utf8(decimal(n as nat));
        if n >= 10 {
            lemma_decimal_ascii((n / 10) as nat);
            is_ascii_chars_encode_utf8(decimal((n / 10) as nat));
        }
    }
    let mut r: Vec<u8> = if n < 10 { Vec::new() } else { decimal_bytes(n / 10) };
    r.push((48 + n % 10) as u8);
    proof {
        let d = decimal(n as nat);
        assert forall|i: int| 0 <= i < d.len() implies r@[i] == encode_utf8(d)[i] by {
            assert(d[i] as u8 == encode_utf8(d)[i]);
            if n >= 10 && i < d.len() - 1 {
                let e = decimal((n / 10) as nat);
                assert(e[i] as u8 == encode_utf8(e)[i]);
            }
        }
        assert(r@ =~= encode_utf8(d));
    }
    r
}

/// Text that is known to be UTF-8.
pub(crate) fn text_of(bytes: &[u8], Ghost(chars): Ghost<Seq<char>>) -> (r: String)
    requires
        bytes@ == encode_utf8(chars),
    ensures
        r@ == chars,
{
    proof {
        encode_utf8_valid_utf8(chars);
    }
    match utf8(bytes) {
        Some(s) => {
            proof {
                encode_utf8_decode_utf8(chars);
                encode_utf8_decode_utf8(s@);
            }
            s.to_owned()
        },
        None => String::new(),
    }
}

/// The decimal digits of a number, as text.
pub fn decimal_text(n: u64) -> (r: String)
    ensures
        r@ == decimal(n as nat),
{
    text_of(&decimal_bytes(n), Ghost(decimal(n as nat)))
}

/// The UTF-8 encoding of a scalar value.
pub fn encode(cp: u32) -> (r: Vec<u8>)
    requires
        is_scalar(cp),
    ensures
        r@ == encode_scalar(cp),
{
    let mut r: Vec<u8> = Vec::new();
    if cp <= 0x7F {
        r.push((cp & 0x7F) as u8);
    } else if cp <= 0x7FF {
        r.push(0xC0 | ((cp >> 6) & 0x1F) as u8);
        r.push(0x80 | (cp & 0x3F) as u8);
    } else if cp <= 0xFFFF {
        r.push(0xE0 | ((cp >> 12) & 0x0F) as u8);
        r.push(0x80 | ((cp >> 6) & 0x3F) as u8);
        r.push(0x80 | (cp & 0x3F) as u8);
    } else {
        r.push(0xF0 | ((cp >> 18) & 0x7) as u8);
        r.push(0x80 | ((cp >> 12) & 0x3F) as u8);
        r.push(0x80 | ((cp >> 6) & 0x3F) as u8);
        r.push(0x80 | (cp & 0x3F) as u8);
    }
    assert(r@ =~= encode_scalar(cp));
    r
}

pub proof fn lemma_encode_concat(a: Seq<char>, b: Seq<char>)
    ensures
        encode_utf8(a + b) == encode_utf8(a) + encode_utf8(b),
    decreases a.len(),
{
    if a.len() == 0 {
        assert(a + b =~= b);
        assert(encode_utf8(a) + encode_utf8(b) =~= encode_utf8(b));
    } else {
        lemma_encode_concat(a.drop_first(), b);
        assert((a + b).drop_first() =~= a.drop_first() + b);
        assert(encode_utf8(a + b) =~= encode_utf8(a) + encode_utf8(b));
    }
}

/// The characters of a text.
pub fn to_chars(s: &str) -> (r: Vec<char>)
    ensures
        r@ == s@,
{
    broadcast use vstd::string::axiom_spec_iter;

    let mut r: Vec<char> = Vec::new();
    for c in it: s.chars()
        invariant
            it.seq() == s@,
            r@ == s@.take(it.index()),
    {
        assert(s@.take(it.index() + 1) =~= s@.take(it.index()).push(c));
        r.push(c);
    }
    assert(s@.take(s@.len() as int) =~= s@);
    r
}

/// The text of characters.
pub fn from_chars(s: &[char]) -> (r: String)
    ensures
        r@ == s@,
{
    let mut bytes: Vec<u8> = Vec::new();
    let mut i: usize = 0;
    assert(s@.take(0) =~= seq![]);
    while i < s.len()
        invariant
            i <= s@.len(),
            bytes@ == encode_utf8(s@.take(i as int)),
        decreases s@.len() - i,
    {
        proof {
            char_is_scalar(s@[i as int]);
            assert(s@.take(i + 1) =~= s@.take(i as int) + seq![s@[i as int]]);
            lemma_encode_concat(s@.take(i as int), seq![s@[i as int]]);
            reveal_with_fuel(encode_utf8, 2);
            assert(seq![s@[i as int]].drop_first() =~= seq![]);
            assert(encode_utf8(seq![s@[i as int]]) =~= encode_scalar(s@[i as int] as u32));
        }
        let mut c = encode(s[i] as u32);
        bytes.append(&mut c);
        i = i + 1;
    }
    assert(s@.take(i as int) =~= s@);
    text_of(&bytes, Ghost(s@))
}

/// Whether the characters of `p` stand in `s` at `at`.
pub open spec fn stands_at(s: Seq<char>, p: Seq<char>, at: int) -> bool {
    0 <= at && at + p.len() <= s.len() && s.subrange(at, at + p.len()) == p
}

/// Whether the characters of `p` stand in `s` at `at`.
pub fn is_at(s: &[char], p: &[char], at: usize) -> (r: bool)
    ensures
        r == stands_at(s@, p@, at as int),
{
    if at > s.len() || p.len() > s.len() - at {
        return false;
    }
    let ghost part = s@.subrange(at as int, at + p@.len());
    let mut i: usize = 0;
    while i < p.len()
        invariant
            i <= p@.len(),
            at + p@.len() <= s@.len(),
            s@.len() <= usize::MAX,
            part == s@.subrange(at as int, at + p@.len()),
            forall|k: int| 0 <= k < i ==> part[k] == p@[k],
        decreases p@.len() - i,
    {
        if s[at + i] != p[i] {
            assert(part[i as int] != p@[i as int]);
            return false;
        }
        i = i + 1;
    }
    assert(part =~= p@);
    true
}

/// Whether two texts are the same.
pub fn same_text(a: &str, b: &str) -> (r: bool)
    ensures
        r == (a@ == b@),
{
    let x = to_chars(a);
    let y = to_chars(b);
    if x.len() != y.len() {
        return false;
    }
    assert(a@.subrange(0, b@.len() as int) =~= a@);
    is_at(&x, &y, 0)
}

/// Whether a character is white space, as Unicode has it.
pub open spec fn is_space(c: char) -> bool {
    let u = c as u32;
    ||| 9 <= u <= 13
    ||| u == 0x20 || u == 0x85 || u == 0xA0 || u == 0x1680
    ||| 0x2000 <= u <= 0x200A
    ||| u == 0x2028 || u == 0x2029 || u == 0x202F || u == 0x205F || u == 0x3000
}

fn white(c: char) -> (r: bool)
    ensures
        r == is_space(c),
{
    let u: u32 = c as u32;
    (9 <= u && u <= 13) || u == 0x20 || u == 0x85 || u == 0xA0 || u == 0x1680 || (0x2000 <= u && u
        <= 0x200A) || u == 0x2028 || u == 0x2029 || u == 0x202F || u == 0x205F || u == 0x3000
}

/// A text without the white space at its end.
pub open spec fn trim_end(s: Seq<char>) -> Seq<char>
    decreases s.len(),
{
    if s.len() > 0 && is_space(s.last()) {
        trim_end(s.drop_last())
    } else {
        s
    }
}

/// A text without the white space at its start.
pub open spec fn trim_start(s: Seq<char>) -> Seq<char>
    decreases s.len(),
{
    if s.len() > 0 && is_space(s[0]) {
        trim_start(s.skip(1))
    } else {
        s
    }
}

/// A text without the white space at either end.
pub open spec fn trim(s: Seq<char>) -> Seq<char> {
    trim_end(trim_start(s))
}

/// The characters without the white space at either end.
pub fn trim_chars(s: &[char]) -> (r: Vec<char>)
    ensures
        r@ == trim(s@),
{
    let len: usize = s.len();
    let mut a: usize = 0;
    assert(s@.skip(0) =~= s@);
    while a < len && white(s[a])
        invariant
            a <= len == s@.len(),
            trim_start(s@) == trim_start(s@.skip(a as int)),
        decreases len - a,
    {
        assert(s@.skip(a as int).skip(1) =~= s@.skip(a + 1));
        a = a + 1;
    }
    let ghost t = s@.skip(a as int);
    assert(trim_start(s@) == t);
    let mut b: usize = len;
    assert(t.take(t.len() as int) =~= t);
    while b > a && white(s[b - 1])
        invariant
            a <= b <= len == s@.len(),
            t == s@.skip(a as int),
            trim_end(t) == trim_end(t.take(b - a)),
        decreases b,
    {
        assert(t.take(b - a).drop_last() =~= t.take(b - 1 - a));
        assert(t.take(b - a).last() == s@[b - 1]);
        b = b - 1;
    }
    let mut r: Vec<char> = Vec::new();
    r.extend_from_slice(&s[a..b]);
    assert(r@ =~= t.take(b - a));
    assert(b > a ==> t.take(b - a).last() == s@[b - 1]);
    r
}

/// Whether `p` stands somewhere in `s`.
pub open spec fn occurs(s: Seq<char>, p: Seq<char>) -> bool {
    exists|at: int| stands_at(s, p, at)
}

/// Whether `p` stands somewhere in `s`.
pub fn occurs_in(s: &[char], p: &[char]) -> (r: bool)
    ensures
        r == occurs(s@, p@),
{
    if p.len() > s.len() {
        return false;
    }
    let last: usize = s.len() - p.len();
    let mut at: usize = 0;
    while at < last
        invariant
            at <= last == s@.len() - p@.len(),
            forall|k: int| 0 <= k < at ==> !stands_at(s@, p@, k),
        decreases last - at,
    {
        if is_at(s, p, at) {
            return true;
        }
        at = at + 1;
    }
    is_at(s, p, last)
}

/// The position of the first `c`, or the length if there is none.
pub open spec fn find_char(s: Seq<char>, c: char) -> nat
    decreases s.len(),
{
    if s.len() == 0 || s[0] == c {
        0
    } else {
        1 + find_char(s.skip(1), c)
    }
}

pub proof fn lemma_find_char(s: Seq<char>, c: char, n: nat)
    requires
        n <= s.len(),
        forall|j: int| 0 <= j < n ==> s[j] != c,
        n < s.len() ==> s[n as int] == c,
    ensures
        find_char(s, c) == n,
    decreases s.len(),
{
    if n > 0 {
        lemma_find_char(s.skip(1), c, (n - 1) as nat);
    }
}

pub proof fn lemma_find_char_bound(s: Seq<char>, c: char)
    ensures
        find_char(s, c) <= s.len(),
        forall|j: int| 0 <= j < find_char(s, c) ==> s[j] != c,
        find_char(s, c) < s.len() ==> s[find_char(s, c) as int] == c,
    decreases s.len(),
{
    if s.len() > 0 && s[0] != c {
        let t = s.skip(1);
        lemma_find_char_bound(t, c);
        assert forall|j: int| 0 <= j < find_char(s, c) implies s[j] != c by {
            if j > 0 {
                assert(t[j - 1] == s[j]);
            }
        }
    }
}

/// The position of the first `c` at `from` or later, or the length.
pub fn index_of_char(s: &[char], c: char, from: usize) -> (r: usize)
    requires
        from <= s@.len(),
    ensures
        from <= r <= s@.len(),
        r - from == find_char(s@.skip(from as int), c),
{
    let len: usize = s.len();
    let mut i: usize = from;
    while i < len && s[i] != c
        invariant
            from <= i <= len == s@.len(),
            forall|j: int| from <= j < i ==> s@[j] != c,
        decreases len - i,
    {
        i = i + 1;
    }
    proof {
        lemma_find_char(s@.skip(from as int), c, (i - from) as nat);
    }
    i
}

/// A line without the carriage return at its end.
pub open spec fn chomp(s: Seq<char>) -> Seq<char> {
    if s.len() > 0 && s.last() == '\r' {
        s.drop_last()
    } else {
        s
    }
}

/// The lines of a text. A newline, or a carriage return and a newline, ends a
/// line; after the last one there is no line.
pub open spec fn lines(s: Seq<char>) -> Seq<Seq<char>>
    decreases s.len(),
{
    let n = find_char(s, '\n');
    if s.len() == 0 {
        seq![]
    } else if n >= s.len() {
        seq![s]
    } else {
        seq![chomp(s.take(n as int))] + lines(s.skip(n as int + 1))
    }
}

/// The texts of a list of characters.
pub open spec fn char_lists(v: Seq<Vec<char>>) -> Seq<Seq<char>> {
    Seq::new(v.len(), |i: int| v[i]@)
}

/// The lines of a text.
pub fn lines_of(s: &[char]) -> (r: Vec<Vec<char>>)
    ensures
        char_lists(r@) == lines(s@),
{
    let len: usize = s.len();
    let mut out: Vec<Vec<char>> = Vec::new();
    let mut pos: usize = 0;
    proof {
        assert(s@.skip(0) =~= s@);
        assert(char_lists(out@) + lines(s@) =~= lines(s@));
    }
    while pos < len
        invariant
            pos <= len == s@.len(),
            char_lists(out@) + lines(s@.skip(pos as int)) == lines(s@),
        decreases len - pos,
    {
        let ghost tail = s@.skip(pos as int);
        let ghost so_far = char_lists(out@);
        let n: usize = index_of_char(s, '\n', pos);
        let mut end: usize = n;
        if n < len && n > pos && s[n - 1] == '\r' {
            end = n - 1;
        }
        let mut line: Vec<char> = Vec::new();
        line.extend_from_slice(&s[pos..end]);
        out.push(line);
        assert(char_lists(out@) =~= so_far.push(line@));
        if n < len {
            proof {
                assert(tail.take(n - pos) =~= s@.subrange(pos as int, n as int));
                assert(line@ =~= chomp(tail.take(n - pos)));
                assert(tail.skip(n - pos + 1) =~= s@.skip(n + 1));
                let rest = lines(s@.skip(n + 1));
                assert(so_far + (seq![line@] + rest) =~= so_far.push(line@) + rest);
            }
            pos = n + 1;
        } else {
            proof {
                assert(line@ =~= tail);
                assert(s@.skip(len as int) =~= seq![]);
                assert(so_far + seq![tail] =~= so_far.push(line@) + lines(s@.skip(len as int)));
            }
            pos = len;
        }
    }
    proof {
        assert(lines(s@.skip(pos as int)) =~= seq![]);
        assert(char_lists(out@) + lines(s@.skip(pos as int)) =~= char_lists(out@));
    }
    out
}

proof fn lemma_trim_start(a: Seq<char>, t: Seq<char>)
    requires
        forall|i: int| 0 <= i < a.len() ==> is_space(#[trigger] a[i]),
        t.len() > 0 ==> !is_space(t[0]),
    ensures
        trim_start(a + t) == t,
    decreases a.len(),
{
    let s = a + t;
    if a.len() == 0 {
        assert(s =~= t);
    } else {
        let rest = a.skip(1);
        assert(s[0] == a[0]);
        assert(s.skip(1) =~= rest + t);
        lemma_trim_start(rest, t);
    }
}

proof fn lemma_trim_end(t: Seq<char>, b: Seq<char>)
    requires
        forall|i: int| 0 <= i < b.len() ==> is_space(#[trigger] b[i]),
        t.len() > 0 ==> !is_space(t.last()),
    ensures
        trim_end(t + b) == t,
    decreases b.len(),
{
    let s = t + b;
    if b.len() == 0 {
        assert(s =~= t);
    } else {
        assert(s.last() == b[b.len() - 1]);
        assert(s.drop_last() =~= t + b.drop_last());
        lemma_trim_end(t, b.drop_last());
    }
}

/// Whether a text is made of spaces, tabs and line ends only.
pub open spec fn is_blank(s: Seq<char>) -> bool {
    forall|i: int|
        0 <= i < s.len() ==> #[trigger] s[i] == ' ' || s[i] == '\t' || s[i] == '\n' || s[i] == '\r'
}

/// Spaces, tabs and line ends around a text are taken away and nothing else is:
/// what starts and ends with a printed character stays.
pub proof fn law_trim(a: Seq<char>, t: Seq<char>, b: Seq<char>)
    requires
        is_blank(a),
        is_blank(b),
        t.len() > 0 ==> 33 <= t[0] as u32 <= 126 && 33 <= t.last() as u32 <= 126,
    ensures
        trim(a + t + b) == t,
{
    assert(' ' as u32 == 32 && '\t' as u32 == 9 && '\n' as u32 == 10 && '\r' as u32 == 13);
    if t.len() > 0 {
        let rest = t + b;
        assert(rest[0] == t[0]);
        assert(a + t + b =~= a + rest);
        lemma_trim_start(a, rest);
        lemma_trim_end(t, b);
    } else {
        let all = a + b;
        assert(a + t + b =~= all + t);
        assert forall|i: int| 0 <= i < all.len() implies is_space(#[trigger] all[i]) by {
            if i < a.len() {
                assert(all[i] == a[i]);
            } else {
                assert(all[i] == b[i - a.len()]);
            }
        }
        lemma_trim_start(all, t);
        assert(trim_end(t) == t);
    }
}

/// The lines of a text are what stands before each newline, without a carriage
/// return at its end, and what stands after the last, unless that is nothing.
pub proof fn law_lines(line: Seq<char>, rest: Seq<char>)
    requires
        !line.contains('\n'),
    ensures
        line.len() == 0 ==> lines(line).len() == 0,
        line.len() > 0 ==> lines(line) == seq![line],
        line.len() > 0 && line.last() == '\r' ==> lines(line + seq!['\n'] + rest) == seq![
            line.drop_last(),
        ] + lines(rest),
        !(line.len() > 0 && line.last() == '\r') ==> lines(line + seq!['\n'] + rest) == seq![line]
            + lines(rest),
{
    let s = line + seq!['\n'] + rest;
    let n = line.len();
    assert forall|j: int| 0 <= j < n implies line[j] != '\n' by {
        assert(line.contains(line[j]));
    }
    lemma_find_char(line, '\n', n);
    assert forall|j: int| 0 <= j < n implies s[j] != '\n' by {
        assert(s[j] == line[j]);
    }
    assert(s[n as int] == '\n');
    lemma_find_char(s, '\n', n);
    assert(s.take(n as int) =~= line);
    assert(s.skip(n as int + 1) =~= rest);
}

/// A text occurs in another if that is made of something, the text, and
/// something more.
pub proof fn law_occurs(s: Seq<char>, p: Seq<char>)
    ensures
        occurs(s, p) <==> exists|a: Seq<char>, b: Seq<char>| s == #[trigger] (a + p + b),
{
    if occurs(s, p) {
        let at = choose|at: int| stands_at(s, p, at);
        let (a, b) = (s.take(at), s.skip(at + p.len()));
        assert(s =~= a + p + b);
    }
    if exists|a: Seq<char>, b: Seq<char>| s == #[trigger] (a + p + b) {
        let (a, b) = choose|a: Seq<char>, b: Seq<char>| s == #[trigger] (a + p + b);
        assert(s.subrange(a.len() as int, (a.len() + p.len()) as int) =~= p);
        assert(stands_at(s, p, a.len() as int));
    }
}

} // verus!

use csearch::grep::Grep;
use csearch::results::{NameFilter, Tally};
use regex::bytes::RegexBuilder;

fn grep(
    pattern: &str,
    data: &[u8],
    count: bool,
    list: bool,
    names: bool,
    line_numbers: bool,
) -> (String, usize) {
    let re = RegexBuilder::new(pattern)
        .multi_line(true)
        .crlf(true)
        .build()
        .unwrap();
    let g = Grep { re, count, list, names, line_numbers };
    let (out, n) = g.grep_bytes("f", data);
    (String::from_utf8(out).unwrap(), n)
}

fn count(pattern: &str, data: &[u8]) -> usize {
    grep(pattern, data, true, false, false, false).1
}

#[test]
fn no_phantom_line_after_final_newline() {
    // Expected values are what `grep -Ec` prints.
    assert_eq!(count("x*", b"abc\n"), 1);
    assert_eq!(count("$", b"abc\n"), 1);
    assert_eq!(count("^$", b"abc\n"), 0);
    assert_eq!(count("^$", b"a\n\nb\n"), 1);
    assert_eq!(count("^", b"a\nb\n"), 2);
    assert_eq!(count("x*", b""), 0);
    assert_eq!(count("$", b""), 0);
    // A final line without a newline is still a line.
    assert_eq!(count("x*", b"abc"), 1);
    assert_eq!(count("$", b"abc"), 1);
    assert_eq!(count("c$", b"abc"), 1);
    assert_eq!(count("^$", b"a\n"), 0);
}

#[test]
fn crlf_line_endings_anchor_correctly() {
    // Windows-edited files: `$` must match before "\r\n", as grep does.
    assert_eq!(count("foo$", b"foo\r\nbar\r\n"), 1);
    assert_eq!(count("^bar$", b"foo\r\nbar\r\n"), 1);
    assert_eq!(count("^$", b"a\r\n\r\nb\r\n"), 1);
    assert_eq!(count("^$", b"a\r\nb\r\n"), 0);
}

#[test]
fn one_hit_per_line() {
    assert_eq!(count("a", b"aaa\naa\nb\n"), 2);
    let (out, _) = grep("a", b"aaa\n", false, false, false, false);
    assert_eq!(out, "aaa\n");
}

#[test]
fn lines_are_reported_where_matches_start() {
    let text = b"ab\ncd\nabab\n\nxab";
    let (out, n) = grep("ab", text, false, false, false, true);
    assert_eq!((out.as_str(), n), ("1:ab\n3:abab\n5:xab\n", 3));
    // A match that starts inside another one's text is not lost.
    let (out, n) = grep("b\nc|cd", text, false, false, false, false);
    assert_eq!((out.as_str(), n), ("ab\ncd\n", 1));
    // A match on no line is not reported.
    assert_eq!(count(r"\z", b"ab\n"), 0);
    assert_eq!(count(r"\z", b"ab"), 1);
}

#[test]
fn output_formats() {
    let text = b"hit one\nmiss\nmiss\nhit four\n\n\nhit 7, hit again\nmiss\nhit nine";
    let (out, n) = grep("hit", text, false, false, false, true);
    assert_eq!(n, 4);
    assert_eq!(
        out,
        "1:hit one\n4:hit four\n7:hit 7, hit again\n9:hit nine\n"
    );

    let (out, _) = grep("hit", b"hit\n", false, false, true, true);
    assert_eq!(out, "f:1:hit\n");

    let (out, n) = grep("hit", b"hit\nhit\n", true, false, true, false);
    assert_eq!((out.as_str(), n), ("f:2\n", 2));

    // -l stops at the first hit.
    let (out, n) = grep("hit", b"hit\nhit\n", false, true, true, false);
    assert_eq!((out.as_str(), n), ("f\n", 1));

    let (out, n) = grep("zzz", b"hit\n", true, false, true, false);
    assert_eq!((out.as_str(), n), ("", 0));
}

#[test]
fn searches_are_compiled_with_their_flags() {
    let g = Grep::new("HIT$", true, true, false, false, false).unwrap();
    assert_eq!(g.grep_bytes("f", b"a hit\r\nhit not\n").1, 1);
    let g = Grep::new("HIT$", false, true, false, false, false).unwrap();
    assert_eq!(g.grep_bytes("f", b"a hit\r\n").1, 0);
    let e = Grep::new("a(", false, false, false, false, false).unwrap_err();
    assert!(e.contains("unclosed group"), "{e}");
}

#[test]
fn a_match_over_lines_takes_them_together() {
    let (out, n) = grep("b\\nc", b"ab\ncd\nef\n", false, false, false, true);
    assert_eq!((out.as_str(), n), ("1:ab\ncd\n", 1));
}

#[test]
fn name_filters() {
    assert!(NameFilter::new(None).unwrap().re.is_none());
    let f = NameFilter::new(Some("\\.rs$")).unwrap();
    assert!(f.re.unwrap().is_match("a.rs"));
    assert!(NameFilter::new(Some("(")).is_err());
}

#[test]
fn tallies() {
    let mut t = Tally::new();
    assert_eq!(t.exit_code(), 1);
    assert_eq!(t.notes(), (None, None));
    t.count(0);
    t.count(3);
    assert_eq!((t.files, t.total), (1, 3));
    assert_eq!(t.exit_code(), 0);
    t.missing = 2;
    t.unreadable = 10;
    let (a, b) = t.notes();
    assert_eq!(
        a.unwrap(),
        "csearch: 2 indexed file(s) no longer exist -- run cindex to refresh the index"
    );
    assert_eq!(b.unwrap(), "csearch: 10 indexed file(s) could not be read");
}

use csearch::expr::Expr;
use csearch::query::{Op, Query};
use csearch::regexp::{parse, query_for, regexp_query};
use csearch::trigram::pack;

fn q(p: &str) -> String {
    regexp_query(p, false).unwrap().to_string()
}

#[test]
fn cox_cases() {
    assert_eq!(q("Abcdef"), "Abc bcd cde def");
    assert_eq!(q("(abc)(def)"), "abc bcd cde def");
    assert_eq!(q("abc.*(def|ghi)"), "abc (def|ghi)");
    assert_eq!(q("abc(def|ghi)"), "abc (bcd cde)|(bcg cgh) (def|ghi)");
    assert_eq!(q("a+hello"), "ahe ell hel llo");
    assert_eq!(q("a*hello"), "ell hel llo");
    assert_eq!(q("def|abc"), "(abc|def)");
    assert_eq!(q("abc|def"), "(abc|def)");
    assert_eq!(q("ab[cde]"), "(abc|abd|abe)");
    assert_eq!(q("ab[cde]fgh"), "fgh (abc bcf cfg)|(abd bdf dfg)|(abe bef efg)");
    assert_eq!(q("."), "+");
    assert_eq!(q("(abc)+"), "abc");
    assert_eq!(q("(abc)*"), "+");
    assert_eq!(q("(abc)?"), "+");
    assert_eq!(q("(abc){2}"), "abc bca cab");
    assert_eq!(q("(abc){2,}"), "abc bca cab");
    assert_eq!(q("(abc){1,3}"), "abc");
    assert_eq!(q("hello.*hello"), "ell hel llo");
    assert_eq!(q("^abcd$"), "abc bcd");
    assert_eq!(q("[a-z]+"), "+");
    assert_eq!(q("abc\\z"), "abc");
    assert_eq!(q("abc?def"), "def (abc bcd cde)|(abd bde)");
    assert_eq!(q("(foo|bar)baz"), "baz (oba oob)|(arb rba) (bar|foo)");
    assert_eq!(q("x(abc|abd)y"), "xab (abc|abd) (bcy|bdy)");
    assert_eq!(q("\\bfoobar\\b"), "bar foo oba oob");
    assert_eq!(q("fo+bar"), "bar oba");
}

#[test]
fn case_folding() {
    assert_eq!(
        regexp_query("abc", true).unwrap().to_string(),
        "(ABC|ABc|AbC|Abc|aBC|aBc|abC|abc)"
    );
}

#[test]
fn big_class_is_any() {
    assert_eq!(q("[a-zA-Z]bcdef"), "bcd cde def");
}

#[test]
fn bad_pattern_is_explained() {
    let e = regexp_query("a(b", false).unwrap_err();
    assert!(e.starts_with("bad regexp: "), "{e}");
    assert!(e.contains("unclosed group"), "{e}");
    assert!(parse("[", false).is_err());
}

#[test]
fn nothing_matches_an_empty_class() {
    assert_eq!(q("[a&&b]"), "-");
    assert_eq!(query_for(&Expr::Alternation(Vec::new())).to_string(), "-");
}

#[test]
fn expressions_by_hand() {
    let abc = Expr::Literal(b"abc".to_vec());
    assert_eq!(query_for(&abc).to_string(), "abc");
    let opt = Expr::Repetition { min: 0, max: Some(1), sub: Box::new(Expr::Literal(b"abc".to_vec())) };
    assert_eq!(query_for(&opt).to_string(), "+");
    let seq = Expr::Concat(vec![
        Expr::Literal(b"ab".to_vec()),
        Expr::Bytes(vec![(b'x', b'y')]),
        Expr::Look,
    ]);
    assert_eq!(query_for(&seq).to_string(), "(abx|aby)");
    let wide = Expr::Concat(vec![Expr::Unicode(vec![('a', 'z')]), Expr::Literal(b"def".to_vec())]);
    assert_eq!(query_for(&wide).to_string(), "def");
    let euro = Expr::Unicode(vec![('\u{20ac}', '\u{20ac}')]);
    assert_eq!(query_for(&euro).trigrams, vec![0x00e2_82ac]);
}

#[test]
fn parsed_trees_have_their_shape() {
    match parse("a{2,5}", false).unwrap() {
        Expr::Repetition { min, max, sub } => {
            assert_eq!((min, max), (2, Some(5)));
            assert!(matches!(*sub, Expr::Literal(ref l) if l == b"a"));
        }
        other => panic!("{other:?}"),
    }
    assert!(matches!(parse("^", false).unwrap(), Expr::Look));
    assert!(matches!(parse("", false).unwrap(), Expr::Empty));
    match parse("[a-c]", false).unwrap() {
        Expr::Unicode(r) => assert_eq!(r, vec![('a', 'c')]),
        other => panic!("{other:?}"),
    }
    match parse("(x|yy)", false).unwrap() {
        Expr::Capture(sub) => assert!(matches!(*sub, Expr::Alternation(ref v) if v.len() == 2)),
        other => panic!("{other:?}"),
    }
}

#[test]
fn queries_combine() {
    let a = || Query::and_trigrams(vec![pack(b"abc")]);
    let b = || Query::and_trigrams(vec![pack(b"def"), pack(b"abc"), pack(b"def")]);
    assert_eq!(b().trigrams, vec![pack(b"abc"), pack(b"def")]);
    assert_eq!(a().and(b()).to_string(), "abc def");
    assert_eq!(a().or(Query::none()).to_string(), "abc");
    assert_eq!(a().and(Query::none()).to_string(), "-");
    assert_eq!(a().or(Query::all()).to_string(), "+");
    assert_eq!(a().and(Query::default()).to_string(), "abc");
    assert_eq!(Query::all().op, Op::All);
    assert_eq!(Query::none().op, Op::Nothing);
    // Common trigrams are factored out of an Or of Ands.
    let x = Query::and_trigrams(vec![pack(b"abc"), pack(b"ghi")]);
    let y = Query::and_trigrams(vec![pack(b"abc"), pack(b"jkl")]);
    let z = x.or(y);
    assert_eq!(z.op, Op::And);
    assert_eq!(z.to_string(), "abc (ghi|jkl)");
    assert_eq!(z.clone(), z);
}

fn sorted(q: &Query) -> bool {
    q.trigrams.windows(2).all(|w| w[0] < w[1]) && q.subs.iter().all(sorted)
}

#[test]
fn queries_are_sorted_at_every_level() {
    for p in ["abc(def|ghi)", "(foo|bar|baz)qux+", "x(abc|abd)y", "[a-t]b[c-f]d", "(ab){3,}c?de"] {
        assert!(sorted(&regexp_query(p, false).unwrap()), "{p}");
        assert!(sorted(&regexp_query(p, true).unwrap()), "{p}");
    }
}

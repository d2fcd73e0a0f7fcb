//! Parsing of regular expressions, by `regex_syntax`.

use regex_syntax::hir::{Class, HirKind};
use regex_syntax::ParserBuilder;
use vstd::prelude::*;

use crate::expr::{Expr, Pattern};

verus! {

/// `regex_syntax::hir::Hir`, the outcome of a parse.
#[verifier::external_type_specification]
#[verifier::external_body]
pub struct ExHir(regex_syntax::hir::Hir);

/// `regex_syntax::hir::Class`, a class of characters or of bytes.
#[verifier::external_type_specification]
#[verifier::external_body]
pub struct ExClass(regex_syntax::hir::Class);

/// What `regex_syntax::Parser::parse` makes of a pattern read with the
/// multi-line flag: the expression, or the text of the error.
pub uninterp spec fn parsed(pattern: Seq<char>, case_insensitive: bool) -> Result<
    Pattern,
    Seq<char>,
>;

/// The expression that a `regex_syntax::hir::Hir` holds.
pub uninterp spec fn tree(hir: regex_syntax::hir::Hir) -> Pattern;

/// The ranges that a `regex_syntax::hir::Class` holds.
pub uninterp spec fn class_tree(class: regex_syntax::hir::Class) -> Pattern;

/// `regex_syntax::Parser::parse`, with the multi-line flag: a function of the
/// pattern and of the flag.
#[verifier::external_body]
pub(crate) fn parse_syntax(pattern: &str, case_insensitive: bool) -> (r: Result<
    regex_syntax::hir::Hir,
    String,
>)
    ensures
        match r {
            Ok(h) => parsed(pattern@, case_insensitive) == Ok::<Pattern, Seq<char>>(tree(h)),
            Err(e) => parsed(pattern@, case_insensitive) == Err::<Pattern, Seq<char>>(e@),
        },
{
    ParserBuilder::new()
        .case_insensitive(case_insensitive)
        .multi_line(true)
        .build()
        .parse(pattern)
        .map_err(|e| format!("{e}"))
}

/// The ranges of a `regex_syntax::hir::Class`, in order.
#[verifier::external_body]
fn open_class(class: &Class) -> (r: Expr)
    ensures
        r@ == class_tree(*class),
{
    match class {
        Class::Unicode(c) => Expr::Unicode(c.iter().map(|r| (r.start(), r.end())).collect()),
        Class::Bytes(c) => Expr::Bytes(c.iter().map(|r| (r.start(), r.end())).collect()),
    }
}

/// One level of a parsed expression.
enum Node {
    Empty,
    Literal(Vec<u8>),
    Class(regex_syntax::hir::Class),
    Look,
    Capture(regex_syntax::hir::Hir),
    Repetition(u32, Option<u32>, regex_syntax::hir::Hir),
    Concat(Vec<regex_syntax::hir::Hir>),
    Alternation(Vec<regex_syntax::hir::Hir>),
}

/// The trees of parsed expressions.
pub open spec fn trees(v: Seq<regex_syntax::hir::Hir>) -> Seq<Pattern> {
    Seq::new(v.len(), |i: int| tree(v[i]))
}

/// `regex_syntax::hir::Hir::kind`: what an expression is made of. The kind of
/// look-around, the names of groups and the greediness of repetitions are left
/// out.
#[verifier::external_body]
fn open_node(hir: &regex_syntax::hir::Hir) -> (r: Node)
    ensures
        tree(*hir) == match r {
            Node::Empty => Pattern::Empty,
            Node::Literal(l) => Pattern::Literal(l@),
            Node::Class(c) => class_tree(c),
            Node::Look => Pattern::Look,
            Node::Capture(sub) => Pattern::Capture(Box::new(tree(sub))),
            Node::Repetition(min, max, sub) => Pattern::Repetition {
                min,
                max,
                sub: Box::new(tree(sub)),
            },
            Node::Concat(v) => Pattern::Concat(trees(v@)),
            Node::Alternation(v) => Pattern::Alternation(trees(v@)),
        },
{
    match hir.kind() {
        HirKind::Empty => Node::Empty,
        HirKind::Literal(l) => Node::Literal(l.0.to_vec()),
        HirKind::Class(c) => Node::Class(c.clone()),
        HirKind::Look(_) => Node::Look,
        HirKind::Capture(c) => Node::Capture((*c.sub).clone()),
        HirKind::Repetition(r) => Node::Repetition(r.min, r.max, (*r.sub).clone()),
        HirKind::Concat(v) => Node::Concat(v.clone()),
        HirKind::Alternation(v) => Node::Alternation(v.clone()),
    }
}

/// A parsed expression, level by level.
pub(crate) fn open_tree(hir: &regex_syntax::hir::Hir) -> (r: Expr)
    ensures
        r@ == tree(*hir),
    decreases tree(*hir),
{
    let ghost t = tree(*hir);
    match open_node(hir) {
        Node::Empty => Expr::Empty,
        Node::Literal(l) => Expr::Literal(l),
        Node::Class(c) => open_class(&c),
        Node::Look => Expr::Look,
        Node::Capture(sub) => {
            assert(*t->Capture_0 == tree(sub));
            Expr::Capture(Box::new(open_tree(&sub)))
        },
        Node::Repetition(min, max, sub) => {
            assert(*t->Repetition_sub == tree(sub));
            Expr::Repetition { min, max, sub: Box::new(open_tree(&sub)) }
        },
        Node::Concat(v) => {
            assert(t->Concat_0 == trees(v@));
            let subs = open_trees(&v);
            let r = Expr::Concat(subs);
            assert(r@->Concat_0 =~= trees(v@));
            r
        },
        Node::Alternation(v) => {
            assert(t->Alternation_0 == trees(v@));
            let subs = open_trees(&v);
            let r = Expr::Alternation(subs);
            assert(r@->Alternation_0 =~= trees(v@));
            r
        },
    }
}

/// Parsed expressions, level by level.
fn open_trees(v: &Vec<regex_syntax::hir::Hir>) -> (r: Vec<Expr>)
    ensures
        r@.len() == v@.len(),
        forall|i: int| 0 <= i < r@.len() ==> (#[trigger] r@[i])@ == tree(v@[i]),
    decreases trees(v@),
{
    let mut out: Vec<Expr> = Vec::new();
    let mut i: usize = 0;
    while i < v.len()
        invariant
            i <= v@.len(),
            out@.len() == i,
            forall|k: int| 0 <= k < i ==> (#[trigger] out@[k])@ == tree(v@[k]),
        decreases v@.len() - i,
    {
        assert(trees(v@)[i as int] == tree(v@[i as int]));
        let e = open_tree(&v[i]);
        out.push(e);
        i = i + 1;
    }
    out
}

} // verus!

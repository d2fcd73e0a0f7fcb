//! Boolean trigram queries.
//!
//! A query is `All`, `Nothing`, or an `And`/`Or` node holding a sorted list of
//! trigrams plus a list of sub-queries. `And` means every trigram and every
//! sub-query must match; `Or` means any of them.

use vstd::prelude::*;
use vstd::string::StringExecFns;

use crate::sets::{
    in_order, lemma_merge, lemma_shared, lemma_sorted_set, lemma_split_head, merge, merge_sorted,
    shared, sort_distinct, sorted_set,
};
use crate::trigram::{self, lossy_text, tri_bytes};

verus! {

#[derive(Clone, Copy, Debug, PartialEq, Eq, Structural)]
pub enum Op {
    All,
    Nothing,
    And,
    Or,
}

#[derive(Debug, PartialEq, Eq)]
pub struct Query {
    pub op: Op,
    /// Sorted, deduplicated packed trigrams.
    pub trigrams: Vec<u32>,
    pub subs: Vec<Query>,
}

/// A query as a mathematical value.
#[verifier::ext_equal]
pub struct Formula {
    pub op: Op,
    pub trigrams: Seq<u32>,
    pub subs: Seq<Formula>,
}

/// The value of a query.
pub open spec fn formula(q: Query) -> Formula
    decreases q,
{
    Formula {
        op: q.op,
        trigrams: q.trigrams@,
        subs: Seq::new(
            q.subs@.len(),
            |i: int|
                if 0 <= i < q.subs@.len() {
                    formula(q.subs@[i])
                } else {
                    arbitrary()
                },
        ),
    }
}

impl View for Query {
    type V = Formula;

    open spec fn view(&self) -> Formula {
        formula(*self)
    }
}

/// The query that every document satisfies.
pub open spec fn always() -> Formula {
    Formula { op: Op::All, trigrams: seq![], subs: seq![] }
}

/// The query that no document satisfies.
pub open spec fn never() -> Formula {
    Formula { op: Op::Nothing, trigrams: seq![], subs: seq![] }
}

/// The conjunction of a sequence of trigrams.
pub open spec fn each_of(trigrams: Seq<u32>) -> Formula {
    Formula { op: Op::And, trigrams, subs: seq![] }
}

impl Formula {
    /// Whether a document whose trigrams are `present` satisfies the query.
    pub open spec fn sat(self, present: Set<u32>) -> bool
        decreases self,
    {
        match self.op {
            Op::All => true,
            Op::Nothing => false,
            Op::And => {
                &&& forall|t: u32| #[trigger] self.trigrams.contains(t) ==> present.contains(t)
                &&& forall|i: int|
                    0 <= i < self.subs.len() ==> (#[trigger] self.subs[i]).sat(present)
            },
            Op::Or => {
                ||| exists|t: u32| #[trigger] self.trigrams.contains(t) && present.contains(t)
                ||| exists|i: int|
                    0 <= i < self.subs.len() && (#[trigger] self.subs[i]).sat(present)
            },
        }
    }

    /// A node that holds one trigram and nothing else means the same under
    /// either operator.
    pub open spec fn atom(self) -> bool {
        self.trigrams.len() == 1 && self.subs.len() == 0
    }

    /// The query with a node that does no work taken away: an empty node is
    /// `All` or `Nothing`, a node of one sub-query is that sub-query, and a node
    /// of one trigram may as well have operator `op`.
    pub open spec fn rewritten(self, op: Op) -> Formula {
        if self.op != Op::And && self.op != Op::Or {
            self
        } else if self.subs.len() + self.trigrams.len() > 1 {
            self
        } else if self.subs.len() + self.trigrams.len() == 0 {
            if self.op == Op::And {
                always()
            } else {
                never()
            }
        } else if self.subs.len() == 1 {
            self.subs[0]
        } else {
            Formula { op, ..self }
        }
    }

    /// Whether every list of trigrams in the query is sorted, without
    /// repetition.
    pub open spec fn tidy(self) -> bool
        decreases self,
    {
        &&& in_order(self.trigrams)
        &&& forall|i: int| 0 <= i < self.subs.len() ==> (#[trigger] self.subs[i]).tidy()
    }

    /// How many trigrams stand in the whole query.
    pub open spec fn weight(self) -> nat
        decreases self,
    {
        self.trigrams.len() + subs_weight(self.subs, self.subs.len())
    }
}

/// How many trigrams stand in the first `n` of the queries.
pub open spec fn subs_weight(subs: Seq<Formula>, n: nat) -> nat
    decreases subs, n,
{
    if n == 0 || n > subs.len() {
        0
    } else {
        subs_weight(subs, (n - 1) as nat) + subs[n - 1].weight()
    }
}

/// The trigrams of ascending `a` that are not in ascending `b`.
pub open spec fn unshared(a: Seq<u32>, b: Seq<u32>) -> Seq<u32>
    decreases a.len() + b.len(),
{
    if a.len() == 0 || b.len() == 0 {
        a
    } else if a[0] < b[0] {
        seq![a[0]] + unshared(a.skip(1), b)
    } else if b[0] < a[0] {
        unshared(a, b.skip(1))
    } else {
        unshared(a.skip(1), b.skip(1))
    }
}

/// The other of `And` and `Or`.
pub open spec fn dual(op: Op) -> Op {
    if op == Op::And {
        Op::Or
    } else {
        Op::And
    }
}

/// The simplified conjunction (`op` is `And`) or disjunction (`op` is `Or`) of
/// two queries. Constants are absorbed, nodes of the same operator are merged,
/// and what an `And` of `Or`s, or an `Or` of `And`s, has in common is factored
/// out: `(abc|def|ghi) AND (abc|def|mno)` becomes `(abc|def) OR (ghi AND mno)`.
pub open spec fn combine(q: Formula, r: Formula, op: Op) -> Formula
    decreases q.weight() + r.weight(),
    via combine_decreases
{
    let (x, y) = (q.rewritten(op), r.rewritten(op));
    if x.op == Op::Nothing || y.op == Op::Nothing {
        if op == Op::And {
            never()
        } else if x.op == Op::Nothing {
            y
        } else {
            x
        }
    } else if x.op == Op::All || y.op == Op::All {
        if op == Op::Or {
            always()
        } else if x.op == Op::All {
            y
        } else {
            x
        }
    } else if x.op == op && (y.op == op || y.atom()) {
        Formula { op, trigrams: merge(x.trigrams, y.trigrams), subs: x.subs + y.subs }
    } else if y.op == op && x.atom() {
        Formula { op, trigrams: merge(y.trigrams, x.trigrams), subs: y.subs }
    } else if x.atom() && y.atom() {
        Formula { op, trigrams: merge(x.trigrams, y.trigrams), subs: seq![] }
    } else if x.op == op {
        Formula { op, trigrams: x.trigrams, subs: x.subs.push(y) }
    } else if y.op == op {
        Formula { op, trigrams: y.trigrams, subs: y.subs.push(x) }
    } else if shared(x.trigrams, y.trigrams).len() > 0 {
        Formula {
            op: dual(op),
            trigrams: shared(x.trigrams, y.trigrams),
            subs: seq![
                combine(
                    Formula { trigrams: unshared(x.trigrams, y.trigrams), ..x },
                    Formula { trigrams: unshared(y.trigrams, x.trigrams), ..y },
                    op,
                ),
            ],
        }
    } else {
        Formula { op, trigrams: seq![], subs: seq![x, y] }
    }
}

#[via_fn]
proof fn combine_decreases(q: Formula, r: Formula, op: Op) {
    let (x, y) = (q.rewritten(op), r.rewritten(op));
    lemma_rewritten_weight(q, op);
    lemma_rewritten_weight(r, op);
    lemma_unshared_len(x.trigrams, y.trigrams);
    lemma_unshared_len(y.trigrams, x.trigrams);
}

proof fn lemma_rewritten_weight(q: Formula, op: Op)
    ensures
        q.rewritten(op).weight() <= q.weight(),
{
    reveal_with_fuel(subs_weight, 2);
}

proof fn lemma_unshared_len(a: Seq<u32>, b: Seq<u32>)
    ensures
        unshared(a, b).len() + shared(a, b).len() == a.len(),
        shared(a, b).len() == shared(b, a).len(),
    decreases a.len() + b.len(),
{
    if a.len() > 0 && b.len() > 0 {
        if a[0] < b[0] {
            lemma_unshared_len(a.skip(1), b);
        } else if b[0] < a[0] {
            lemma_unshared_len(a, b.skip(1));
        } else {
            lemma_unshared_len(a.skip(1), b.skip(1));
        }
    }
}

/// Every trigram of `a` is shared with `b` or it is not.
proof fn lemma_partition(a: Seq<u32>, b: Seq<u32>)
    ensures
        forall|t: u32|
            #[trigger] a.contains(t) <==> shared(a, b).contains(t) || unshared(a, b).contains(t),
        shared(a, b) == shared(b, a),
    decreases a.len() + b.len(),
{
    if a.len() > 0 && b.len() > 0 {
        let a1 = if a[0] <= b[0] { a.skip(1) } else { a };
        let b1 = if b[0] <= a[0] { b.skip(1) } else { b };
        lemma_partition(a1, b1);
        assert forall|t: u32|
            #[trigger] a.contains(t) <==> shared(a, b).contains(t) || unshared(a, b).contains(t) by {
            assert(a1.contains(t) <==> shared(a1, b1).contains(t) || unshared(a1, b1).contains(t));
            lemma_split_head(a, t);
            lemma_split_head(shared(a, b), t);
            lemma_split_head(unshared(a, b), t);
            if a[0] < b[0] {
                assert(unshared(a, b).skip(1) =~= unshared(a1, b1));
            } else if !(b[0] < a[0]) {
                assert(shared(a, b).skip(1) =~= shared(a1, b1));
            }
        }
    }
}

proof fn lemma_rewritten_sat(q: Formula, op: Op, present: Set<u32>)
    requires
        op == Op::And || op == Op::Or,
    ensures
        q.rewritten(op).sat(present) == q.sat(present),
{
    if (q.op == Op::And || q.op == Op::Or) && q.subs.len() + q.trigrams.len() <= 1 {
        if q.subs.len() == 1 {
            let sub = q.subs[0];
            assert(forall|t: u32| !q.trigrams.contains(t));
            assert(q.rewritten(op) == sub);
            if q.sat(present) && q.op == Op::Or {
                let i = choose|i: int| 0 <= i < q.subs.len() && (#[trigger] q.subs[i]).sat(present);
                assert(i == 0);
            }
            if sub.sat(present) {
                assert forall|i: int| 0 <= i < q.subs.len() implies (#[trigger] q.subs[i]).sat(
                    present,
                ) by {
                    assert(i == 0);
                }
            }
        } else if q.trigrams.len() == 1 {
            let f = q.rewritten(op);
            let t0 = q.trigrams[0];
            assert(f.trigrams.contains(t0));
            assert(forall|t: u32| #[trigger] f.trigrams.contains(t) ==> t == t0);
            assert(q.sat(present) == present.contains(t0));
            assert(f.sat(present) == present.contains(t0));
        } else {
            assert(forall|t: u32| !q.trigrams.contains(t));
        }
    }
}

/// The combination of two queries is satisfied by exactly the documents that
/// satisfy both (`And`), or at least one of them (`Or`).
pub proof fn law_combine(q: Formula, r: Formula, op: Op, present: Set<u32>)
    requires
        op == Op::And || op == Op::Or,
    ensures
        combine(q, r, op).sat(present) == (if op == Op::And {
            q.sat(present) && r.sat(present)
        } else {
            q.sat(present) || r.sat(present)
        }),
    decreases q.weight() + r.weight(),
{
    let (x, y) = (q.rewritten(op), r.rewritten(op));
    lemma_rewritten_sat(q, op, present);
    lemma_rewritten_sat(r, op, present);
    let c = combine(q, r, op);
    if x.op == Op::Nothing || y.op == Op::Nothing || x.op == Op::All || y.op == Op::All {
    } else if x.op == op && (y.op == op || y.atom()) {
        lemma_merged_sat(x, y, op, c, present);
    } else if y.op == op && x.atom() {
        assert(c.subs =~= y.subs + x.subs);
        lemma_merged_sat(y, x, op, c, present);
    } else if x.atom() && y.atom() {
        assert(c.subs =~= x.subs + y.subs);
        lemma_merged_sat(x, y, op, c, present);
    } else if x.op == op {
        lemma_pushed_sat(x, y, c, present);
    } else if y.op == op {
        lemma_pushed_sat(y, x, c, present);
    } else if shared(x.trigrams, y.trigrams).len() > 0 {
        let x1 = Formula { trigrams: unshared(x.trigrams, y.trigrams), ..x };
        let y1 = Formula { trigrams: unshared(y.trigrams, x.trigrams), ..y };
        lemma_rewritten_weight(q, op);
        lemma_rewritten_weight(r, op);
        lemma_unshared_len(x.trigrams, y.trigrams);
        lemma_unshared_len(y.trigrams, x.trigrams);
        law_combine(x1, y1, op, present);
        lemma_partition(x.trigrams, y.trigrams);
        lemma_partition(y.trigrams, x.trigrams);
        let inner = combine(x1, y1, op);
        lemma_factored_sat(x, y, op, inner, c, present);
    } else {
        let e = Formula { op, trigrams: seq![], subs: seq![] };
        let e1 = Formula { op, trigrams: seq![], subs: seq![x] };
        assert(e1.subs =~= e.subs.push(x));
        assert(c.subs =~= e1.subs.push(y));
        assert(forall|t: u32| !e.trigrams.contains(t));
        lemma_pushed_sat(e, x, e1, present);
        lemma_pushed_sat(e1, y, c, present);
    }
}

/// What two nodes of the other operator share, joined with the combination of
/// what they do not.
proof fn lemma_factored_sat(
    x: Formula,
    y: Formula,
    op: Op,
    inner: Formula,
    c: Formula,
    present: Set<u32>,
)
    requires
        op == Op::And || op == Op::Or,
        x.op == dual(op),
        y.op == dual(op),
        c == (Formula {
            op: dual(op),
            trigrams: shared(x.trigrams, y.trigrams),
            subs: seq![inner],
        }),
        inner.sat(present) == ({
            let x1 = Formula { trigrams: unshared(x.trigrams, y.trigrams), ..x };
            let y1 = Formula { trigrams: unshared(y.trigrams, x.trigrams), ..y };
            if op == Op::And {
                x1.sat(present) && y1.sat(present)
            } else {
                x1.sat(present) || y1.sat(present)
            }
        }),
    ensures
        c.sat(present) == (if op == Op::And {
            x.sat(present) && y.sat(present)
        } else {
            x.sat(present) || y.sat(present)
        }),
{
    lemma_partition(x.trigrams, y.trigrams);
    lemma_partition(y.trigrams, x.trigrams);
    lemma_shared_sat(x, shared(x.trigrams, y.trigrams), unshared(x.trigrams, y.trigrams), present);
    lemma_shared_sat(y, shared(x.trigrams, y.trigrams), unshared(y.trigrams, x.trigrams), present);
    let common = Formula { subs: seq![], ..c };
    assert(c.subs =~= common.subs.push(inner));
    lemma_pushed_sat(common, inner, c, present);
}

proof fn lemma_shared_sat(x: Formula, inside: Seq<u32>, outside: Seq<u32>, present: Set<u32>)
    requires
        x.op == Op::And || x.op == Op::Or,
        forall|t: u32|
            #[trigger] x.trigrams.contains(t) <==> inside.contains(t) || outside.contains(t),
    ensures
        ({
            let common = Formula { op: x.op, trigrams: inside, subs: seq![] };
            let rest = Formula { trigrams: outside, ..x };
            x.sat(present) == (if x.op == Op::And {
                common.sat(present) && rest.sat(present)
            } else {
                common.sat(present) || rest.sat(present)
            })
        }),
{
    let common = Formula { op: x.op, trigrams: inside, subs: seq![] };
    let rest = Formula { trigrams: outside, ..x };
    if x.op == Op::And {
        if x.sat(present) {
            assert forall|t: u32| #[trigger] inside.contains(t) implies present.contains(t) by {
                assert(x.trigrams.contains(t));
            }
            assert forall|t: u32| #[trigger] outside.contains(t) implies present.contains(t) by {
                assert(x.trigrams.contains(t));
            }
            assert(common.sat(present));
            assert forall|i: int| 0 <= i < rest.subs.len() implies (#[trigger] rest.subs[i]).sat(
                present,
            ) by {
                assert(x.subs[i].sat(present));
            }
            assert(rest.sat(present));
        }
        if common.sat(present) && rest.sat(present) {
            assert forall|t: u32| #[trigger] x.trigrams.contains(t) implies present.contains(t) by {
                assert(common.trigrams.contains(t) || rest.trigrams.contains(t));
            }
            assert forall|i: int| 0 <= i < x.subs.len() implies (#[trigger] x.subs[i]).sat(
                present,
            ) by {
                assert(rest.subs[i].sat(present));
            }
        }
    } else {
        if x.sat(present) {
            if exists|t: u32| #[trigger] x.trigrams.contains(t) && present.contains(t) {
                let t = choose|t: u32| #[trigger] x.trigrams.contains(t) && present.contains(t);
                assert(common.trigrams.contains(t) || rest.trigrams.contains(t));
            } else {
                let i = choose|i: int| 0 <= i < x.subs.len() && (#[trigger] x.subs[i]).sat(present);
                assert(rest.subs[i].sat(present));
            }
        }
        if common.sat(present) {
            let t = choose|t: u32| #[trigger] common.trigrams.contains(t) && present.contains(t);
            assert(x.trigrams.contains(t));
        }
        if rest.sat(present) {
            if exists|t: u32| #[trigger] rest.trigrams.contains(t) && present.contains(t) {
                let t = choose|t: u32| #[trigger] rest.trigrams.contains(t) && present.contains(t);
                assert(x.trigrams.contains(t));
            } else {
                let i = choose|i: int|
                    0 <= i < rest.subs.len() && (#[trigger] rest.subs[i]).sat(present);
                assert(x.subs[i].sat(present));
            }
        }
    }
}

/// An atom, or a node of operator `op`, merged with another such node.
proof fn lemma_merged_sat(x: Formula, y: Formula, op: Op, c: Formula, present: Set<u32>)
    requires
        op == Op::And || op == Op::Or,
        x.op == op || x.atom() && (x.op == Op::And || x.op == Op::Or),
        y.op == op || y.atom() && (y.op == Op::And || y.op == Op::Or),
        c == (Formula { op, trigrams: merge(x.trigrams, y.trigrams), subs: x.subs + y.subs }),
    ensures
        c.sat(present) == (if op == Op::And {
            x.sat(present) && y.sat(present)
        } else {
            x.sat(present) || y.sat(present)
        }),
{
    lemma_merge(x.trigrams, y.trigrams);
    let x1 = Formula { op, ..x };
    let y1 = Formula { op, ..y };
    lemma_atom_sat(x, op, present);
    lemma_atom_sat(y, op, present);
    assert forall|i: int| 0 <= i < x.subs.len() implies c.subs[i] == #[trigger] x.subs[i] by {}
    assert forall|i: int| 0 <= i < y.subs.len() implies c.subs[x.subs.len() + i]
        == #[trigger] y.subs[i] by {}
    if op == Op::And {
        if c.sat(present) {
            assert forall|t: u32| #[trigger] x.trigrams.contains(t) implies present.contains(t) by {
                assert(c.trigrams.contains(t));
            }
            assert forall|t: u32| #[trigger] y.trigrams.contains(t) implies present.contains(t) by {
                assert(c.trigrams.contains(t));
            }
            assert(x1.sat(present) && y1.sat(present));
        }
        if x1.sat(present) && y1.sat(present) {
            assert forall|i: int| 0 <= i < c.subs.len() implies (#[trigger] c.subs[i]).sat(
                present,
            ) by {
                if i >= x.subs.len() {
                    assert(y1.subs[i - x.subs.len()].sat(present));
                }
            }
        }
    } else {
        if c.sat(present) {
            if exists|t: u32| #[trigger] c.trigrams.contains(t) && present.contains(t) {
                let t = choose|t: u32| #[trigger] c.trigrams.contains(t) && present.contains(t);
                assert(x1.trigrams.contains(t) || y1.trigrams.contains(t));
            } else {
                let i = choose|i: int| 0 <= i < c.subs.len() && (#[trigger] c.subs[i]).sat(present);
                if i < x.subs.len() {
                    assert(x1.subs[i].sat(present));
                } else {
                    assert(y1.subs[i - x.subs.len()].sat(present));
                }
            }
        }
        if x1.sat(present) || y1.sat(present) {
            let z = if x1.sat(present) { x1 } else { y1 };
            if exists|t: u32| #[trigger] z.trigrams.contains(t) && present.contains(t) {
                let t = choose|t: u32| #[trigger] z.trigrams.contains(t) && present.contains(t);
                assert(c.trigrams.contains(t));
            } else {
                let i = choose|i: int| 0 <= i < z.subs.len() && (#[trigger] z.subs[i]).sat(present);
                if x1.sat(present) {
                    assert(c.subs[i].sat(present));
                } else {
                    assert(c.subs[x.subs.len() + i].sat(present));
                }
            }
        }
    }
}

proof fn lemma_atom_sat(x: Formula, op: Op, present: Set<u32>)
    requires
        op == Op::And || op == Op::Or,
        x.op == op || x.atom() && (x.op == Op::And || x.op == Op::Or),
    ensures
        (Formula { op, ..x }).sat(present) == x.sat(present),
{
    if x.op != op {
        assert(x.trigrams.contains(x.trigrams[0]));
        assert(forall|t: u32| #[trigger] x.trigrams.contains(t) ==> t == x.trigrams[0]);
        assert(x.rewritten(op) == (Formula { op, ..x }));
        lemma_rewritten_sat(x, op, present);
    }
}

proof fn lemma_pushed_sat(x: Formula, y: Formula, c: Formula, present: Set<u32>)
    requires
        x.op == Op::And || x.op == Op::Or,
        c == (Formula { subs: x.subs.push(y), ..x }),
    ensures
        c.sat(present) == (if x.op == Op::And {
            x.sat(present) && y.sat(present)
        } else {
            x.sat(present) || y.sat(present)
        }),
{
    let n = x.subs.len() as int;
    assert(c.subs[n] == y);
    if x.op == Op::And {
        if x.sat(present) && y.sat(present) {
            assert forall|i: int| 0 <= i < c.subs.len() implies (#[trigger] c.subs[i]).sat(
                present,
            ) by {
                if i < n {
                    assert(x.subs[i].sat(present));
                }
            }
            assert(c.sat(present));
        }
        if c.sat(present) {
            assert(c.subs[n].sat(present));
            assert forall|i: int| 0 <= i < x.subs.len() implies (#[trigger] x.subs[i]).sat(
                present,
            ) by {
                assert(c.subs[i].sat(present));
            }
            assert forall|t: u32| #[trigger] x.trigrams.contains(t) implies present.contains(t) by {
                assert(c.trigrams.contains(t));
            }
            assert(x.sat(present));
        }
    } else {
        if c.sat(present) {
            if exists|t: u32| #[trigger] c.trigrams.contains(t) && present.contains(t) {
                let t = choose|t: u32| #[trigger] c.trigrams.contains(t) && present.contains(t);
                assert(x.trigrams.contains(t));
            } else {
                let i = choose|i: int| 0 <= i < c.subs.len() && (#[trigger] c.subs[i]).sat(present);
                if i < n {
                    assert(x.subs[i].sat(present));
                }
            }
            assert(x.sat(present) || y.sat(present));
        }
        if x.sat(present) {
            if exists|t: u32| #[trigger] x.trigrams.contains(t) && present.contains(t) {
                let t = choose|t: u32| #[trigger] x.trigrams.contains(t) && present.contains(t);
                assert(c.trigrams.contains(t));
            } else {
                let i = choose|i: int| 0 <= i < x.subs.len() && (#[trigger] x.subs[i]).sat(present);
                assert(c.subs[i].sat(present));
            }
            assert(c.sat(present));
        }
        if y.sat(present) {
            assert(c.subs[n].sat(present));
            assert(c.sat(present));
        }
    }
}

proof fn lemma_unshared_order(a: Seq<u32>, b: Seq<u32>)
    requires
        in_order(a),
        in_order(b),
    ensures
        in_order(unshared(a, b)),
    decreases a.len() + b.len(),
{
    if a.len() > 0 && b.len() > 0 {
        let a1 = if a[0] <= b[0] { a.skip(1) } else { a };
        let b1 = if b[0] <= a[0] { b.skip(1) } else { b };
        lemma_unshared_order(a1, b1);
        lemma_partition(a1, b1);
        let m = unshared(a1, b1);
        if a[0] < b[0] {
            assert forall|j: int| 0 <= j < m.len() implies a[0] < #[trigger] m[j] by {
                assert(m.contains(m[j]));
                assert(a1.contains(m[j]));
                let k = choose|k: int| 0 <= k < a1.len() && a1[k] == m[j];
                assert(a[k + 1] == m[j]);
            }
        }
    }
}

/// Combining sorted queries gives a sorted query.
pub proof fn law_combine_sorted(q: Formula, r: Formula, op: Op)
    requires
        q.tidy(),
        r.tidy(),
    ensures
        combine(q, r, op).tidy(),
    decreases q.weight() + r.weight(),
{
    let (x, y) = (q.rewritten(op), r.rewritten(op));
    lemma_rewritten_tidy(q, op);
    lemma_rewritten_tidy(r, op);
    let c = combine(q, r, op);
    if x.op == Op::Nothing || y.op == Op::Nothing || x.op == Op::All || y.op == Op::All {
    } else {
        lemma_merge(x.trigrams, y.trigrams);
        lemma_merge(y.trigrams, x.trigrams);
        assert forall|i: int| 0 <= i < (x.subs + y.subs).len() implies (#[trigger] (x.subs
            + y.subs)[i]).tidy() by {
            if i < x.subs.len() {
                assert(x.subs[i].tidy());
            } else {
                assert(y.subs[i - x.subs.len()].tidy());
            }
        }
        if x.op == op && (y.op == op || y.atom()) {
        } else if y.op == op && x.atom() {
        } else if x.atom() && y.atom() {
        } else if x.op == op {
            assert forall|i: int| 0 <= i < c.subs.len() implies (#[trigger] c.subs[i]).tidy() by {
                if i < x.subs.len() {
                    assert(x.subs[i].tidy());
                }
            }
        } else if y.op == op {
            assert forall|i: int| 0 <= i < c.subs.len() implies (#[trigger] c.subs[i]).tidy() by {
                if i < y.subs.len() {
                    assert(y.subs[i].tidy());
                }
            }
        } else if shared(x.trigrams, y.trigrams).len() > 0 {
            let x1 = Formula { trigrams: unshared(x.trigrams, y.trigrams), ..x };
            let y1 = Formula { trigrams: unshared(y.trigrams, x.trigrams), ..y };
            lemma_rewritten_weight(q, op);
            lemma_rewritten_weight(r, op);
            lemma_unshared_len(x.trigrams, y.trigrams);
            lemma_unshared_len(y.trigrams, x.trigrams);
            lemma_unshared_order(x.trigrams, y.trigrams);
            lemma_unshared_order(y.trigrams, x.trigrams);
            lemma_shared(x.trigrams, y.trigrams);
            assert forall|i: int| 0 <= i < x1.subs.len() implies (#[trigger] x1.subs[i]).tidy() by {
                assert(x.subs[i].tidy());
            }
            assert forall|i: int| 0 <= i < y1.subs.len() implies (#[trigger] y1.subs[i]).tidy() by {
                assert(y.subs[i].tidy());
            }
            law_combine_sorted(x1, y1, op);
            assert(c.subs.len() == 1 && c.subs[0] == combine(x1, y1, op));
        } else {
            assert(c.subs.len() == 2 && c.subs[0] == x && c.subs[1] == y);
        }
    }
}

proof fn lemma_rewritten_tidy(q: Formula, op: Op)
    requires
        q.tidy(),
    ensures
        q.rewritten(op).tidy(),
{
    if q.subs.len() == 1 {
        assert(q.subs[0].tidy());
    }
    let f = Formula { op, ..q };
    assert forall|i: int| 0 <= i < f.subs.len() implies (#[trigger] f.subs[i]).tidy() by {
        assert(q.subs[i].tidy());
    }
}

/// A document with more trigrams satisfies no fewer queries.
pub proof fn law_monotone(q: Formula, present: Set<u32>, more: Set<u32>)
    requires
        present.subset_of(more),
        q.sat(present),
    ensures
        q.sat(more),
    decreases q,
{
    if q.op == Op::And {
        assert forall|t: u32| #[trigger] q.trigrams.contains(t) implies more.contains(t) by {
            assert(present.contains(t));
        }
        assert forall|i: int| 0 <= i < q.subs.len() implies (#[trigger] q.subs[i]).sat(more) by {
            law_monotone(q.subs[i], present, more);
        }
    } else if q.op == Op::Or {
        if exists|t: u32| #[trigger] q.trigrams.contains(t) && present.contains(t) {
            let t = choose|t: u32| #[trigger] q.trigrams.contains(t) && present.contains(t);
            assert(more.contains(t));
        } else {
            let i = choose|i: int| 0 <= i < q.subs.len() && (#[trigger] q.subs[i]).sat(present);
            law_monotone(q.subs[i], present, more);
        }
    }
}

impl Default for Query {
    fn default() -> (q: Query)
        ensures
            q@ == always(),
    {
        Query::all()
    }
}

impl Clone for Query {
    fn clone(&self) -> (q: Query)
        ensures
            q@ == self@,
        decreases self,
    {
        let mut trigrams: Vec<u32> = Vec::new();
        trigrams.extend_from_slice(&self.trigrams);
        let mut subs: Vec<Query> = Vec::new();
        let mut i: usize = 0;
        while i < self.subs.len()
            invariant
                i <= self.subs@.len(),
                subs@.len() == i,
                forall|k: int| 0 <= k < i ==> (#[trigger] subs@[k])@ == self.subs@[k]@,
            decreases self.subs@.len() - i,
        {
            let sub = self.subs[i].clone();
            subs.push(sub);
            i = i + 1;
        }
        let q = Query { op: self.op, trigrams, subs };
        assert(q@.trigrams =~= self@.trigrams);
        assert(q@.subs =~= self@.subs);
        q
    }
}

impl Query {
    pub fn all() -> (q: Query)
        ensures
            q@ == always(),
    {
        let q = Query { op: Op::All, trigrams: Vec::new(), subs: Vec::new() };
        assert(q@.trigrams =~= seq![]);
        assert(q@.subs =~= seq![]);
        q
    }

    pub fn none() -> (q: Query)
        ensures
            q@ == never(),
    {
        let q = Query { op: Op::Nothing, trigrams: Vec::new(), subs: Vec::new() };
        assert(q@.trigrams =~= seq![]);
        assert(q@.subs =~= seq![]);
        q
    }

    /// The conjunction of the trigrams, sorted and each taken once.
    pub fn and_trigrams(trigrams: Vec<u32>) -> (q: Query)
        ensures
            q@ == each_of(sorted_set(trigrams@)),
            in_order(q@.trigrams),
            forall|t: u32| #[trigger] q@.trigrams.contains(t) <==> trigrams@.contains(t),
    {
        let sorted = sort_distinct(&trigrams);
        proof {
            lemma_sorted_set(trigrams@);
        }
        let q = Query { op: Op::And, trigrams: sorted, subs: Vec::new() };
        assert(q@.subs =~= seq![]);
        q
    }

    pub fn and(self, r: Query) -> (q: Query)
        ensures
            q@ == combine(self@, r@, Op::And),
            self@.tidy() && r@.tidy() ==> q@.tidy(),
    {
        and_or(self, r, Op::And)
    }

    pub fn or(self, r: Query) -> (q: Query)
        ensures
            q@ == combine(self@, r@, Op::Or),
            self@.tidy() && r@.tidy() ==> q@.tidy(),
    {
        and_or(self, r, Op::Or)
    }

    /// An `And`/`Or` doing no real work can be rewritten: empty to `All` or
    /// `Nothing`, one sub-query to that sub-query, one trigram to either
    /// operator.
    pub fn maybe_rewrite(self, op: Op) -> (q: Query)
        ensures
            q@ == self@.rewritten(op),
    {
        let mut this = self;
        if this.op != Op::And && this.op != Op::Or {
            return this;
        }
        if this.subs.len() > 1 || this.trigrams.len() > 1 {
            return this;
        }
        let n: usize = this.subs.len() + this.trigrams.len();
        if n > 1 {
            return this;
        }
        if n == 0 {
            return if this.op == Op::And { Query::all() } else { Query::none() };
        }
        if this.subs.len() == 1 {
            assert(this.subs@[0]@ == self@.subs[0]);
            return this.subs.pop().unwrap();
        }
        this.op = op;
        assert(this@.subs =~= self@.subs);
        this
    }

    /// A single trigram, which means the same under either operator.
    pub fn is_atom(&self) -> (b: bool)
        ensures
            b == self@.atom(),
    {
        self.trigrams.len() == 1 && self.subs.len() == 0
    }
}

/// Split two ascending lists into what only the first holds, what only the
/// second holds, and what they share.
fn partition(a: &[u32], b: &[u32]) -> (parts: (Vec<u32>, Vec<u32>, Vec<u32>))
    ensures
        parts.0@ == unshared(a@, b@),
        parts.1@ == unshared(b@, a@),
        parts.2@ == shared(a@, b@),
{
    let mut common: Vec<u32> = Vec::new();
    let mut left: Vec<u32> = Vec::new();
    let mut right: Vec<u32> = Vec::new();
    let mut i: usize = 0;
    let mut j: usize = 0;
    proof {
        assert(a@.skip(0) =~= a@);
        assert(b@.skip(0) =~= b@);
    }
    while i < a.len() && j < b.len()
        invariant
            i <= a@.len(),
            j <= b@.len(),
            left@ + unshared(a@.skip(i as int), b@.skip(j as int)) =~= unshared(a@, b@),
            right@ + unshared(b@.skip(j as int), a@.skip(i as int)) =~= unshared(b@, a@),
            common@ + shared(a@.skip(i as int), b@.skip(j as int)) =~= shared(a@, b@),
        decreases a@.len() - i + b@.len() - j,
    {
        proof {
            assert(a@.skip(i as int).skip(1) =~= a@.skip(i + 1));
            assert(b@.skip(j as int).skip(1) =~= b@.skip(j + 1));
        }
        if a[i] < b[j] {
            left.push(a[i]);
            i = i + 1;
        } else if b[j] < a[i] {
            right.push(b[j]);
            j = j + 1;
        } else {
            common.push(a[i]);
            i = i + 1;
            j = j + 1;
        }
    }
    proof {
        assert(a@.subrange(i as int, a@.len() as int) =~= a@.skip(i as int));
        assert(b@.subrange(j as int, b@.len() as int) =~= b@.skip(j as int));
    }
    left.extend_from_slice(&a[i..a.len()]);
    right.extend_from_slice(&b[j..b.len()]);
    (left, right, common)
}

/// Combine two queries under `op`, simplifying on the way.
pub fn and_or(q: Query, r: Query, op: Op) -> (c: Query)
    requires
        op == Op::And || op == Op::Or,
    ensures
        c@ == combine(q@, r@, op),
        q@.tidy() && r@.tidy() ==> c@.tidy(),
    decreases q@.weight() + r@.weight(),
{
    proof {
        if q@.tidy() && r@.tidy() {
            law_combine_sorted(q@, r@, op);
        }
        lemma_rewritten_weight(q@, op);
        lemma_rewritten_weight(r@, op);
    }
    let mut q = q.maybe_rewrite(op);
    let mut r = r.maybe_rewrite(op);
    let ghost (x, y) = (q@, r@);

    // Boolean simplification.
    if q.op == Op::Nothing || r.op == Op::Nothing {
        if op == Op::And {
            return Query::none();
        }
        return if q.op == Op::Nothing { r } else { q };
    }
    if q.op == Op::All || r.op == Op::All {
        if op == Op::Or {
            return Query::all();
        }
        return if q.op == Op::All { r } else { q };
    }

    // Both are And/Or now. If they match, or can be made to match, merge.
    let q_atom = q.is_atom();
    let r_atom = r.is_atom();
    if q.op == op && (r.op == op || r_atom) {
        q.trigrams = merge_sorted(&q.trigrams, &r.trigrams);
        q.subs.append(&mut r.subs);
        assert(q@.subs =~= x.subs + y.subs);
        return q;
    }
    if r.op == op && q_atom {
        r.trigrams = merge_sorted(&r.trigrams, &q.trigrams);
        assert(r@.subs =~= y.subs);
        return r;
    }
    if q_atom && r_atom {
        q.op = op;
        q.trigrams = merge_sorted(&q.trigrams, &r.trigrams);
        assert(q@.subs =~= seq![]);
        return q;
    }

    // If one matches the operator, add the other to it.
    if q.op == op {
        q.subs.push(r);
        assert(q@.subs =~= x.subs.push(y));
        return q;
    }
    if r.op == op {
        r.subs.push(q);
        assert(r@.subs =~= y.subs.push(x));
        return r;
    }

    // An And of Ors or an Or of Ands: factor out common trigrams.
    let (left, right, common) = partition(&q.trigrams, &r.trigrams);
    if common.len() > 0 {
        q.trigrams = left;
        r.trigrams = right;
        proof {
            assert(q@ =~= (Formula { trigrams: unshared(x.trigrams, y.trigrams), ..x }));
            assert(r@ =~= (Formula { trigrams: unshared(y.trigrams, x.trigrams), ..y }));
            lemma_unshared_len(x.trigrams, y.trigrams);
            lemma_unshared_len(y.trigrams, x.trigrams);
        }
        let inner = and_or(q, r, op);
        let outer = if op == Op::And { Op::Or } else { Op::And };
        let c = Query { op: outer, trigrams: common, subs: vec![inner] };
        assert(c@.subs =~= seq![inner@]);
        return c;
    }
    let c = Query { op, trigrams: Vec::new(), subs: vec![q, r] };
    assert(c@.trigrams =~= seq![]);
    assert(c@.subs =~= seq![x, y]);
    c
}

/// The parts one after the other, with `sep` between them.
pub open spec fn joined(parts: Seq<Seq<char>>, sep: Seq<char>) -> Seq<char>
    decreases parts.len(),
{
    if parts.len() == 0 {
        seq![]
    } else if parts.len() == 1 {
        parts[0]
    } else {
        joined(parts.drop_last(), sep) + sep + parts.last()
    }
}

/// The texts of trigrams.
pub open spec fn trigram_texts(trigrams: Seq<u32>) -> Seq<Seq<char>> {
    Seq::new(trigrams.len(), |i: int| lossy_text(tri_bytes(trigrams[i])))
}

impl Formula {
    /// What stands between trigrams, and between sub-queries.
    pub open spec fn separators(self) -> (Seq<char>, Seq<char>) {
        if self.op == Op::And {
            (" "@, " "@)
        } else {
            ("|"@, ")|("@)
        }
    }

    /// The texts of the sub-queries.
    pub open spec fn sub_texts(self) -> Seq<Seq<char>>
        decreases self, 0nat,
    {
        Seq::new(
            self.subs.len(),
            |i: int|
                if 0 <= i < self.subs.len() {
                    self.subs[i].text()
                } else {
                    arbitrary()
                },
        )
    }

    /// The query in words: `+` for `All`, `-` for `Nothing`, the parts of an
    /// `And` with spaces between them, and those of an `Or` in parentheses
    /// with bars.
    pub open spec fn text(self) -> Seq<char>
        decreases self, 1nat,
    {
        if self.op == Op::Nothing {
            "-"@
        } else if self.op == Op::All {
            "+"@
        } else if self.atom() {
            lossy_text(tri_bytes(self.trigrams[0]))
        } else {
            let (tjoin, sjoin) = self.separators();
            let inner = joined(trigram_texts(self.trigrams), tjoin) + (if self.subs.len() > 0
                && self.trigrams.len() > 0 {
                sjoin
            } else {
                seq![]
            }) + joined(self.sub_texts(), sjoin);
            if self.op == Op::And {
                inner
            } else {
                "("@ + inner + ")"@
            }
        }
    }
}

impl Query {
    /// The query in words.
    pub fn to_string(&self) -> (s: String)
        ensures
            s@ == self@.text(),
        decreases self,
    {
        if self.op == Op::Nothing {
            return "-".to_owned();
        }
        if self.op == Op::All {
            return "+".to_owned();
        }
        if self.is_atom() {
            return trigram::to_string(self.trigrams[0]);
        }
        let and = self.op == Op::And;
        let tjoin = if and { " " } else { "|" };
        let sjoin = if and { " " } else { ")|(" };
        let mut s = String::new();
        if !and {
            s.append("(");
        }
        let ghost start = s@;
        let ghost tparts = trigram_texts(self@.trigrams);
        let mut i: usize = 0;
        assert(start + joined(tparts.take(0), tjoin@) =~= start);
        while i < self.trigrams.len()
            invariant
                i <= self.trigrams@.len(),
                tparts == trigram_texts(self.trigrams@),
                s@ == start + joined(tparts.take(i as int), tjoin@),
            decreases self.trigrams@.len() - i,
        {
            proof {
                lemma_joined_step(tparts, i as int, tjoin@);
            }
            if i > 0 {
                s.append(tjoin);
            }
            s.append(&trigram::to_string(self.trigrams[i]));
            assert(s@ =~= start + joined(tparts.take(i + 1), tjoin@));
            i = i + 1;
        }
        assert(tparts.take(i as int) =~= tparts);
        if self.subs.len() > 0 && self.trigrams.len() > 0 {
            s.append(sjoin);
        }
        let ghost middle = s@;
        let ghost sparts = self@.sub_texts();
        let mut i: usize = 0;
        assert(middle + joined(sparts.take(0), sjoin@) =~= middle);
        while i < self.subs.len()
            invariant
                i <= self.subs@.len(),
                sparts.len() == self.subs@.len(),
                forall|k: int| 0 <= k < sparts.len() ==> sparts[k] == (#[trigger] self.subs@[k])@.text(),
                s@ == middle + joined(sparts.take(i as int), sjoin@),
            decreases self.subs@.len() - i,
        {
            proof {
                lemma_joined_step(sparts, i as int, sjoin@);
            }
            if i > 0 {
                s.append(sjoin);
            }
            let sub = self.subs[i].to_string();
            s.append(&sub);
            assert(s@ =~= middle + joined(sparts.take(i + 1), sjoin@));
            i = i + 1;
        }
        assert(sparts.take(i as int) =~= sparts);
        if !and {
            s.append(")");
        }
        proof {
            let inner = joined(tparts, tjoin@) + (if self.subs@.len() > 0 && self.trigrams@.len()
                > 0 {
                sjoin@
            } else {
                seq![]
            }) + joined(sparts, sjoin@);
            if and {
                assert(s@ =~= inner);
            } else {
                assert(s@ =~= "("@ + inner + ")"@);
            }
        }
        s
    }
}

proof fn lemma_joined_step(parts: Seq<Seq<char>>, i: int, sep: Seq<char>)
    requires
        0 <= i < parts.len(),
    ensures
        joined(parts.take(i + 1), sep) == if i == 0 {
            parts[0]
        } else {
            joined(parts.take(i), sep) + sep + parts[i]
        },
        i == 0 ==> joined(parts.take(i), sep) == Seq::<char>::empty(),
{
    assert(parts.take(i + 1).drop_last() =~= parts.take(i));
    assert(joined(parts.take(0), sep) =~= Seq::<char>::empty());
}

proof fn lemma_joined_sum(a: Seq<Seq<char>>, b: Seq<Seq<char>>, sep: Seq<char>)
    requires
        a.len() > 0,
        b.len() > 0,
    ensures
        joined(a + b, sep) == joined(a, sep) + sep + joined(b, sep),
    decreases b.len(),
{
    let all = a + b;
    assert(all.last() == b.last());
    if b.len() == 1 {
        assert(all.drop_last() =~= a);
    } else {
        lemma_joined_sum(a, b.drop_last(), sep);
        assert(all.drop_last() =~= a + b.drop_last());
        assert(joined(all, sep) =~= joined(a, sep) + sep + joined(b, sep));
    }
}

/// A conjunction of trigrams reads as its trigrams with spaces between them;
/// a disjunction in parentheses, with bars between them; a single trigram as
/// its three bytes.
pub proof fn law_query_text(a: Seq<u32>, b: Seq<u32>, t: u32)
    requires
        a.len() > 0,
        b.len() > 0,
    ensures
        always().text() == "+"@,
        never().text() == "-"@,
        each_of(seq![t]).text() == lossy_text(tri_bytes(t)),
        each_of(a + b).text() == each_of(a).text() + " "@ + each_of(b).text(),
        (Formula { op: Op::Or, trigrams: a + b, subs: seq![] }).text() == "("@ + joined(
            trigram_texts(a),
            "|"@,
        ) + "|"@ + joined(trigram_texts(b), "|"@) + ")"@,
{
    let none: Seq<Seq<char>> = seq![];
    let empty: Seq<char> = seq![];
    lemma_and_text(a);
    lemma_and_text(b);
    lemma_and_text(a + b);
    assert(trigram_texts(a + b) =~= trigram_texts(a) + trigram_texts(b));
    lemma_joined_sum(trigram_texts(a), trigram_texts(b), " "@);
    lemma_joined_sum(trigram_texts(a), trigram_texts(b), "|"@);
    let or = Formula { op: Op::Or, trigrams: a + b, subs: seq![] };
    assert(or.sub_texts() =~= none);
    let parts = joined(trigram_texts(a + b), "|"@);
    assert(or.text() =~= "("@ + (parts + empty + empty) + ")"@);
    assert("("@ + (parts + empty + empty) + ")"@ =~= "("@ + joined(trigram_texts(a), "|"@) + "|"@
        + joined(trigram_texts(b), "|"@) + ")"@);
}

proof fn lemma_and_text(ts: Seq<u32>)
    requires
        ts.len() > 0,
    ensures
        each_of(ts).text() == joined(trigram_texts(ts), " "@),
{
    let none: Seq<Seq<char>> = seq![];
    let empty: Seq<char> = seq![];
    let q = each_of(ts);
    assert(q.sub_texts() =~= none);
    let parts = joined(trigram_texts(ts), " "@);
    if ts.len() == 1 {
        assert(parts == trigram_texts(ts)[0]);
    } else {
        assert(q.text() =~= parts + empty + empty);
        assert(parts + empty + empty =~= parts);
    }
}

/// A conjunction reads as its trigrams and its sub-queries with spaces between
/// them. A disjunction reads as its trigrams with bars between them, and after
/// them its sub-queries in parentheses with bars between those.
pub proof fn law_nested_query_text(q: Formula)
    requires
        q.subs.len() > 0,
    ensures
        q.op == Op::And ==> q.text() == joined(
            trigram_texts(q.trigrams) + q.subs.map_values(|f: Formula| f.text()),
            " "@,
        ),
        q.op == Op::Or && q.trigrams.len() == 0 ==> q.text() == "("@ + joined(
            q.subs.map_values(|f: Formula| f.text()),
            ")|("@,
        ) + ")"@,
        q.op == Op::Or && q.trigrams.len() > 0 ==> q.text() == "("@ + joined(
            trigram_texts(q.trigrams),
            "|"@,
        ) + ")|("@ + joined(q.subs.map_values(|f: Formula| f.text()), ")|("@) + ")"@,
{
    let (ts, subs) = (trigram_texts(q.trigrams), q.subs.map_values(|f: Formula| f.text()));
    let empty: Seq<char> = seq![];
    assert(q.sub_texts() =~= subs);
    if q.op == Op::And {
        if ts.len() > 0 {
            lemma_joined_sum(ts, subs, " "@);
        } else {
            assert(ts + subs =~= subs);
            assert(empty + empty + joined(subs, " "@) =~= joined(subs, " "@));
        }
    }
    if q.op == Op::Or && q.trigrams.len() == 0 {
        assert(empty + empty + joined(subs, ")|("@) =~= joined(subs, ")|("@));
    }
    if q.op == Op::Or && q.trigrams.len() > 0 {
        let (t, u) = (joined(ts, "|"@), joined(subs, ")|("@));
        assert("("@ + (t + ")|("@ + u) + ")"@ =~= "("@ + t + ")|("@ + u + ")"@);
    }
}

} // verus!

//! Syntax trees of parsed formulas, and what it means for an arena expression to represent one.

use vstd::prelude::*;
use crate::arena::{expr_valid, extends, ids_valid, lemma_simplified_extends, simplified};
use crate::expr::{ExprId, ExprV};
use crate::var::{VarId, VarV};

verus! {

/// The syntax tree of a parsed formula.
pub enum Tree {
    /// A reference to the `k`-th leaf (counted from 1), negated if the flag is set.
    Ref(int, bool),
    /// A variable given by its name.
    Named(Seq<char>),
    /// A negation.
    Not(Box<Tree>),
    /// A conjunction.
    And(Seq<Tree>),
    /// A disjunction.
    Or(Seq<Tree>),
}

/// Whether every reference in a tree refers to one of `n` leaves.
pub open spec fn refs_ok(t: Tree, n: int) -> bool
    decreases t,
{
    match t {
        Tree::Ref(k, _) => 1 <= k <= n,
        Tree::Named(_) => true,
        Tree::Not(c) => refs_ok(*c, n),
        Tree::And(ts) => refs_all_ok(ts, n),
        Tree::Or(ts) => refs_all_ok(ts, n),
    }
}

/// Whether every reference in a list of trees refers to one of `n` leaves.
pub open spec fn refs_all_ok(ts: Seq<Tree>, n: int) -> bool
    decreases ts,
{
    if ts.len() == 0 {
        true
    } else {
        refs_all_ok(ts.drop_last(), n) && refs_ok(ts.last(), n)
    }
}

/// Whether the expression `id` represents the tree `t`, given the expressions of the leaves.
///
/// Each node is represented by the simplification (see `simplified`) of the corresponding
/// expression over the representations of its children; a named variable by a `Var` expression
/// of a variable with that name.
pub open spec fn realizes(ev: Seq<ExprV>, vv: Seq<VarV>, id: ExprId, t: Tree, leaves: Seq<ExprId>) -> bool
    decreases t,
{
    &&& id < ev.len()
    &&& match t {
        Tree::Ref(k, neg) => 1 <= k <= leaves.len() && if neg {
            simplified(ev, ExprV::Not(leaves[k - 1]), ev[id as int])
        } else {
            id == leaves[k - 1]
        },
        Tree::Named(name) => match ev[id as int] {
            ExprV::Var(v) => 0 <= v < vv.len() && vv[v as int] == VarV::Named(name),
            _ => false,
        },
        Tree::Not(c) => exists|ci: ExprId| #[trigger] simplified(ev, ExprV::Not(ci), ev[id as int]) && realizes(ev, vv, ci, *c, leaves),
        Tree::And(ts) => exists|cids: Seq<ExprId>| #[trigger] simplified(ev, ExprV::And(cids), ev[id as int]) && realizes_all(ev, vv, cids, ts, leaves),
        Tree::Or(ts) => exists|cids: Seq<ExprId>| #[trigger] simplified(ev, ExprV::Or(cids), ev[id as int]) && realizes_all(ev, vv, cids, ts, leaves),
    }
}

/// Whether the expressions `cids` represent the trees `ts`, one by one.
pub open spec fn realizes_all(ev: Seq<ExprV>, vv: Seq<VarV>, cids: Seq<ExprId>, ts: Seq<Tree>, leaves: Seq<ExprId>) -> bool
    decreases ts,
{
    &&& cids.len() == ts.len()
    &&& (ts.len() == 0 || (realizes_all(ev, vv, cids.drop_last(), ts.drop_last(), leaves)
        && realizes(ev, vv, cids.last(), ts.last(), leaves)))
}

/// The representing expression exists.
pub proof fn lemma_realizes_valid(ev: Seq<ExprV>, vv: Seq<VarV>, id: ExprId, t: Tree, leaves: Seq<ExprId>)
    requires
        realizes(ev, vv, id, t, leaves),
    ensures
        id < ev.len(),
{
}

/// Every identifier in a representation refers to an existing expression.
pub proof fn lemma_realizes_all_valid(ev: Seq<ExprV>, vv: Seq<VarV>, cids: Seq<ExprId>, ts: Seq<Tree>, leaves: Seq<ExprId>)
    requires
        realizes_all(ev, vv, cids, ts, leaves),
    ensures
        ids_valid(cids, ev.len()),
    decreases ts.len(),
{
    if ts.len() > 0 {
        lemma_realizes_all_valid(ev, vv, cids.drop_last(), ts.drop_last(), leaves);
        lemma_realizes_valid(ev, vv, cids.last(), ts.last(), leaves);
        assert forall|i: int| 0 <= i < cids.len() implies #[trigger] cids[i] < ev.len() by {
            if i < cids.len() - 1 {
                assert(cids.drop_last()[i] == cids[i]);
            } else {
                assert(cids.last() == cids[i]);
            }
        }
    }
}

/// Appending one representation to a list of representations.
pub proof fn lemma_realizes_all_push(ev: Seq<ExprV>, vv: Seq<VarV>, cids: Seq<ExprId>, ts: Seq<Tree>, leaves: Seq<ExprId>, c: ExprId, t: Tree)
    requires
        realizes_all(ev, vv, cids, ts, leaves),
        realizes(ev, vv, c, t, leaves),
    ensures
        realizes_all(ev, vv, cids.push(c), ts.push(t), leaves),
{
    assert(cids.push(c).drop_last() =~= cids);
    assert(ts.push(t).drop_last() =~= ts);
}

/// Representations stay valid when the arena only grows.
pub proof fn lemma_realizes_extends(ev1: Seq<ExprV>, ev2: Seq<ExprV>, vv1: Seq<VarV>, vv2: Seq<VarV>, id: ExprId, t: Tree, leaves: Seq<ExprId>)
    requires
        extends(ev2, ev1),
        extends(vv2, vv1),
        forall|i: int| 0 <= i < ev1.len() ==> expr_valid(#[trigger] ev1[i], ev1.len(), vv1.len()),
        ids_valid(leaves, ev1.len()),
        realizes(ev1, vv1, id, t, leaves),
    ensures
        realizes(ev2, vv2, id, t, leaves),
    decreases t,
{
    assert(ev2[id as int] == ev1[id as int]);
    match t {
        Tree::Ref(k, neg) => {
            if neg {
                lemma_simplified_extends(ev1, ev2, ExprV::Not(leaves[k - 1]), ev1[id as int], vv1.len());
            }
        },
        Tree::Named(name) => {
            if let ExprV::Var(v) = ev1[id as int] {
                assert(vv2[v as int] == vv1[v as int]);
            }
        },
        Tree::Not(c) => {
            let ci = choose|ci: ExprId| #[trigger] simplified(ev1, ExprV::Not(ci), ev1[id as int]) && realizes(ev1, vv1, ci, *c, leaves);
            lemma_realizes_extends(ev1, ev2, vv1, vv2, ci, *c, leaves);
            lemma_simplified_extends(ev1, ev2, ExprV::Not(ci), ev1[id as int], vv1.len());
            assert(simplified(ev2, ExprV::Not(ci), ev2[id as int]));
        },
        Tree::And(ts) => {
            let cids = choose|cids: Seq<ExprId>| #[trigger] simplified(ev1, ExprV::And(cids), ev1[id as int]) && realizes_all(ev1, vv1, cids, ts, leaves);
            lemma_realizes_all_extends(ev1, ev2, vv1, vv2, cids, ts, leaves);
            lemma_realizes_all_valid(ev1, vv1, cids, ts, leaves);
            lemma_simplified_extends(ev1, ev2, ExprV::And(cids), ev1[id as int], vv1.len());
            assert(simplified(ev2, ExprV::And(cids), ev2[id as int]));
        },
        Tree::Or(ts) => {
            let cids = choose|cids: Seq<ExprId>| #[trigger] simplified(ev1, ExprV::Or(cids), ev1[id as int]) && realizes_all(ev1, vv1, cids, ts, leaves);
            lemma_realizes_all_extends(ev1, ev2, vv1, vv2, cids, ts, leaves);
            lemma_realizes_all_valid(ev1, vv1, cids, ts, leaves);
            lemma_simplified_extends(ev1, ev2, ExprV::Or(cids), ev1[id as int], vv1.len());
            assert(simplified(ev2, ExprV::Or(cids), ev2[id as int]));
        },
    }
}

/// Lists of representations stay valid when the arena only grows.
pub proof fn lemma_realizes_all_extends(ev1: Seq<ExprV>, ev2: Seq<ExprV>, vv1: Seq<VarV>, vv2: Seq<VarV>, cids: Seq<ExprId>, ts: Seq<Tree>, leaves: Seq<ExprId>)
    requires
        extends(ev2, ev1),
        extends(vv2, vv1),
        forall|i: int| 0 <= i < ev1.len() ==> expr_valid(#[trigger] ev1[i], ev1.len(), vv1.len()),
        ids_valid(leaves, ev1.len()),
        realizes_all(ev1, vv1, cids, ts, leaves),
    ensures
        realizes_all(ev2, vv2, cids, ts, leaves),
    decreases ts,
{
    if ts.len() > 0 {
        lemma_realizes_all_extends(ev1, ev2, vv1, vv2, cids.drop_last(), ts.drop_last(), leaves);
        lemma_realizes_extends(ev1, ev2, vv1, vv2, cids.last(), ts.last(), leaves);
    }
}

/// Prepending one representation to a list of representations.
pub proof fn lemma_realizes_all_cons(ev: Seq<ExprV>, vv: Seq<VarV>, c: ExprId, t: Tree, cids: Seq<ExprId>, ts: Seq<Tree>, leaves: Seq<ExprId>)
    requires
        realizes(ev, vv, c, t, leaves),
        realizes_all(ev, vv, cids, ts, leaves),
    ensures
        realizes_all(ev, vv, seq![c] + cids, seq![t] + ts, leaves),
    decreases ts.len(),
{
    if ts.len() == 0 {
        assert(realizes_all(ev, vv, Seq::<ExprId>::empty(), Seq::<Tree>::empty(), leaves));
        lemma_realizes_all_push(ev, vv, Seq::<ExprId>::empty(), Seq::<Tree>::empty(), leaves, c, t);
        assert(seq![c] + cids =~= Seq::<ExprId>::empty().push(c));
        assert(seq![t] + ts =~= Seq::<Tree>::empty().push(t));
    } else {
        lemma_realizes_all_cons(ev, vv, c, t, cids.drop_last(), ts.drop_last(), leaves);
        assert((seq![c] + cids).drop_last() =~= seq![c] + cids.drop_last());
        assert((seq![t] + ts).drop_last() =~= seq![t] + ts.drop_last());
        assert((seq![c] + cids).last() == cids.last());
        assert((seq![t] + ts).last() == ts.last());
    }
}

} // verus!

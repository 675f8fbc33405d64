//! The truth value of expressions under an assignment of their variables, and what it means
//! for a change of an arena to keep the meaning of its expressions.

use vstd::prelude::*;
use crate::arena::{Arena, canonical_children, expr_valid, extends, flattened, ids_valid, simp_children, simplified};
use crate::expr::{ExprId, ExprV, children};
use crate::var::VarId;

verus! {

/// The truth value of an expression under an assignment of its variables, given the truth values
/// of the expressions it refers to.
pub open spec fn node_value(e: ExprV, value: spec_fn(ExprId) -> bool, assignment: spec_fn(VarId) -> bool) -> bool {
    match e {
        ExprV::Var(v) => assignment(v),
        ExprV::Not(c) => !value(c),
        ExprV::And(cs) => all_true(value, cs),
        ExprV::Or(cs) => some_true(value, cs),
    }
}

/// Whether all of the expressions `cs` are true.
pub open spec fn all_true(value: spec_fn(ExprId) -> bool, cs: Seq<ExprId>) -> bool {
    forall|i: int| 0 <= i < cs.len() ==> #[trigger] value(cs[i])
}

/// Whether some of the expressions `cs` is true.
pub open spec fn some_true(value: spec_fn(ExprId) -> bool, cs: Seq<ExprId>) -> bool {
    exists|i: int| 0 <= i < cs.len() && #[trigger] value(cs[i])
}

/// Whether `value` gives each expression of an arena the truth value of that expression under an
/// assignment (given the values of the expressions it refers to).
pub open spec fn evaluates(ev: Seq<ExprV>, value: spec_fn(ExprId) -> bool, assignment: spec_fn(VarId) -> bool) -> bool {
    forall|x: ExprId| x < ev.len() ==> #[trigger] value(x) == node_value(ev[x as int], value, assignment)
}

/// Whether two truth valuations agree on the expressions below `n`.
pub open spec fn agrees(value2: spec_fn(ExprId) -> bool, value: spec_fn(ExprId) -> bool, n: nat) -> bool {
    forall|x: ExprId| x < n ==> #[trigger] value2(x) == value(x)
}

/// Whether two assignments agree on the variables below `n`.
pub open spec fn agree_on(assignment1: spec_fn(VarId) -> bool, assignment2: spec_fn(VarId) -> bool, n: nat) -> bool {
    forall|x: VarId| 0 <= x < n ==> #[trigger] assignment1(x) == assignment2(x)
}

/// Whether two assignments agree on the variables in `s`.
pub open spec fn agree_on_set(assignment1: spec_fn(VarId) -> bool, assignment2: spec_fn(VarId) -> bool, s: Set<VarId>) -> bool {
    forall|x: VarId| #[trigger] s.contains(x) ==> assignment1(x) == assignment2(x)
}

/// Whether the expressions `new_ev` keep the meaning of the expressions `old_ev`: every truth
/// valuation that is consistent with `old_ev` under an assignment of the variables extends to
/// one that is consistent with `new_ev` under the same assignment.
pub open spec fn keeps_meaning(new_ev: Seq<ExprV>, old_ev: Seq<ExprV>) -> bool {
    forall|value: spec_fn(ExprId) -> bool, assignment: spec_fn(VarId) -> bool|
        #[trigger] evaluates(old_ev, value, assignment) ==> exists|value2: spec_fn(ExprId) -> bool|
            #[trigger] evaluates(new_ev, value2, assignment) && agrees(value2, value, old_ev.len())
}

/// Whether expression `new_root` of `new_ev` means what expression `old_root` of `old_ev` means:
/// every truth valuation that is consistent with `old_ev` under an assignment of the variables
/// has a counterpart that is consistent with `new_ev`, and gives `new_root` the value of `old_root`.
pub open spec fn same_meaning(new_ev: Seq<ExprV>, new_root: ExprId, old_ev: Seq<ExprV>, old_root: ExprId) -> bool {
    forall|value: spec_fn(ExprId) -> bool, assignment: spec_fn(VarId) -> bool|
        #[trigger] evaluates(old_ev, value, assignment) ==> exists|value2: spec_fn(ExprId) -> bool|
            #[trigger] evaluates(new_ev, value2, assignment) && value2(new_root) == value(old_root)
}

/// The valuation that keeps `value` below `n` and evaluates the expressions of `ev` from `n` on
/// with the values of `value`.
pub open spec fn extended_value(ev: Seq<ExprV>, n: nat, value: spec_fn(ExprId) -> bool, assignment: spec_fn(VarId) -> bool) -> spec_fn(ExprId) -> bool {
    |x: ExprId| if x < n { value(x) } else { node_value(ev[x as int], value, assignment) }
}

/// Whether the expressions of `ev` from `n` on only refer to expressions below `n`.
pub open spec fn new_below(ev: Seq<ExprV>, n: nat, n_vars: nat) -> bool {
    forall|x: int| n <= x < ev.len() ==> expr_valid(#[trigger] ev[x], n, n_vars)
}

/// Whether all expressions of `ev` only refer to expressions of `ev`.
pub open spec fn all_valid(ev: Seq<ExprV>, n_vars: nat) -> bool {
    forall|i: int| 0 <= i < ev.len() ==> expr_valid(#[trigger] ev[i], ev.len(), n_vars)
}

/// The truth value of an expression only depends on the values of the expressions it refers to.
pub proof fn lemma_node_value_agrees(e: ExprV, value1: spec_fn(ExprId) -> bool, value2: spec_fn(ExprId) -> bool,
    assignment: spec_fn(VarId) -> bool, n: nat, n_vars: nat)
    requires
        expr_valid(e, n, n_vars),
        agrees(value1, value2, n),
    ensures
        node_value(e, value1, assignment) == node_value(e, value2, assignment),
{
    match e {
        ExprV::Var(_) => {},
        ExprV::Not(c) => {
            assert(value1(c) == value2(c));
        },
        ExprV::And(cs) => {
            lemma_all_some_agree(cs, value1, value2, n);
        },
        ExprV::Or(cs) => {
            lemma_all_some_agree(cs, value1, value2, n);
        },
    }
}

proof fn lemma_all_some_agree(cs: Seq<ExprId>, value1: spec_fn(ExprId) -> bool, value2: spec_fn(ExprId) -> bool, n: nat)
    requires
        crate::arena::ids_valid(cs, n),
        agrees(value1, value2, n),
    ensures
        all_true(value1, cs) == all_true(value2, cs),
        some_true(value1, cs) == some_true(value2, cs),
{
    assert forall|i: int| 0 <= i < cs.len() implies value1(#[trigger] cs[i]) == value2(cs[i]) by {
        assert(cs[i] < n);
    }
    lemma_pointwise_values(cs, value1, value2);
}

/// A valuation that is consistent with expressions is consistent with a prefix of them.
pub proof fn lemma_evaluates_prefix(long: Seq<ExprV>, short: Seq<ExprV>, value: spec_fn(ExprId) -> bool, assignment: spec_fn(VarId) -> bool)
    requires
        extends(long, short),
        evaluates(long, value, assignment),
    ensures
        evaluates(short, value, assignment),
{
    assert forall|x: ExprId| x < short.len() implies #[trigger] value(x) == node_value(short[x as int], value, assignment) by {
        assert(long[x as int] == short[x as int]);
    }
}

/// Appending expressions that only refer to existing ones keeps the meaning of the existing ones:
/// the valuation extended to the new expressions is consistent with all of them.
pub proof fn lemma_extended_value(old_ev: Seq<ExprV>, ev: Seq<ExprV>, n_vars: nat, value: spec_fn(ExprId) -> bool, assignment: spec_fn(VarId) -> bool)
    requires
        all_valid(old_ev, n_vars),
        extends(ev, old_ev),
        new_below(ev, old_ev.len(), n_vars),
        evaluates(old_ev, value, assignment),
    ensures
        evaluates(ev, extended_value(ev, old_ev.len(), value, assignment), assignment),
        agrees(extended_value(ev, old_ev.len(), value, assignment), value, old_ev.len()),
{
    let value2 = extended_value(ev, old_ev.len(), value, assignment);
    assert(agrees(value2, value, old_ev.len()));
    assert forall|x: ExprId| x < ev.len() implies #[trigger] value2(x) == node_value(ev[x as int], value2, assignment) by {
        if x < old_ev.len() {
            assert(ev[x as int] == old_ev[x as int]);
            assert(expr_valid(old_ev[x as int], old_ev.len(), n_vars));
            lemma_node_value_agrees(ev[x as int], value2, value, assignment, old_ev.len(), n_vars);
        } else {
            assert(expr_valid(ev[x as int], old_ev.len(), n_vars));
            lemma_node_value_agrees(ev[x as int], value2, value, assignment, old_ev.len(), n_vars);
        }
    }
}

/// Replacing an expression by one with the same truth value keeps a valuation consistent.
pub proof fn lemma_update_evaluates(ev: Seq<ExprV>, id: ExprId, out: ExprV, value: spec_fn(ExprId) -> bool, assignment: spec_fn(VarId) -> bool)
    requires
        evaluates(ev, value, assignment),
        id < ev.len(),
        node_value(out, value, assignment) == value(id),
    ensures
        evaluates(ev.update(id as int, out), value, assignment),
{
    let ev2 = ev.update(id as int, out);
    assert forall|x: ExprId| x < ev2.len() implies #[trigger] value(x) == node_value(ev2[x as int], value, assignment) by {
        if x != id {
            assert(ev2[x as int] == ev[x as int]);
        }
    }
}

/// Leaving the expressions as they are keeps their meaning.
pub proof fn lemma_keeps_meaning_refl(ev: Seq<ExprV>)
    ensures
        keeps_meaning(ev, ev),
{
    assert forall|value: spec_fn(ExprId) -> bool, assignment: spec_fn(VarId) -> bool|
        #[trigger] evaluates(ev, value, assignment) implies exists|value2: spec_fn(ExprId) -> bool|
            #[trigger] evaluates(ev, value2, assignment) && agrees(value2, value, ev.len()) by {
        assert(agrees(value, value, ev.len()));
    }
}

/// Keeping the meaning is transitive.
pub proof fn lemma_keeps_meaning_trans(a: Seq<ExprV>, b: Seq<ExprV>, c: Seq<ExprV>)
    requires
        keeps_meaning(b, a),
        keeps_meaning(c, b),
        b.len() >= a.len(),
    ensures
        keeps_meaning(c, a),
{
    assert forall|value: spec_fn(ExprId) -> bool, assignment: spec_fn(VarId) -> bool|
        #[trigger] evaluates(a, value, assignment) implies exists|value3: spec_fn(ExprId) -> bool|
            #[trigger] evaluates(c, value3, assignment) && agrees(value3, value, a.len()) by {
        let value2 = choose|value2: spec_fn(ExprId) -> bool| #[trigger] evaluates(b, value2, assignment) && agrees(value2, value, a.len());
        let value3 = choose|value3: spec_fn(ExprId) -> bool| #[trigger] evaluates(c, value3, assignment) && agrees(value3, value2, b.len());
        assert(agrees(value3, value, a.len())) by {
            assert forall|x: ExprId| x < a.len() implies #[trigger] value3(x) == value(x) by {
                assert(value3(x) == value2(x));
                assert(value2(x) == value(x));
            }
        }
    }
}

/// When the expressions keep their meaning, an expression means what another one meant before
/// if it is stored equal to that one.
pub proof fn lemma_same_meaning(new_ev: Seq<ExprV>, new_root: ExprId, old_ev: Seq<ExprV>, old_root: ExprId)
    requires
        keeps_meaning(new_ev, old_ev),
        old_root < old_ev.len(),
        old_ev.len() <= new_ev.len(),
        new_root < new_ev.len(),
        new_ev[new_root as int] == new_ev[old_root as int],
    ensures
        same_meaning(new_ev, new_root, old_ev, old_root),
{
    assert forall|value: spec_fn(ExprId) -> bool, assignment: spec_fn(VarId) -> bool|
        #[trigger] evaluates(old_ev, value, assignment) implies exists|value2: spec_fn(ExprId) -> bool|
            #[trigger] evaluates(new_ev, value2, assignment) && value2(new_root) == value(old_root) by {
        let value2 = choose|value2: spec_fn(ExprId) -> bool| #[trigger] evaluates(new_ev, value2, assignment) && agrees(value2, value, old_ev.len());
        assert(value2(new_root) == node_value(new_ev[new_root as int], value2, assignment));
        assert(value2(old_root) == node_value(new_ev[old_root as int], value2, assignment));
        assert(value2(old_root) == value(old_root));
    }
}

/// Lists whose members have pairwise the same truth values have the same conjunction and disjunction.
proof fn lemma_pointwise(cs: Seq<ExprId>, ds: Seq<ExprId>, value: spec_fn(ExprId) -> bool)
    requires
        cs.len() == ds.len(),
        forall|i: int| 0 <= i < cs.len() ==> #[trigger] value(cs[i]) == value(ds[i]),
    ensures
        all_true(value, cs) == all_true(value, ds),
        some_true(value, cs) == some_true(value, ds),
{
    if some_true(value, cs) {
        let i = choose|i: int| 0 <= i < cs.len() && #[trigger] value(cs[i]);
        assert(value(ds[i]));
    }
    if some_true(value, ds) {
        let i = choose|i: int| 0 <= i < ds.len() && #[trigger] value(ds[i]);
        assert(value(cs[i]) == value(ds[i]));
    }
    if all_true(value, cs) {
        assert forall|i: int| 0 <= i < ds.len() implies #[trigger] value(ds[i]) by {
            assert(value(cs[i]));
        }
    }
    if all_true(value, ds) {
        assert forall|i: int| 0 <= i < cs.len() implies #[trigger] value(cs[i]) by {
            assert(value(cs[i]) == value(ds[i]));
        }
    }
}

/// Re-storing an expression as `Arena::set_expr` does keeps its truth value: the canonical
/// identifier of a child has the value of the child, and flattening and simplification keep the value.
pub proof fn lemma_restored_value(a: &Arena, e: ExprV, c: ExprV, out: ExprV,
    value: spec_fn(ExprId) -> bool, assignment: spec_fn(VarId) -> bool)
    requires
        a.wf(),
        expr_valid(e, a.ev().len(), a.vars@.len()),
        a.canonicalized(e, c),
        expr_valid(c, a.ev().len(), a.vars@.len()),
        expr_valid(flattened(a.ev(), c), a.ev().len(), a.vars@.len()),
        simplified(a.ev(), flattened(a.ev(), c), out),
        evaluates(a.ev(), value, assignment),
    ensures
        node_value(out, value, assignment) == node_value(e, value, assignment),
{
    let ev = a.ev();
    assert(all_valid(ev, a.vars@.len())) by {
        assert forall|i: int| 0 <= i < ev.len() implies expr_valid(#[trigger] ev[i], ev.len(), a.vars@.len()) by {
            assert(ev[i] == a.exprs@[i]@);
        }
    }
    crate::laws::law_simplification_preserves_meaning(ev, a.vars@.len(), flattened(ev, c), out, value, assignment);
    crate::laws::law_flattening_preserves_meaning(ev, a.vars@.len(), c, value, assignment);
    match e {
        ExprV::Var(_) => {},
        ExprV::Not(x) => {
            a.lemma_canon_id(x);
            assert(value(a.canon_id(x)) == node_value(ev[a.canon_id(x) as int], value, assignment));
            assert(value(x) == node_value(ev[x as int], value, assignment));
        },
        ExprV::And(xs) => {
            let ys = xs.map_values(|x: ExprId| a.canon_id(x));
            assert forall|i: int| 0 <= i < xs.len() implies #[trigger] value(xs[i]) == value(ys[i]) by {
                a.lemma_canon_id(xs[i]);
                assert(value(ys[i]) == node_value(ev[ys[i] as int], value, assignment));
                assert(value(xs[i]) == node_value(ev[xs[i] as int], value, assignment));
            }
            lemma_pointwise(xs, ys, value);
        },
        ExprV::Or(xs) => {
            let ys = xs.map_values(|x: ExprId| a.canon_id(x));
            assert forall|i: int| 0 <= i < xs.len() implies #[trigger] value(xs[i]) == value(ys[i]) by {
                a.lemma_canon_id(xs[i]);
                assert(value(ys[i]) == node_value(ev[ys[i] as int], value, assignment));
                assert(value(xs[i]) == node_value(ev[xs[i] as int], value, assignment));
            }
            lemma_pointwise(xs, ys, value);
        },
    }
}

/// The simplification of an expression only refers to expressions below `m` if the expression does
/// and the expressions below `m` do.
pub proof fn lemma_simplified_valid(ev: Seq<ExprV>, e: ExprV, out: ExprV, m: nat, n_vars: nat)
    requires
        m <= ev.len(),
        forall|i: int| 0 <= i < m ==> expr_valid(#[trigger] ev[i], m, n_vars),
        expr_valid(e, m, n_vars),
        simplified(ev, e, out),
    ensures
        expr_valid(out, m, n_vars),
{
    match e {
        ExprV::Var(_) => {},
        ExprV::Not(c) => {
            assert(expr_valid(ev[c as int], m, n_vars));
            if let ExprV::Not(g) = ev[c as int] {
                assert(expr_valid(ev[g as int], m, n_vars));
            }
        },
        ExprV::And(cs) => {
            let ds = choose|ds: Seq<ExprId>| #[trigger] canonical_children(ev, cs, ds) && out == simp_children(ev, ds, true);
            lemma_simp_children_valid(ev, cs, ds, true, m, n_vars);
        },
        ExprV::Or(cs) => {
            let ds = choose|ds: Seq<ExprId>| #[trigger] canonical_children(ev, cs, ds) && out == simp_children(ev, ds, false);
            lemma_simp_children_valid(ev, cs, ds, false, m, n_vars);
        },
    }
}

proof fn lemma_simp_children_valid(ev: Seq<ExprV>, cs: Seq<ExprId>, ds: Seq<ExprId>, is_and: bool, m: nat, n_vars: nat)
    requires
        m <= ev.len(),
        forall|i: int| 0 <= i < m ==> expr_valid(#[trigger] ev[i], m, n_vars),
        ids_valid(cs, m),
        canonical_children(ev, cs, ds),
    ensures
        expr_valid(simp_children(ev, ds, is_and), m, n_vars),
{
    assert forall|j: int| 0 <= j < ds.len() implies #[trigger] ds[j] < m by {
        assert(ds.contains(ds[j]));
        let k = choose|k: int| 0 <= k < cs.len() && cs[k] == ds[j];
    }
    if ds.len() == 1 {
        assert(expr_valid(ev[ds[0] as int], m, n_vars));
    }
}

/// Re-storing an expression `e` at `id` (as `Arena::set_expr` does, from `a0` to `a1`) keeps a
/// valuation consistent if `e` has the value of the expression it replaces.
pub proof fn lemma_restore_evaluates(a0: &Arena, a1: &Arena, id: ExprId, e: ExprV,
    value: spec_fn(ExprId) -> bool, assignment: spec_fn(VarId) -> bool)
    requires
        a0.wf(),
        id < a0.ev().len(),
        expr_valid(e, a0.exprs@.len(), a0.vars@.len()),
        a0.ev()[id as int] is Var ==> *a1 == *a0,
        !(a0.ev()[id as int] is Var) ==> exists|c: ExprV| #[trigger] a0.canonicalized(e, c)
            && expr_valid(c, a0.exprs@.len(), a0.vars@.len())
            && expr_valid(flattened(a0.ev(), c), a0.exprs@.len(), a0.vars@.len())
            && simplified(a0.ev(), flattened(a0.ev(), c), a1.ev()[id as int])
            && a1.ev() == a0.ev().update(id as int, a1.ev()[id as int]),
        evaluates(a0.ev(), value, assignment),
        node_value(e, value, assignment) == value(id),
    ensures
        evaluates(a1.ev(), value, assignment),
{
    if !(a0.ev()[id as int] is Var) {
        let c = choose|c: ExprV| #[trigger] a0.canonicalized(e, c)
            && expr_valid(c, a0.exprs@.len(), a0.vars@.len())
            && expr_valid(flattened(a0.ev(), c), a0.exprs@.len(), a0.vars@.len())
            && simplified(a0.ev(), flattened(a0.ev(), c), a1.ev()[id as int])
            && a1.ev() == a0.ev().update(id as int, a1.ev()[id as int]);
        lemma_restored_value(a0, e, c, a1.ev()[id as int], value, assignment);
        lemma_update_evaluates(a0.ev(), id, a1.ev()[id as int], value, assignment);
    }
}

/// The expressions of a well-formed arena only refer to expressions of the arena.
pub proof fn lemma_wf_all_valid(a: &Arena)
    requires
        a.wf(),
    ensures
        all_valid(a.ev(), a.vars@.len()),
{
    assert forall|i: int| 0 <= i < a.ev().len() implies expr_valid(#[trigger] a.ev()[i], a.ev().len(), a.vars@.len()) by {
        assert(a.ev()[i] == a.exprs@[i]@);
    }
}

/// An expression stored (as `Arena::expr` does) as the simplification of `e` has the truth value of `e`.
pub proof fn lemma_stored_value(ev_old: Seq<ExprV>, ev: Seq<ExprV>, n_vars: nat, e: ExprV, x: ExprId,
    value: spec_fn(ExprId) -> bool, assignment: spec_fn(VarId) -> bool)
    requires
        all_valid(ev_old, n_vars),
        expr_valid(e, ev_old.len(), n_vars),
        extends(ev, ev_old),
        x < ev.len(),
        simplified(ev_old, e, ev[x as int]),
        evaluates(ev, value, assignment),
    ensures
        value(x) == node_value(e, value, assignment),
{
    lemma_evaluates_prefix(ev, ev_old, value, assignment);
    crate::laws::law_simplification_preserves_meaning(ev_old, n_vars, e, ev[x as int], value, assignment);
}

/// A conjunction (disjunction) of two expressions is true if both are (one is).
pub proof fn lemma_pair_value(value: spec_fn(ExprId) -> bool, a: ExprId, b: ExprId)
    ensures
        all_true(value, seq![a, b]) == (value(a) && value(b)),
        some_true(value, seq![a, b]) == (value(a) || value(b)),
{
    let s = seq![a, b];
    assert(s[0] == a && s[1] == b);
    if value(a) {
        assert(0 <= 0 < s.len() && value(s[0]));
    }
    if value(b) {
        assert(0 <= 1 < s.len() && value(s[1]));
    }
    if value(a) && value(b) {
        assert forall|i: int| 0 <= i < s.len() implies #[trigger] value(s[i]) by {
            if i == 0 { } else { assert(i == 1); }
        }
    }
}

/// A conjunction with one more member is true if the conjunction and the member are.
pub proof fn lemma_all_true_push(value: spec_fn(ExprId) -> bool, cs: Seq<ExprId>, x: ExprId)
    ensures
        all_true(value, cs.push(x)) == (all_true(value, cs) && value(x)),
{
    let s = cs.push(x);
    assert(s[cs.len() as int] == x);
    if all_true(value, s) {
        assert forall|i: int| 0 <= i < cs.len() implies #[trigger] value(cs[i]) by {
            assert(s[i] == cs[i]);
            assert(value(s[i]));
        }
        assert(value(s[cs.len() as int]));
    }
    if all_true(value, cs) && value(x) {
        assert forall|i: int| 0 <= i < s.len() implies #[trigger] value(s[i]) by {
            if i < cs.len() {
                assert(s[i] == cs[i]);
            }
        }
    }
}

/// Whether `rank`, below `bound` on all expressions, decreases from every expression to each
/// expression it refers to; an arena with such a rank has no expression that refers to itself,
/// directly or through others.
pub open spec fn ranked(ev: Seq<ExprV>, rank: spec_fn(ExprId) -> nat, bound: nat) -> bool {
    &&& forall|x: ExprId| x < ev.len() ==> #[trigger] rank(x) < bound
    &&& forall|x: ExprId, i: int| x < ev.len() && 0 <= i < children(ev[x as int]).len()
        ==> children(ev[x as int])[i] < ev.len() && rank(#[trigger] children(ev[x as int])[i]) < rank(x)
}

/// The truth values obtained by evaluating every expression `k` times, starting from false.
pub open spec fn level_value(ev: Seq<ExprV>, assignment: spec_fn(VarId) -> bool, k: nat) -> spec_fn(ExprId) -> bool
    decreases k,
{
    if k == 0 {
        |x: ExprId| false
    } else {
        let prev = level_value(ev, assignment, (k - 1) as nat);
        |x: ExprId| node_value(ev[x as int], prev, assignment)
    }
}

/// The truth value of an expression only depends on the values of its children.
proof fn lemma_node_value_children(e: ExprV, value1: spec_fn(ExprId) -> bool, value2: spec_fn(ExprId) -> bool,
    assignment: spec_fn(VarId) -> bool)
    requires
        forall|i: int| 0 <= i < children(e).len() ==> value1(#[trigger] children(e)[i]) == value2(children(e)[i]),
    ensures
        node_value(e, value1, assignment) == node_value(e, value2, assignment),
{
    match e {
        ExprV::Var(_) => {},
        ExprV::Not(c) => {
            assert(children(e)[0] == c);
        },
        ExprV::And(cs) => {
            assert forall|i: int| 0 <= i < cs.len() implies value1(#[trigger] cs[i]) == value2(cs[i]) by {
                assert(children(e)[i] == cs[i]);
            }
            lemma_pointwise_values(cs, value1, value2);
        },
        ExprV::Or(cs) => {
            assert forall|i: int| 0 <= i < cs.len() implies value1(#[trigger] cs[i]) == value2(cs[i]) by {
                assert(children(e)[i] == cs[i]);
            }
            lemma_pointwise_values(cs, value1, value2);
        },
    }
}

proof fn lemma_pointwise_values(cs: Seq<ExprId>, value1: spec_fn(ExprId) -> bool, value2: spec_fn(ExprId) -> bool)
    requires
        forall|i: int| 0 <= i < cs.len() ==> value1(#[trigger] cs[i]) == value2(cs[i]),
    ensures
        all_true(value1, cs) == all_true(value2, cs),
        some_true(value1, cs) == some_true(value2, cs),
{
    if some_true(value1, cs) {
        let i = choose|i: int| 0 <= i < cs.len() && #[trigger] value1(cs[i]);
        assert(value2(cs[i]));
    }
    if some_true(value2, cs) {
        let i = choose|i: int| 0 <= i < cs.len() && #[trigger] value2(cs[i]);
        assert(value1(cs[i]));
    }
    if all_true(value1, cs) {
        assert forall|i: int| 0 <= i < cs.len() implies #[trigger] value2(cs[i]) by {
            assert(value1(cs[i]));
        }
    }
    if all_true(value2, cs) {
        assert forall|i: int| 0 <= i < cs.len() implies #[trigger] value1(cs[i]) by {
            assert(value2(cs[i]));
        }
    }
}

/// Evaluating once more does not change the value of an expression whose rank is below `k`.
proof fn lemma_level_stable(ev: Seq<ExprV>, rank: spec_fn(ExprId) -> nat, bound: nat, assignment: spec_fn(VarId) -> bool, k: nat)
    requires
        ranked(ev, rank, bound),
    ensures
        forall|x: ExprId| x < ev.len() && rank(x) < k ==>
            #[trigger] level_value(ev, assignment, k)(x) == level_value(ev, assignment, k + 1)(x),
    decreases k,
{
    if k > 0 {
        lemma_level_stable(ev, rank, bound, assignment, (k - 1) as nat);
        let prev = level_value(ev, assignment, (k - 1) as nat);
        let cur = level_value(ev, assignment, k);
        let next = level_value(ev, assignment, k + 1);
        assert forall|x: ExprId| x < ev.len() && rank(x) < k implies #[trigger] cur(x) == next(x) by {
            let e = ev[x as int];
            assert forall|i: int| 0 <= i < children(e).len() implies prev(#[trigger] children(e)[i]) == cur(children(e)[i]) by {
                let c = children(e)[i];
                assert(c < ev.len() && rank(c) < rank(x));
                assert(rank(c) < k - 1);
            }
            lemma_node_value_children(e, prev, cur, assignment);
            assert(cur(x) == node_value(e, prev, assignment));
            assert(next(x) == node_value(e, cur, assignment));
        }
    }
}

/// Under any assignment of the variables, an arena without cycles has a truth valuation that is
/// consistent with all of its expressions, and only one.
pub proof fn law_acyclic_meaning_unique(ev: Seq<ExprV>, rank: spec_fn(ExprId) -> nat, bound: nat, assignment: spec_fn(VarId) -> bool)
    requires
        ranked(ev, rank, bound),
    ensures
        exists|value: spec_fn(ExprId) -> bool| #[trigger] evaluates(ev, value, assignment),
        forall|value1: spec_fn(ExprId) -> bool, value2: spec_fn(ExprId) -> bool|
            #[trigger] evaluates(ev, value1, assignment) && #[trigger] evaluates(ev, value2, assignment)
            ==> agrees(value1, value2, ev.len()),
{
    if bound > 0 {
        lemma_level_stable(ev, rank, bound, assignment, (bound - 1) as nat);
    }
    let prev = level_value(ev, assignment, if bound > 0 { (bound - 1) as nat } else { 0 });
    let value = level_value(ev, assignment, bound);
    assert forall|x: ExprId| x < ev.len() implies #[trigger] value(x) == node_value(ev[x as int], value, assignment) by {
        let e = ev[x as int];
        assert(rank(x) < bound);
        assert forall|i: int| 0 <= i < children(e).len() implies prev(#[trigger] children(e)[i]) == value(children(e)[i]) by {
            let c = children(e)[i];
            assert(c < ev.len() && rank(c) < rank(x));
        }
        lemma_node_value_children(e, prev, value, assignment);
    }
    assert(evaluates(ev, value, assignment));
    assert forall|value1: spec_fn(ExprId) -> bool, value2: spec_fn(ExprId) -> bool|
        #[trigger] evaluates(ev, value1, assignment) && #[trigger] evaluates(ev, value2, assignment)
        implies agrees(value1, value2, ev.len()) by {
        assert forall|x: ExprId| x < ev.len() implies #[trigger] value1(x) == value2(x) by {
            lemma_unique_at(ev, rank, bound, assignment, value1, value2, x);
        }
    }
}

/// Two consistent valuations of an arena without cycles agree on each expression.
proof fn lemma_unique_at(ev: Seq<ExprV>, rank: spec_fn(ExprId) -> nat, bound: nat, assignment: spec_fn(VarId) -> bool,
    value1: spec_fn(ExprId) -> bool, value2: spec_fn(ExprId) -> bool, x: ExprId)
    requires
        ranked(ev, rank, bound),
        evaluates(ev, value1, assignment),
        evaluates(ev, value2, assignment),
        x < ev.len(),
    ensures
        value1(x) == value2(x),
    decreases rank(x),
{
    let e = ev[x as int];
    assert forall|i: int| 0 <= i < children(e).len() implies value1(#[trigger] children(e)[i]) == value2(children(e)[i]) by {
        let c = children(e)[i];
        assert(c < ev.len() && rank(c) < rank(x));
        lemma_unique_at(ev, rank, bound, assignment, value1, value2, c);
    }
    lemma_node_value_children(e, value1, value2, assignment);
    assert(value1(x) == node_value(e, value1, assignment));
    assert(value2(x) == node_value(e, value2, assignment));
}

/// Two consistent valuations of an arena without cycles, under assignments that agree on the
/// variables of the arena, agree on each expression.
pub proof fn lemma_unique_under(ev: Seq<ExprV>, rank: spec_fn(ExprId) -> nat, bound: nat, n_vars: nat,
    assignment1: spec_fn(VarId) -> bool, assignment2: spec_fn(VarId) -> bool,
    value1: spec_fn(ExprId) -> bool, value2: spec_fn(ExprId) -> bool, x: ExprId)
    requires
        ranked(ev, rank, bound),
        all_valid(ev, n_vars),
        evaluates(ev, value1, assignment1),
        evaluates(ev, value2, assignment2),
        forall|v: VarId| 0 <= v < n_vars ==> #[trigger] assignment1(v) == assignment2(v),
        x < ev.len(),
    ensures
        value1(x) == value2(x),
    decreases rank(x),
{
    let e = ev[x as int];
    assert forall|i: int| 0 <= i < children(e).len() implies value1(#[trigger] children(e)[i]) == value2(children(e)[i]) by {
        let c = children(e)[i];
        assert(c < ev.len() && rank(c) < rank(x));
        lemma_unique_under(ev, rank, bound, n_vars, assignment1, assignment2, value1, value2, c);
    }
    assert(value1(x) == node_value(e, value1, assignment1));
    assert(value2(x) == node_value(e, value2, assignment2));
    assert(expr_valid(e, ev.len(), n_vars));
    match e {
        ExprV::Var(v) => {
            assert(assignment1(v) == assignment2(v));
        },
        _ => {
            lemma_node_value_children(e, value1, value2, assignment1);
            assert(node_value(e, value2, assignment1) == node_value(e, value2, assignment2));
        },
    }
}

} // verus!

//! What Tseitin's transformation keeps: an abbreviated expression is defined by clauses over its
//! auxiliary variable, and the transformed formula has the models of the given one.

use vstd::prelude::*;
use crate::arena::{Arena, canonical_children, child_key, expr_valid, extends, has_adjacent_complement, simp_children, simplified};
use crate::expr::{ExprId, ExprV, children};
use crate::meaning::{agree_on, agree_on_set, agrees, all_true, all_valid, evaluates, new_below, node_value, ranked, some_true};
use crate::clauses::satisfies;
use crate::var::VarId;

verus! {

/// Whether no two expressions are equal.
pub open spec fn distinct(ev: Seq<ExprV>) -> bool {
    forall|i: int, j: int| 0 <= i < ev.len() && 0 <= j < ev.len() && i != j ==> #[trigger] ev[i] != #[trigger] ev[j]
}

/// Whether no expression refers to itself, directly or through other expressions.
pub open spec fn acyclic(ev: Seq<ExprV>) -> bool {
    exists|rank: spec_fn(ExprId) -> nat, bound: nat| #[trigger] ranked(ev, rank, bound)
}

/// Whether an expression is a conjunction or a disjunction.
pub open spec fn is_junction(e: ExprV) -> bool {
    e is And || e is Or
}

/// The expressions as they are once the expression `id` is abbreviated by the variable `a`.
pub open spec fn abbreviated(ev: Seq<ExprV>, id: ExprId, a: VarId) -> Seq<ExprV> {
    ev.update(id as int, ExprV::Var(a))
}

/// The children of a valid expression exist.
pub proof fn lemma_children_valid(e: ExprV, n: nat, n_vars: nat)
    requires
        expr_valid(e, n, n_vars),
    ensures
        forall|i: int| 0 <= i < children(e).len() ==> #[trigger] children(e)[i] < n,
{
    if let ExprV::Not(c) = e {
        assert(children(e)[0] == c);
    }
}

/// Appending an expression that only refers to existing ones, and equals none of them, keeps the
/// expressions free of cycles and of duplicates.
pub proof fn lemma_append_keeps(old_ev: Seq<ExprV>, new_ev: Seq<ExprV>, n_vars: nat)
    requires
        extends(new_ev, old_ev),
        new_ev.len() <= old_ev.len() + 1,
        new_ev.len() > old_ev.len() ==> expr_valid(new_ev[old_ev.len() as int], old_ev.len(), n_vars),
        new_ev.len() > old_ev.len() ==> forall|i: int| 0 <= i < old_ev.len() ==> #[trigger] old_ev[i] != new_ev[old_ev.len() as int],
    ensures
        acyclic(old_ev) ==> acyclic(new_ev),
        distinct(old_ev) ==> distinct(new_ev),
{
    if acyclic(old_ev) {
        let (rank, bound) = choose|rank: spec_fn(ExprId) -> nat, bound: nat| #[trigger] ranked(old_ev, rank, bound);
        let rank2 = |x: ExprId| if x < old_ev.len() { rank(x) } else { bound };
        assert forall|x: ExprId, i: int| x < new_ev.len() && 0 <= i < children(new_ev[x as int]).len()
            implies children(new_ev[x as int])[i] < new_ev.len() && rank2(#[trigger] children(new_ev[x as int])[i]) < rank2(x) by {
            if x < old_ev.len() {
                assert(new_ev[x as int] == old_ev[x as int]);
            } else {
                lemma_children_valid(new_ev[x as int], old_ev.len(), n_vars);
            }
        }
        assert(ranked(new_ev, rank2, bound + 1));
    }
    if distinct(old_ev) {
        assert forall|i: int, j: int| 0 <= i < new_ev.len() && 0 <= j < new_ev.len() && i != j
            implies #[trigger] new_ev[i] != #[trigger] new_ev[j] by {
            if i < old_ev.len() {
                assert(new_ev[i] == old_ev[i]);
            }
            if j < old_ev.len() {
                assert(new_ev[j] == old_ev[j]);
            }
        }
    }
}

/// Abbreviating an expression by a variable that no expression is yet keeps the expressions free
/// of cycles and of duplicates.
pub proof fn lemma_abbreviate_keeps(ev: Seq<ExprV>, id: ExprId, a: VarId)
    requires
        id < ev.len(),
        forall|i: int| 0 <= i < ev.len() ==> #[trigger] ev[i] != ExprV::Var(a),
    ensures
        acyclic(ev) ==> acyclic(abbreviated(ev, id, a)),
        distinct(ev) ==> distinct(abbreviated(ev, id, a)),
{
    let ev2 = abbreviated(ev, id, a);
    if acyclic(ev) {
        let (rank, bound) = choose|rank: spec_fn(ExprId) -> nat, bound: nat| #[trigger] ranked(ev, rank, bound);
        assert forall|x: ExprId, i: int| x < ev2.len() && 0 <= i < children(ev2[x as int]).len()
            implies children(ev2[x as int])[i] < ev2.len() && rank(#[trigger] children(ev2[x as int])[i]) < rank(x) by {
            assert(x != id);
            assert(ev2[x as int] == ev[x as int]);
        }
        assert(ranked(ev2, rank, bound));
    }
    if distinct(ev) {
        assert forall|i: int, j: int| 0 <= i < ev2.len() && 0 <= j < ev2.len() && i != j
            implies #[trigger] ev2[i] != #[trigger] ev2[j] by {
            if i != id && j != id {
                assert(ev2[i] == ev[i] && ev2[j] == ev[j]);
            } else if i == id {
                assert(ev2[j] == ev[j]);
            } else {
                assert(ev2[i] == ev[i]);
            }
        }
    }
}

/// An expression stored (as `Arena::expr` does, from `ev0` to `ev1`) as the simplification of `e`
/// has the truth value of `e` once the conjunction or disjunction `id` is abbreviated by the
/// variable `a`, if `e` is a negation of `id` or of a child of `id`, or a disjunction that mentions
/// `id` or its negation (and is just `id` where `id` is the empty conjunction).
pub proof fn lemma_abbreviated_stored(ev0: Seq<ExprV>, ev1: Seq<ExprV>, n_vars: nat, id: ExprId, a: VarId, e: ExprV, x: ExprId)
    requires
        all_valid(ev0, n_vars),
        0 <= a < n_vars,
        extends(ev1, ev0),
        id < ev0.len(),
        is_junction(ev0[id as int]),
        expr_valid(e, ev0.len(), n_vars),
        x < ev1.len(),
        simplified(ev0, e, ev1[x as int]),
        acyclic(ev1),
        distinct(ev1),
        e is Not || e is Or,
        e matches ExprV::Not(g) ==> (g == id || children(ev0[id as int]).contains(g)),
        e matches ExprV::Or(l) ==> (l.contains(id) || exists|y: ExprId| #[trigger] l.contains(y) && ev0[y as int] == ExprV::Not(id)),
        e matches ExprV::Or(l) ==> (ev0[id as int] == ExprV::And(Seq::empty()) ==> l == seq![id]),
    ensures
        forall|value: spec_fn(ExprId) -> bool, assignment: spec_fn(VarId) -> bool|
            #[trigger] evaluates(abbreviated(ev1, id, a), value, assignment) ==> value(x) == node_value(e, value, assignment),
{
    let out = ev1[x as int];
    let big = ev0[id as int];
    let (rank, bound) = choose|rank: spec_fn(ExprId) -> nat, bound: nat| #[trigger] ranked(ev1, rank, bound);
    assert(ev1[id as int] == big);
    let v0 = abbreviated(ev0, id, a);
    let v1 = abbreviated(ev1, id, a);
    assert(extends(v1, v0)) by {
        assert forall|i: int| 0 <= i < v0.len() implies #[trigger] v1[i] == v0[i] by {
            if i != id {
                assert(v1[i] == ev1[i] && v0[i] == ev0[i] && ev1[i] == ev0[i]);
            }
        }
    }
    assert(all_valid(v0, n_vars)) by {
        assert forall|i: int| 0 <= i < v0.len() implies expr_valid(#[trigger] v0[i], v0.len(), n_vars) by {
            if i != id {
                assert(v0[i] == ev0[i]);
            }
        }
    }
    match e {
        ExprV::Not(g) => {
            assert(g < ev0.len());
            if g != id {
                let k = choose|k: int| 0 <= k < children(big).len() && children(big)[k] == g;
                assert(rank(children(ev1[id as int])[k]) < rank(id));
            }
            assert(ev1[g as int] == ev0[g as int]);
            if let ExprV::Not(h) = ev0[g as int] {
                assert(g != id);
                assert(expr_valid(ev0[g as int], ev0.len(), n_vars));
                assert(ev1[h as int] == ev0[h as int]);
                assert(children(ev1[g as int])[0] == h);
                assert(rank(h) < rank(g));
                if h == id {
                    // `Not(g)` of a child `g` of `id` that negates `id` would make a cycle.
                    assert(false);
                }
                assert(x != id) by {
                    if x == id {
                        assert(out == ev0[h as int]);
                        assert(ev1[h as int] == ev1[id as int]);
                    }
                }
                assert(v0[g as int] == ev0[g as int]);
                assert(v0[h as int] == ev0[h as int]);
                assert(simplified(v0, e, out));
            } else {
                assert(out == e);
                assert(x != id);
                assert(!(v0[g as int] is Not));
                assert(simplified(v0, e, out));
            }
        },
        ExprV::Or(l) => {
            let ds = choose|ds: Seq<ExprId>| #[trigger] canonical_children(ev0, l, ds) && out == simp_children(ev0, ds, false);
            assert forall|j: int| 0 <= j < ds.len() implies #[trigger] ds[j] < ev0.len() by {
                assert(ds.contains(ds[j]));
                let k = choose|k: int| 0 <= k < l.len() && l[k] == ds[j];
            }
            if x == id {
                assert(out == big);
                if ds.len() == 1 {
                    // The single child is `id` itself: the disjunction means `id`.
                    assert(ev1[ds[0] as int] == ev0[ds[0] as int]);
                    assert(ds[0] == id);
                    assert forall|value: spec_fn(ExprId) -> bool, assignment: spec_fn(VarId) -> bool|
                        #[trigger] evaluates(v1, value, assignment) implies value(x) == node_value(e, value, assignment) by {
                        assert forall|k: int| 0 <= k < l.len() implies #[trigger] l[k] == id by {
                            assert(l.contains(l[k]));
                            assert(ds.contains(l[k]));
                            let j = choose|j: int| 0 <= j < ds.len() && ds[j] == l[k];
                        }
                        if value(id) {
                            assert(l.contains(id) || exists|y: ExprId| #[trigger] l.contains(y) && ev0[y as int] == ExprV::Not(id));
                            if l.contains(id) {
                                let k = choose|k: int| 0 <= k < l.len() && l[k] == id;
                                assert(value(l[k]));
                            } else {
                                let y = choose|y: ExprId| #[trigger] l.contains(y) && ev0[y as int] == ExprV::Not(id);
                                let k = choose|k: int| 0 <= k < l.len() && l[k] == y;
                                assert(l[k] == id);
                            }
                        }
                        if some_true(value, l) {
                            let k = choose|k: int| 0 <= k < l.len() && #[trigger] value(l[k]);
                            assert(l[k] == id);
                        }
                    }
                    return;
                } else if has_adjacent_complement(ev0, ds) {
                    assert(big == ExprV::And(Seq::<ExprId>::empty()));
                    assert(l == seq![id]);
                    assert(l.contains(id));
                    assert(ds.contains(id));
                    let j = choose|j: int| 0 <= j < ds.len() && ds[j] == id;
                    assert forall|j2: int| 0 <= j2 < ds.len() implies #[trigger] ds[j2] == id by {
                        assert(ds.contains(ds[j2]));
                        assert(l.contains(ds[j2]));
                        let k = choose|k: int| 0 <= k < l.len() && l[k] == ds[j2];
                    }
                    let i = choose|i: int| 0 <= i < ds.len() - 1 && !(ev0[#[trigger] ds[i] as int] is Not) && ev0[ds[i + 1] as int] == ExprV::Not(ds[i]);
                    assert(ds[i] == id && ds[i + 1] == id);
                    assert(crate::arena::key_lt(child_key(ev0, ds[i]), child_key(ev0, ds[i + 1])));
                    assert(false);
                } else {
                    // `id` would be its own child, or the child of its own child.
                    assert(big == ExprV::Or(ds));
                    if l.contains(id) {
                        assert(ds.contains(id));
                        let j = choose|j: int| 0 <= j < ds.len() && ds[j] == id;
                        assert(children(ev1[id as int])[j] == id);
                        assert(rank(children(ev1[id as int])[j]) < rank(id));
                        assert(false);
                    } else {
                        let y = choose|y: ExprId| #[trigger] l.contains(y) && ev0[y as int] == ExprV::Not(id);
                        assert(ds.contains(y));
                        let j = choose|j: int| 0 <= j < ds.len() && ds[j] == y;
                        assert(children(ev1[id as int])[j] == y);
                        assert(rank(children(ev1[id as int])[j]) < rank(id));
                        assert(ev1[y as int] == ExprV::Not(id));
                        assert(children(ev1[y as int])[0] == id);
                        assert(rank(children(ev1[y as int])[0]) < rank(y));
                        assert(false);
                    }
                }
            }
            assert forall|j: int| 0 <= j < ds.len() implies child_key(v0, #[trigger] ds[j]) == child_key(ev0, ds[j]) by {
                if ds[j] != id {
                    assert(v0[ds[j] as int] == ev0[ds[j] as int]);
                }
            }
            assert forall|i: int, j: int| 0 <= i < j < ds.len() implies crate::arena::key_lt(child_key(v0, #[trigger] ds[i]), child_key(v0, #[trigger] ds[j])) by {
                assert(child_key(v0, ds[i]) == child_key(ev0, ds[i]));
                assert(child_key(v0, ds[j]) == child_key(ev0, ds[j]));
            }
            assert(canonical_children(v0, l, ds));
            if ds.len() == 1 {
                if ds[0] == id {
                    assert(out == ev0[id as int]);
                    assert(ev1[x as int] == ev1[id as int]);
                    assert(false);
                }
                assert(v0[ds[0] as int] == ev0[ds[0] as int]);
            }
            assert(has_adjacent_complement(v0, ds) == has_adjacent_complement(ev0, ds)) by {
                if has_adjacent_complement(ev0, ds) {
                    let i = choose|i: int| 0 <= i < ds.len() - 1 && !(ev0[#[trigger] ds[i] as int] is Not) && ev0[ds[i + 1] as int] == ExprV::Not(ds[i]);
                    assert(ds[i + 1] != id);
                    assert(v0[ds[i + 1] as int] == ev0[ds[i + 1] as int]);
                    if ds[i] != id {
                        assert(v0[ds[i] as int] == ev0[ds[i] as int]);
                    }
                    assert(!(v0[ds[i] as int] is Not));
                }
                if has_adjacent_complement(v0, ds) {
                    let i = choose|i: int| 0 <= i < ds.len() - 1 && !(v0[#[trigger] ds[i] as int] is Not) && v0[ds[i + 1] as int] == ExprV::Not(ds[i]);
                    assert(ds[i + 1] != id);
                    assert(v0[ds[i + 1] as int] == ev0[ds[i + 1] as int]);
                    if ds[i] != id {
                        assert(v0[ds[i] as int] == ev0[ds[i] as int]);
                    }
                    assert(!(ev0[ds[i] as int] is Not));
                }
            }
            assert(simp_children(v0, ds, false) == out);
            assert(simplified(v0, e, out));
        },
        _ => {},
    }
    assert(x != id);
    assert(v1[x as int] == out);
    assert forall|value: spec_fn(ExprId) -> bool, assignment: spec_fn(VarId) -> bool|
        #[trigger] evaluates(v1, value, assignment) implies value(x) == node_value(e, value, assignment) by {
        crate::meaning::lemma_evaluates_prefix(v1, v0, value, assignment);
        crate::laws::law_simplification_preserves_meaning(v0, n_vars, e, out, value, assignment);
    }
}


/// What Tseitin's transformation needs of the expressions: no cycles and no duplicates.
pub open spec fn tseitin_hyp(ev: Seq<ExprV>) -> bool {
    acyclic(ev) && distinct(ev)
}

/// Whether `new` is `old` with the expression `e` stored at `r` (as `Arena::expr` does): its
/// simplification is looked up, or appended if no expression equals it.
pub closed spec fn stored(new: &Arena, old: &Arena, e: ExprV, r: ExprId) -> bool {
    &&& new.wf()
    &&& extends(new.ev(), old.ev())
    &&& new.ev().len() <= old.ev().len() + 1
    &&& new.vars == old.vars
    &&& new.var_aux_id == old.var_aux_id
    &&& new.new_vars == old.new_vars
    &&& new.new_exprs == old.new_exprs
    &&& r < new.ev().len()
    &&& simplified(old.ev(), e, new.ev()[r as int])
    &&& (new.ev().len() > old.ev().len() ==> r == old.ev().len())
    &&& (new.ev().len() > old.ev().len() ==> forall|i: int| 0 <= i < old.ev().len() ==> #[trigger] old.ev()[i] != new.ev()[r as int])
    &&& new_below(new.ev(), old.ev().len(), old.vars@.len())
}

/// What `Arena::expr` establishes of the expression it stores.
pub proof fn lemma_stored_intro(new: &Arena, old: &Arena, e: ExprV, r: ExprId)
    requires
        new.wf(),
        extends(new.ev(), old.ev()),
        new.ev().len() <= old.ev().len() + 1,
        new.vars == old.vars,
        new.var_aux_id == old.var_aux_id,
        new.new_vars == old.new_vars,
        new.new_exprs == old.new_exprs,
        r < new.ev().len(),
        simplified(old.ev(), e, new.ev()[r as int]),
        new.ev().len() > old.ev().len() ==> r == old.ev().len(),
        new.ev().len() > old.ev().len() ==> forall|i: int| 0 <= i < old.ev().len() ==> #[trigger] old.ev()[i] != new.ev()[r as int],
        new_below(new.ev(), old.ev().len(), old.vars@.len()),
    ensures
        stored(new, old, e, r),
{
}

/// What `Arena::expr` establishes of the expression it stores.
pub proof fn lemma_stored_elim(new: &Arena, old: &Arena, e: ExprV, r: ExprId)
    requires
        stored(new, old, e, r),
    ensures
        new.wf(),
        extends(new.ev(), old.ev()),
        new.ev().len() <= old.ev().len() + 1,
        new.vars == old.vars,
        new.var_aux_id == old.var_aux_id,
        new.new_vars == old.new_vars,
        new.new_exprs == old.new_exprs,
        r < new.ev().len(),
        simplified(old.ev(), e, new.ev()[r as int]),
{
}

/// Storing an expression keeps the expressions free of cycles and of duplicates.
pub proof fn lemma_stored_hyp(new: &Arena, old: &Arena, e: ExprV, r: ExprId)
    requires
        stored(new, old, e, r),
    ensures
        tseitin_hyp(old.ev()) ==> tseitin_hyp(new.ev()),
{
    if new.ev().len() > old.ev().len() {
        assert(expr_valid(new.ev()[old.ev().len() as int], old.ev().len(), old.vars@.len()));
    }
    lemma_append_keeps(old.ev(), new.ev(), old.vars@.len());
}

/// An appended simplification of an expression other than a variable is no variable.
pub proof fn lemma_appended_not_var(new: &Arena, old: &Arena, e: ExprV, r: ExprId)
    requires
        old.wf(),
        stored(new, old, e, r),
        expr_valid(e, old.ev().len(), old.vars@.len()),
        !(e is Var),
    ensures
        new.ev().len() > old.ev().len() ==> !(new.ev()[r as int] is Var),
{
    let out = new.ev()[r as int];
    if new.ev().len() > old.ev().len() {
        match e {
            ExprV::Not(c) => {
                if let ExprV::Not(g) = old.ev()[c as int] {
                    assert(expr_valid(old.exprs@[c as int]@, old.exprs@.len(), old.vars@.len()));
                    assert(old.ev()[g as int] != out);
                }
            },
            ExprV::And(cs) => {
                let ds = choose|ds: Seq<ExprId>| #[trigger] canonical_children(old.ev(), cs, ds) && out == simp_children(old.ev(), ds, true);
                if ds.len() == 1 {
                    assert(ds.contains(ds[0]));
                    assert(cs.contains(ds[0]));
                    let k = choose|k: int| 0 <= k < cs.len() && cs[k] == ds[0];
                    assert(old.ev()[ds[0] as int] != out);
                }
            },
            ExprV::Or(cs) => {
                let ds = choose|ds: Seq<ExprId>| #[trigger] canonical_children(old.ev(), cs, ds) && out == simp_children(old.ev(), ds, false);
                if ds.len() == 1 {
                    assert(ds.contains(ds[0]));
                    assert(cs.contains(ds[0]));
                    let k = choose|k: int| 0 <= k < cs.len() && cs[k] == ds[0];
                    assert(old.ev()[ds[0] as int] != out);
                }
            },
            _ => {},
        }
    }
}

/// Storing an expression other than a variable keeps the expressions free of cycles and of
/// duplicates, and adds no variable expression.
pub proof fn lemma_stored_keeps(new: &Arena, old: &Arena, e: ExprV, r: ExprId)
    requires
        old.wf(),
        stored(new, old, e, r),
        expr_valid(e, old.ev().len(), old.vars@.len()),
        !(e is Var),
    ensures
        tseitin_hyp(old.ev()) ==> tseitin_hyp(new.ev()),
        forall|i: int| old.ev().len() <= i < new.ev().len() ==> !(#[trigger] new.ev()[i] is Var),
{
    lemma_appended_not_var(new, old, e, r);
    if new.ev().len() > old.ev().len() {
        assert(expr_valid(new.ev()[old.ev().len() as int], old.ev().len(), old.vars@.len()));
    }
    lemma_append_keeps(old.ev(), new.ev(), old.vars@.len());
}

/// Abbreviating at the same place keeps a prefix a prefix.
pub proof fn lemma_abbreviated_prefix(long: Seq<ExprV>, short: Seq<ExprV>, id: ExprId, a: VarId)
    requires
        extends(long, short),
        id < short.len(),
    ensures
        extends(abbreviated(long, id, a), abbreviated(short, id, a)),
{
    let l = abbreviated(long, id, a);
    let s = abbreviated(short, id, a);
    assert forall|i: int| 0 <= i < s.len() implies #[trigger] l[i] == s[i] by {
        if i != id {
            assert(l[i] == long[i] && s[i] == short[i]);
        }
    }
}

/// Whether the clauses `ds` define the expression `id` as `e`: under any assignment, they are all
/// true exactly when `id` has the value of `e`.
pub open spec fn defines(ev: Seq<ExprV>, ds: Seq<ExprId>, id: ExprId, e: ExprV) -> bool {
    forall|value: spec_fn(ExprId) -> bool, assignment: spec_fn(VarId) -> bool|
        #[trigger] evaluates(ev, value, assignment) ==> (all_true(value, ds) == (value(id) == node_value(e, value, assignment)))
}

/// Whether `new` is `old` with the conjunction or disjunction `id` abbreviated by the new auxiliary
/// variable, after storing further expressions (`mid`) and recording the clauses `ds` that define it.
pub open spec fn abbreviation_step(new: &Arena, old: &Arena, id: ExprId, mid: Seq<ExprV>, ds: Seq<ExprId>) -> bool {
    &&& id < old.ev().len()
    &&& is_junction(old.ev()[id as int])
    &&& extends(mid, old.ev())
    &&& (tseitin_hyp(old.ev()) ==> acyclic(mid))
    &&& new.ev() == abbreviated(mid, id, old.vars@.len() as VarId)
    &&& new.vars@.len() == old.vars@.len() + 1
    &&& new.var_aux_id >= old.var_aux_id
    &&& extends(new.vv(), old.vv())
    &&& new.new_vars is Some && old.new_vars is Some
    &&& new.new_exprs is Some && old.new_exprs is Some
    &&& new.new_vars->0@ == old.new_vars->0@.push(old.vars@.len() as VarId)
    &&& new.vv()[old.vars@.len() as int] is Aux
    &&& new.new_exprs->0@ == old.new_exprs->0@ + ds
    &&& (tseitin_hyp(old.ev()) ==> tseitin_hyp(new.ev()) && defines(new.ev(), ds, id, old.ev()[id as int]))
}

/// Whether `new` is `old` after one step of Tseitin's transformation at `id`: unchanged, or with
/// the conjunction or disjunction `id` abbreviated.
pub open spec fn tseitin_step(new: &Arena, old: &Arena, id: ExprId) -> bool {
    ||| (new.ev() == old.ev() && new.vars == old.vars && new.new_vars == old.new_vars && new.new_exprs == old.new_exprs)
    ||| exists|mid: Seq<ExprV>, ds: Seq<ExprId>| #[trigger] abbreviation_step(new, old, id, mid, ds)
}

/// Whether every valuation that is consistent with `ev` and makes the recorded clauses `ne` true
/// is consistent with the given expressions `ev0`.
pub open spec fn sound_defs(ev: Seq<ExprV>, ne: Seq<ExprId>, ev0: Seq<ExprV>) -> bool {
    forall|value: spec_fn(ExprId) -> bool, assignment: spec_fn(VarId) -> bool|
        #[trigger] evaluates(ev, value, assignment) && all_true(value, ne) ==> evaluates(ev0, value, assignment)
}

/// Whether `cur` is `start` after steps of Tseitin's transformation on expressions of `start`: each
/// expression of `start` is unchanged or abbreviated by a variable, each new auxiliary variable
/// abbreviates an expression of `start`, and (for expressions without cycles and duplicates) the
/// recorded clauses are sound.
pub open spec fn tseitin_progress(cur: &Arena, start: &Arena) -> bool {
    &&& cur.new_vars is Some
    &&& cur.new_exprs is Some
    &&& start.new_vars is Some
    &&& cur.ev().len() >= start.ev().len()
    &&& forall|x: int| 0 <= x < start.ev().len() ==> #[trigger] cur.ev()[x] == start.ev()[x] || cur.ev()[x] is Var
    &&& cur.new_vars->0@.len() >= start.new_vars->0@.len()
    &&& cur.vars@.len() >= start.vars@.len()
    &&& extends(cur.vv(), start.vv())
    &&& forall|k: int| start.new_vars->0@.len() <= k < cur.new_vars->0@.len() ==> start.vars@.len() <= #[trigger] cur.new_vars->0@[k]
        < cur.vars@.len() && cur.vv()[cur.new_vars->0@[k] as int] is Aux
    &&& forall|v: VarId| start.vars@.len() <= v < cur.vars@.len() ==> #[trigger] cur.new_vars->0@.contains(v)
    &&& forall|k: int| #![trigger cur.new_vars->0@[k]] start.new_vars->0@.len() <= k < cur.new_vars->0@.len()
        ==> exists|id: ExprId| id < start.ev().len() && #[trigger] cur.ev()[id as int] == ExprV::Var(cur.new_vars->0@[k])
    &&& (tseitin_hyp(start.ev()) ==> tseitin_hyp(cur.ev()) && sound_defs(cur.ev(), cur.new_exprs->0@, start.ev()))
    &&& start.new_exprs is Some
    &&& cur.new_exprs->0@.len() >= start.new_exprs->0@.len()
    &&& cur.vars@.len() >= start.vars@.len()
    &&& (tseitin_hyp(start.ev()) ==> complete_defs(cur, start))
}

/// Whether every valuation that is consistent with the expressions of `start` extends, with values
/// for the new auxiliary variables, to one that is consistent with the expressions of `cur` and
/// makes the clauses recorded since `start` true.
pub open spec fn complete_defs(cur: &Arena, start: &Arena) -> bool {
    forall|value: spec_fn(ExprId) -> bool, assignment: spec_fn(VarId) -> bool|
        #[trigger] evaluates(start.ev(), value, assignment) ==>
        exists|value2: spec_fn(ExprId) -> bool, assignment2: spec_fn(VarId) -> bool|
            #[trigger] evaluates(cur.ev(), value2, assignment2)
            && agree_on(assignment2, assignment, start.vars@.len())
            && agrees(value2, value, start.ev().len())
            && all_true(value2, cur.new_exprs->0@.skip(start.new_exprs->0@.len() as int))
}

/// Before any step, nothing has changed.
pub proof fn lemma_progress_start(start: &Arena)
    requires
        start.new_vars is Some,
        start.new_exprs is Some,
    ensures
        tseitin_progress(start, start),
{
    assert forall|value: spec_fn(ExprId) -> bool, assignment: spec_fn(VarId) -> bool|
        #[trigger] evaluates(start.ev(), value, assignment) implies
        exists|value2: spec_fn(ExprId) -> bool, assignment2: spec_fn(VarId) -> bool|
            #[trigger] evaluates(start.ev(), value2, assignment2)
            && agree_on(assignment2, assignment, start.vars@.len())
            && agrees(value2, value, start.ev().len())
            && all_true(value2, start.new_exprs->0@.skip(start.new_exprs->0@.len() as int)) by {
        assert(start.new_exprs->0@.skip(start.new_exprs->0@.len() as int).len() == 0);
        assert(agree_on(assignment, assignment, start.vars@.len()));
        assert(agrees(value, value, start.ev().len()));
    }
}

/// A step of Tseitin's transformation at an expression of `start` keeps the progress.
pub proof fn lemma_progress_step(new: &Arena, old: &Arena, start: &Arena, id: ExprId)
    requires
        old.wf(),
        start.wf(),
        tseitin_progress(old, start),
        tseitin_step(new, old, id),
        id < start.ev().len(),
    ensures
        tseitin_progress(new, start),
{
    if !(new.ev() == old.ev() && new.vars == old.vars && new.new_vars == old.new_vars && new.new_exprs == old.new_exprs) {
        let (mid, ds) = choose|mid: Seq<ExprV>, ds: Seq<ExprId>| #[trigger] abbreviation_step(new, old, id, mid, ds);
        let a = old.vars@.len() as VarId;
        let nv0 = old.new_vars->0@;
        let nv1 = new.new_vars->0@;
        assert(new.ev()[id as int] == ExprV::Var(a));
        assert forall|v: VarId| start.vars@.len() <= v < new.vars@.len() implies #[trigger] nv1.contains(v) by {
            if v == a {
                assert(nv1[nv0.len() as int] == a);
            } else {
                assert(old.new_vars->0@.contains(v));
                let k = choose|k: int| 0 <= k < nv0.len() && nv0[k] == v;
                assert(nv1[k] == v);
            }
        }
        assert forall|x: int| 0 <= x < start.ev().len() implies #[trigger] new.ev()[x] == start.ev()[x] || new.ev()[x] is Var by {
            if x != id {
                assert(new.ev()[x] == mid[x]);
                assert(mid[x] == old.ev()[x]);
            }
        }
        assert forall|k: int| #![trigger nv1[k]] start.new_vars->0@.len() <= k < nv1.len()
            implies exists|j: ExprId| j < start.ev().len() && #[trigger] new.ev()[j as int] == ExprV::Var(nv1[k]) by {
            if k < nv0.len() {
                assert(nv1[k] == nv0[k]);
                let j = choose|j: ExprId| j < start.ev().len() && #[trigger] old.ev()[j as int] == ExprV::Var(nv0[k]);
                assert(j != id);
                assert(new.ev()[j as int] == mid[j as int]);
            } else {
                assert(nv1[k] == a);
            }
        }
        if tseitin_hyp(start.ev()) {
            let e = old.ev()[id as int];
            let ne0 = old.new_exprs->0@;
            let ne1 = new.new_exprs->0@;
            assert forall|value: spec_fn(ExprId) -> bool, assignment: spec_fn(VarId) -> bool|
                #[trigger] evaluates(new.ev(), value, assignment) && all_true(value, ne1) implies evaluates(start.ev(), value, assignment) by {
                assert(all_true(value, ne0)) by {
                    assert forall|k: int| 0 <= k < ne0.len() implies #[trigger] value(ne0[k]) by {
                        assert(ne1[k] == ne0[k]);
                    }
                }
                assert(all_true(value, ds)) by {
                    assert forall|k: int| 0 <= k < ds.len() implies #[trigger] value(ds[k]) by {
                        assert(ne1[ne0.len() + k] == ds[k]);
                    }
                }
                assert(value(id) == node_value(e, value, assignment));
                assert(mid[id as int] == e);
                crate::meaning::lemma_update_evaluates(new.ev(), id, e, value, assignment);
                assert(new.ev().update(id as int, e) == mid);
                crate::meaning::lemma_evaluates_prefix(mid, old.ev(), value, assignment);
            }
            lemma_complete_step(new, old, start, id, mid, ds);
        }
    }
}

/// A step of Tseitin's transformation keeps every valuation of the given expressions
/// extensible: the new auxiliary variable takes the value of the expression it abbreviates.
proof fn lemma_complete_step(new: &Arena, old: &Arena, start: &Arena, id: ExprId, mid: Seq<ExprV>, ds: Seq<ExprId>)
    requires
        old.wf(),
        start.wf(),
        tseitin_progress(old, start),
        abbreviation_step(new, old, id, mid, ds),
        id < start.ev().len(),
        tseitin_hyp(start.ev()),
    ensures
        complete_defs(new, start),
{
    let a = old.vars@.len() as VarId;
    let e = old.ev()[id as int];
    let n0 = start.ev().len();
    let sk = start.new_exprs->0@.len() as int;
    let ne0 = old.new_exprs->0@;
    let ne1 = new.new_exprs->0@;
    assert(e == start.ev()[id as int]);
    assert(tseitin_hyp(old.ev()));
    assert(acyclic(mid));
    let (rank0, bound0) = choose|rank: spec_fn(ExprId) -> nat, bound: nat| #[trigger] ranked(old.ev(), rank, bound);
    let (rank1, bound1) = choose|rank: spec_fn(ExprId) -> nat, bound: nat| #[trigger] ranked(mid, rank, bound);
    crate::meaning::lemma_wf_all_valid(old);
    crate::meaning::lemma_wf_all_valid(start);
    assert(expr_valid(start.exprs@[id as int]@, start.exprs@.len(), start.vars@.len()));
    assert(crate::arena::ids_valid(ne0, old.ev().len()));
    assert(ne1.skip(sk) == ne0.skip(sk) + ds);
    assert forall|value: spec_fn(ExprId) -> bool, assignment: spec_fn(VarId) -> bool|
        #[trigger] evaluates(start.ev(), value, assignment) implies
        exists|value2: spec_fn(ExprId) -> bool, assignment2: spec_fn(VarId) -> bool|
            #[trigger] evaluates(new.ev(), value2, assignment2)
            && agree_on(assignment2, assignment, start.vars@.len())
            && agrees(value2, value, start.ev().len())
            && all_true(value2, ne1.skip(sk)) by {
        let (v1, asg1) = choose|value2: spec_fn(ExprId) -> bool, assignment2: spec_fn(VarId) -> bool|
            #[trigger] evaluates(old.ev(), value2, assignment2)
            && agree_on(assignment2, assignment, start.vars@.len())
            && agrees(value2, value, start.ev().len())
            && all_true(value2, ne0.skip(sk));
        let asg2 = |x: VarId| if x == a { value(id) } else { asg1(x) };
        crate::meaning::law_acyclic_meaning_unique(mid, rank1, bound1, asg2);
        let w = choose|w: spec_fn(ExprId) -> bool| #[trigger] evaluates(mid, w, asg2);
        crate::meaning::lemma_evaluates_prefix(mid, old.ev(), w, asg2);
        assert(agree_on(asg1, asg2, a as nat));
        assert forall|x: ExprId| x < old.ev().len() implies #[trigger] w(x) == v1(x) by {
            crate::meaning::lemma_unique_under(old.ev(), rank0, bound0, a as nat, asg1, asg2, v1, w, x);
        }
        assert(w(id) == value(id));
        crate::meaning::lemma_update_evaluates(mid, id, ExprV::Var(a), w, asg2);
        assert(new.ev() == mid.update(id as int, ExprV::Var(a)));
        assert(agrees(w, value, n0)) by {
            assert forall|x: ExprId| x < n0 implies #[trigger] w(x) == value(x) by {
                assert(w(x) == v1(x));
            }
        }
        crate::meaning::lemma_node_value_agrees(e, w, value, assignment, n0, start.vars@.len());
        assert(value(id) == node_value(e, value, assignment));
        crate::meaning::lemma_node_value_agrees(e, w, value, asg2, n0, start.vars@.len());
        assert(node_value(e, value, asg2) == node_value(e, value, assignment)) by {
            if let ExprV::Var(v) = e {
                assert(v < start.vars@.len());
            }
        }
        assert(all_true(w, ds));
        assert(all_true(w, ne1.skip(sk))) by {
            let s0 = ne0.skip(sk);
            assert forall|k: int| 0 <= k < ne1.skip(sk).len() implies #[trigger] w(ne1.skip(sk)[k]) by {
                if k < s0.len() {
                    assert(ne1.skip(sk)[k] == s0[k]);
                    assert(s0[k] == ne0[sk + k]);
                    assert(w(s0[k]) == v1(s0[k]));
                    assert(v1(s0[k]));
                } else {
                    assert(ne1.skip(sk)[k] == ds[k - s0.len()]);
                }
            }
        }
        assert(agree_on(asg2, assignment, start.vars@.len())) by {
            assert forall|x: VarId| 0 <= x < start.vars@.len() implies #[trigger] asg2(x) == assignment(x) by {
                assert(x != a);
                assert(asg1(x) == assignment(x));
            }
        }
    }
}

/// Storing a negation of `id` or of one of its children, or a disjunction that mentions `id` or
/// its negation, while `id` is being abbreviated by the fresh variable `a`: the expressions stay
/// free of cycles, duplicates and of the expression `Var(a)`, and in the abbreviated arena the
/// stored expression has the value of `e`.
pub proof fn lemma_defining_step(before: &Arena, after: &Arena, id: ExprId, a: VarId, e: ExprV, x: ExprId)
    requires
        before.wf(),
        stored(after, before, e, x),
        expr_valid(e, before.ev().len(), before.vars@.len()),
        e is Not || e is Or,
        0 <= a < before.vars@.len(),
        id < before.ev().len(),
        is_junction(before.ev()[id as int]),
        forall|i: int| 0 <= i < before.ev().len() ==> #[trigger] before.ev()[i] != ExprV::Var(a),
        e matches ExprV::Not(g) ==> (g == id || children(before.ev()[id as int]).contains(g)),
        e matches ExprV::Or(l) ==> (l.contains(id) || exists|y: ExprId| #[trigger] l.contains(y) && before.ev()[y as int] == ExprV::Not(id)),
        e matches ExprV::Or(l) ==> (before.ev()[id as int] == ExprV::And(Seq::empty()) ==> l == seq![id]),
    ensures
        tseitin_hyp(before.ev()) ==> tseitin_hyp(after.ev()),
        forall|i: int| 0 <= i < after.ev().len() ==> #[trigger] after.ev()[i] != ExprV::Var(a),
        tseitin_hyp(before.ev()) ==> forall|value: spec_fn(ExprId) -> bool, assignment: spec_fn(VarId) -> bool|
            #[trigger] evaluates(abbreviated(after.ev(), id, a), value, assignment)
            ==> value(x) == node_value(e, value, assignment) && evaluates(abbreviated(before.ev(), id, a), value, assignment),
{
    lemma_stored_keeps(after, before, e, x);
    assert forall|i: int| 0 <= i < after.ev().len() implies #[trigger] after.ev()[i] != ExprV::Var(a) by {
        if i < before.ev().len() {
            assert(after.ev()[i] == before.ev()[i]);
        }
    }
    lemma_abbreviated_prefix(after.ev(), before.ev(), id, a);
    if tseitin_hyp(before.ev()) {
        crate::meaning::lemma_wf_all_valid(before);
        lemma_abbreviated_stored(before.ev(), after.ev(), before.vars@.len(), id, a, e, x);
        assert forall|value: spec_fn(ExprId) -> bool, assignment: spec_fn(VarId) -> bool|
            #[trigger] evaluates(abbreviated(after.ev(), id, a), value, assignment)
            implies value(x) == node_value(e, value, assignment) && evaluates(abbreviated(before.ev(), id, a), value, assignment) by {
            crate::meaning::lemma_evaluates_prefix(abbreviated(after.ev(), id, a), abbreviated(before.ev(), id, a), value, assignment);
        }
    }
}

/// The negations stored for the children `gs` of `id` (as `Arena::negate_exprs` does, from
/// `before` to `after`) have the opposite values of the children in the abbreviated arena.
pub proof fn lemma_negations_abbreviated(before: &Arena, after: &Arena, id: ExprId, a: VarId, gs: Seq<ExprId>, negs: Seq<ExprId>)
    requires
        before.wf(),
        after.wf(),
        extends(after.ev(), before.ev()),
        0 <= a < before.vars@.len(),
        id < before.ev().len(),
        is_junction(before.ev()[id as int]),
        children(before.ev()[id as int]) == gs,
        negs.len() == gs.len(),
        forall|i: int| 0 <= i < negs.len() ==> #[trigger] negs[i] < after.ev().len(),
        forall|i: int| 0 <= i < negs.len() ==> simplified(before.ev(), ExprV::Not(gs[i]), after.ev()[#[trigger] negs[i] as int]),
        tseitin_hyp(after.ev()),
    ensures
        forall|value: spec_fn(ExprId) -> bool, assignment: spec_fn(VarId) -> bool|
            #[trigger] evaluates(abbreviated(after.ev(), id, a), value, assignment)
            ==> forall|i: int| 0 <= i < negs.len() ==> #[trigger] value(negs[i]) == !value(gs[i]),
{
    crate::meaning::lemma_wf_all_valid(before);
    assert forall|value: spec_fn(ExprId) -> bool, assignment: spec_fn(VarId) -> bool|
        #[trigger] evaluates(abbreviated(after.ev(), id, a), value, assignment)
        implies forall|i: int| 0 <= i < negs.len() ==> #[trigger] value(negs[i]) == !value(gs[i]) by {
        assert forall|i: int| 0 <= i < negs.len() implies #[trigger] value(negs[i]) == !value(gs[i]) by {
            assert(gs.contains(gs[i]));
            lemma_children_valid(before.ev()[id as int], before.ev().len(), before.vars@.len());
            assert(expr_valid(before.exprs@[id as int]@, before.exprs@.len(), before.vars@.len()));
            assert(gs[i] < before.ev().len());
            lemma_abbreviated_stored(before.ev(), after.ev(), before.vars@.len(), id, a, ExprV::Not(gs[i]), negs[i]);
        }
    }
}

/// Clauses `!id | g` for each conjunct `g` and `id | !g1 | ... | !gn` define `id` as the conjunction.
pub proof fn lemma_defines_and(value: spec_fn(ExprId) -> bool, id: ExprId, gs: Seq<ExprId>, cls: Seq<ExprId>)
    requires
        cls.len() == gs.len() + 1,
        forall|k: int| 0 <= k < gs.len() ==> #[trigger] value(cls[k]) == (!value(id) || value(gs[k])),
        value(cls[gs.len() as int]) == (value(id) || !all_true(value, gs)),
    ensures
        all_true(value, cls) == (value(id) == all_true(value, gs)),
{
    if all_true(value, cls) {
        assert(value(cls[gs.len() as int]));
        if value(id) {
            assert forall|k: int| 0 <= k < gs.len() implies #[trigger] value(gs[k]) by {
                assert(value(cls[k]));
            }
        }
    }
    if value(id) == all_true(value, gs) {
        assert forall|k: int| 0 <= k < cls.len() implies #[trigger] value(cls[k]) by {
            if k < gs.len() {
                if value(id) {
                    assert(value(gs[k]));
                }
            }
        }
    }
}

/// Clauses `!id | g1 | ... | gn` and `id | !g` for each disjunct `g` define `id` as the disjunction.
pub proof fn lemma_defines_or(value: spec_fn(ExprId) -> bool, id: ExprId, gs: Seq<ExprId>, cls: Seq<ExprId>)
    requires
        cls.len() == gs.len() + 1,
        value(cls[0]) == (!value(id) || some_true(value, gs)),
        forall|k: int| 0 <= k < gs.len() ==> #[trigger] value(cls[k + 1]) == (value(id) || !value(gs[k])),
    ensures
        all_true(value, cls) == (value(id) == some_true(value, gs)),
{
    if all_true(value, cls) {
        assert(value(cls[0]));
        if some_true(value, gs) {
            let k = choose|k: int| 0 <= k < gs.len() && #[trigger] value(gs[k]);
            assert(value(cls[k + 1]));
        }
    }
    if value(id) == some_true(value, gs) {
        assert forall|k: int| 0 <= k < cls.len() implies #[trigger] value(cls[k]) by {
            if k > 0 {
                let j = k - 1;
                assert(value(cls[j + 1]) == (value(id) || !value(gs[j])));
                if value(gs[j]) {
                    assert(some_true(value, gs));
                }
            }
        }
    }
}

/// Whether `new` is `old` with the clauses `ds` recorded, which (for expressions without cycles and
/// duplicates) define `id` as its expression in `old` once `id` is abbreviated by the variable `a`.
pub open spec fn defining(new: &Arena, old: &Arena, id: ExprId, a: VarId, ds: Seq<ExprId>) -> bool {
    &&& new.new_exprs is Some && old.new_exprs is Some
    &&& new.new_exprs->0@ == old.new_exprs->0@ + ds
    &&& (tseitin_hyp(old.ev()) ==> tseitin_hyp(new.ev()) && defines(abbreviated(new.ev(), id, a), ds, id, old.ev()[id as int]))
}

/// Whether `fin` holds the result of Tseitin's transformation of the expression `root0` of `a1`:
/// `a2` is `a1` after the steps of the transformation (with `root0` at `root_t`), and `root` is the
/// conjunction `ne2` of the recorded clauses (and of `root_t`, if `assume_root`).
pub open spec fn tseitin_outcome(a1: &Arena, a2: &Arena, fin: &Arena, root0: ExprId, root_t: ExprId, root: ExprId,
    ne2: Seq<ExprId>, assume_root: bool) -> bool {
    &&& a1.wf()
    &&& a2.wf()
    &&& fin.wf()
    &&& tseitin_progress(a2, a1)
    &&& a1.new_vars->0@.len() == 0
    &&& a1.new_exprs->0@.len() == 0
    &&& root0 < a1.ev().len()
    &&& root_t < a2.ev().len()
    &&& a2.ev()[root_t as int] == a2.ev()[root0 as int]
    &&& ne2 == (if assume_root { a2.new_exprs->0@.push(root_t) } else { a2.new_exprs->0@ })
    &&& extends(fin.ev(), a2.ev())
    &&& root < fin.ev().len()
    &&& new_below(fin.ev(), a2.ev().len(), a2.vars@.len())
    &&& simplified(a2.ev(), ExprV::And(ne2), fin.ev()[root as int])
}

/// The root of the result is true exactly when the recorded clauses (and the given root, if
/// assumed) are.
proof fn lemma_outcome_root(a1: &Arena, a2: &Arena, fin: &Arena, root0: ExprId, root_t: ExprId, root: ExprId,
    ne2: Seq<ExprId>, assume_root: bool, value: spec_fn(ExprId) -> bool, assignment: spec_fn(VarId) -> bool)
    requires
        tseitin_outcome(a1, a2, fin, root0, root_t, root, ne2, assume_root),
        evaluates(fin.ev(), value, assignment),
    ensures
        evaluates(a2.ev(), value, assignment),
        value(root) == (all_true(value, a2.new_exprs->0@) && (assume_root ==> value(root0))),
{
    let ne = a2.new_exprs->0@;
    crate::meaning::lemma_wf_all_valid(a2);
    assert(crate::arena::ids_valid(ne, a2.exprs@.len()));
    assert(crate::arena::ids_valid(ne2, a2.ev().len())) by {
        assert forall|k: int| 0 <= k < ne2.len() implies #[trigger] ne2[k] < a2.ev().len() by {
            if k < ne.len() {
                assert(ne2[k] == ne[k]);
            }
        }
    }
    crate::meaning::lemma_stored_value(a2.ev(), fin.ev(), a2.vars@.len(), ExprV::And(ne2), root, value, assignment);
    crate::meaning::lemma_evaluates_prefix(fin.ev(), a2.ev(), value, assignment);
    assert(root0 < a2.ev().len());
    assert(value(root_t) == node_value(a2.ev()[root_t as int], value, assignment));
    assert(value(root0) == node_value(a2.ev()[root0 as int], value, assignment));
    if assume_root {
        crate::meaning::lemma_all_true_push(value, ne, root_t);
    }
}

/// Every model of the result of Tseitin's transformation is a model of the given expressions
/// (and of the given root, if assumed).
pub proof fn lemma_tseitin_sound(a1: &Arena, a2: &Arena, fin: &Arena, root0: ExprId, root_t: ExprId, root: ExprId,
    ne2: Seq<ExprId>, assume_root: bool)
    requires
        tseitin_outcome(a1, a2, fin, root0, root_t, root, ne2, assume_root),
        tseitin_hyp(a1.ev()),
    ensures
        forall|value: spec_fn(ExprId) -> bool, assignment: spec_fn(VarId) -> bool|
            #[trigger] evaluates(fin.ev(), value, assignment) && value(root)
            ==> evaluates(a1.ev(), value, assignment) && (assume_root ==> value(root0)),
{
    assert forall|value: spec_fn(ExprId) -> bool, assignment: spec_fn(VarId) -> bool|
        #[trigger] evaluates(fin.ev(), value, assignment) && value(root)
        implies evaluates(a1.ev(), value, assignment) && (assume_root ==> value(root0)) by {
        lemma_outcome_root(a1, a2, fin, root0, root_t, root, ne2, assume_root, value, assignment);
    }
}

/// Every model of the given expressions (and of the given root, if assumed) extends, with
/// values for the auxiliary variables, to a model of the result of Tseitin's transformation.
pub proof fn lemma_tseitin_complete(a1: &Arena, a2: &Arena, fin: &Arena, root0: ExprId, root_t: ExprId, root: ExprId,
    ne2: Seq<ExprId>, assume_root: bool)
    requires
        tseitin_outcome(a1, a2, fin, root0, root_t, root, ne2, assume_root),
        tseitin_hyp(a1.ev()),
    ensures
        forall|value: spec_fn(ExprId) -> bool, assignment: spec_fn(VarId) -> bool|
            #[trigger] evaluates(a1.ev(), value, assignment) && (assume_root ==> value(root0))
            ==> exists|value2: spec_fn(ExprId) -> bool, assignment2: spec_fn(VarId) -> bool|
                #[trigger] evaluates(fin.ev(), value2, assignment2) && value2(root)
                && agree_on(assignment2, assignment, a1.vars@.len())
                && agrees(value2, value, a1.ev().len()),
{
    let ne = a2.new_exprs->0@;
    assert(ne.skip(0) == ne);
    crate::meaning::lemma_wf_all_valid(a2);
    assert forall|value: spec_fn(ExprId) -> bool, assignment: spec_fn(VarId) -> bool|
        #[trigger] evaluates(a1.ev(), value, assignment) && (assume_root ==> value(root0))
        implies exists|value2: spec_fn(ExprId) -> bool, assignment2: spec_fn(VarId) -> bool|
            #[trigger] evaluates(fin.ev(), value2, assignment2) && value2(root)
            && agree_on(assignment2, assignment, a1.vars@.len())
            && agrees(value2, value, a1.ev().len()) by {
        let (v2, asg2) = choose|value2: spec_fn(ExprId) -> bool, assignment2: spec_fn(VarId) -> bool|
            #[trigger] evaluates(a2.ev(), value2, assignment2)
            && agree_on(assignment2, assignment, a1.vars@.len())
            && agrees(value2, value, a1.ev().len())
            && all_true(value2, a2.new_exprs->0@.skip(a1.new_exprs->0@.len() as int));
        let v3 = crate::meaning::extended_value(fin.ev(), a2.ev().len(), v2, asg2);
        crate::meaning::lemma_extended_value(a2.ev(), fin.ev(), a2.vars@.len(), v2, asg2);
        lemma_outcome_root(a1, a2, fin, root0, root_t, root, ne2, assume_root, v3, asg2);
        assert(all_true(v3, ne)) by {
            assert(crate::arena::ids_valid(ne, a2.exprs@.len()));
            assert forall|k: int| 0 <= k < ne.len() implies #[trigger] v3(ne[k]) by {
                assert(v3(ne[k]) == v2(ne[k]));
                assert(v2(ne[k]));
            }
        }
        assert(v3(root0) == v2(root0));
        assert(agrees(v3, value, a1.ev().len())) by {
            assert forall|x: ExprId| x < a1.ev().len() implies #[trigger] v3(x) == value(x) by {
                assert(v3(x) == v2(x));
            }
        }
    }
}

/// Two models of the result of Tseitin's transformation that agree on the given variables agree
/// on all variables: the given ones and the auxiliary variables recorded in `a2`.
pub proof fn lemma_tseitin_unique(a1: &Arena, a2: &Arena, fin: &Arena, root0: ExprId, root_t: ExprId, root: ExprId,
    ne2: Seq<ExprId>, assume_root: bool, vars: Set<VarId>)
    requires
        tseitin_outcome(a1, a2, fin, root0, root_t, root, ne2, assume_root),
        tseitin_hyp(a1.ev()),
        forall|x: VarId| #[trigger] vars.contains(x) ==> (0 <= x < a1.vars@.len() || a2.new_vars->0@.contains(x)),
    ensures
        forall|value1: spec_fn(ExprId) -> bool, value2: spec_fn(ExprId) -> bool,
            assignment1: spec_fn(VarId) -> bool, assignment2: spec_fn(VarId) -> bool|
            #[trigger] evaluates(fin.ev(), value1, assignment1) && #[trigger] evaluates(fin.ev(), value2, assignment2)
            && value1(root) && value2(root)
            && agree_on(assignment1, assignment2, a1.vars@.len())
            ==> crate::meaning::agree_on_set(assignment1, assignment2, vars),
{
    let (rank, bound) = choose|rank: spec_fn(ExprId) -> nat, bound: nat| #[trigger] ranked(a1.ev(), rank, bound);
    crate::meaning::lemma_wf_all_valid(a1);
    let nv = a2.new_vars->0@;
    assert forall|value1: spec_fn(ExprId) -> bool, value2: spec_fn(ExprId) -> bool,
        assignment1: spec_fn(VarId) -> bool, assignment2: spec_fn(VarId) -> bool|
        #[trigger] evaluates(fin.ev(), value1, assignment1) && #[trigger] evaluates(fin.ev(), value2, assignment2)
        && value1(root) && value2(root)
        && agree_on(assignment1, assignment2, a1.vars@.len())
        implies crate::meaning::agree_on_set(assignment1, assignment2, vars) by {
        lemma_outcome_root(a1, a2, fin, root0, root_t, root, ne2, assume_root, value1, assignment1);
        lemma_outcome_root(a1, a2, fin, root0, root_t, root, ne2, assume_root, value2, assignment2);
        assert(sound_defs(a2.ev(), a2.new_exprs->0@, a1.ev()));
        assert(evaluates(a1.ev(), value1, assignment1));
        assert(evaluates(a1.ev(), value2, assignment2));
        assert forall|x: VarId| #[trigger] vars.contains(x) implies assignment1(x) == assignment2(x) by {
            if !(0 <= x < a1.vars@.len()) {
                let k = choose|k: int| 0 <= k < nv.len() && nv[k] == x;
                let id = choose|id: ExprId| id < a1.ev().len() && #[trigger] a2.ev()[id as int] == ExprV::Var(nv[k]);
                assert(fin.ev()[id as int] == a2.ev()[id as int]);
                assert(value1(id) == node_value(fin.ev()[id as int], value1, assignment1));
                assert(value2(id) == node_value(fin.ev()[id as int], value2, assignment2));
                crate::meaning::lemma_unique_under(a1.ev(), rank, bound, a1.vars@.len(),
                    assignment1, assignment2, value1, value2, id);
            }
        }
    }
}

/// Whether the clauses `cs` over the variables `ids` count the models of the expression `root`:
/// every assignment that satisfies them makes `root` true, every assignment that makes `root` true
/// agrees on the variables below `n_vars` with one that satisfies them, and two satisfying
/// assignments that agree on the variables below `n_vars` agree on all of `ids`.
pub open spec fn counts_models(cs: Seq<Seq<VarId>>, ids: Seq<VarId>, ev: Seq<ExprV>, root: ExprId, n_vars: nat) -> bool {
    &&& forall|value: spec_fn(ExprId) -> bool, assignment: spec_fn(VarId) -> bool|
        #[trigger] evaluates(ev, value, assignment) && satisfies(cs, ids, assignment) ==> value(root)
    &&& forall|value: spec_fn(ExprId) -> bool, assignment: spec_fn(VarId) -> bool|
        #[trigger] evaluates(ev, value, assignment) && value(root)
        ==> exists|assignment2: spec_fn(VarId) -> bool| agree_on(assignment2, assignment, n_vars) && #[trigger] satisfies(cs, ids, assignment2)
    &&& forall|assignment1: spec_fn(VarId) -> bool, assignment2: spec_fn(VarId) -> bool|
        #[trigger] satisfies(cs, ids, assignment1) && #[trigger] satisfies(cs, ids, assignment2) && agree_on(assignment1, assignment2, n_vars)
        ==> agree_on_set(assignment1, assignment2, ids.to_set())
}

/// The clauses of the result of Tseitin's transformation count the models of the given root.
pub proof fn lemma_tseitin_counts(ev0: Seq<ExprV>, fin: Seq<ExprV>, root0: ExprId, root: ExprId, n_vars: nat,
    ids: Seq<VarId>, cs: Seq<Seq<VarId>>, vars: Set<VarId>)
    requires
        tseitin_hyp(ev0),
        acyclic(fin),
        root0 < ev0.len(),
        forall|value: spec_fn(ExprId) -> bool, assignment: spec_fn(VarId) -> bool|
            #[trigger] evaluates(fin, value, assignment) && value(root)
            ==> evaluates(ev0, value, assignment) && value(root0),
        forall|value: spec_fn(ExprId) -> bool, assignment: spec_fn(VarId) -> bool|
            #[trigger] evaluates(ev0, value, assignment) && value(root0)
            ==> exists|value2: spec_fn(ExprId) -> bool, assignment2: spec_fn(VarId) -> bool|
                #[trigger] evaluates(fin, value2, assignment2) && value2(root)
                && agree_on(assignment2, assignment, n_vars)
                && agrees(value2, value, ev0.len()),
        forall|value1: spec_fn(ExprId) -> bool, value2: spec_fn(ExprId) -> bool,
            assignment1: spec_fn(VarId) -> bool, assignment2: spec_fn(VarId) -> bool|
            #[trigger] evaluates(fin, value1, assignment1) && #[trigger] evaluates(fin, value2, assignment2)
            && value1(root) && value2(root)
            && agree_on(assignment1, assignment2, n_vars)
            ==> agree_on_set(assignment1, assignment2, vars),
        forall|value: spec_fn(ExprId) -> bool, assignment: spec_fn(VarId) -> bool|
            #[trigger] evaluates(fin, value, assignment) ==> value(root) == satisfies(cs, ids, assignment),
        forall|x: VarId| #[trigger] ids.to_set().contains(x) ==> vars.contains(x),
    ensures
        counts_models(cs, ids, ev0, root0, n_vars),
{
    let (rank0, bound0) = choose|rank: spec_fn(ExprId) -> nat, bound: nat| #[trigger] ranked(ev0, rank, bound);
    let (rank1, bound1) = choose|rank: spec_fn(ExprId) -> nat, bound: nat| #[trigger] ranked(fin, rank, bound);
    assert forall|value: spec_fn(ExprId) -> bool, assignment: spec_fn(VarId) -> bool|
        #[trigger] evaluates(ev0, value, assignment) && satisfies(cs, ids, assignment) implies value(root0) by {
        crate::meaning::law_acyclic_meaning_unique(fin, rank1, bound1, assignment);
        let w = choose|w: spec_fn(ExprId) -> bool| #[trigger] evaluates(fin, w, assignment);
        assert(w(root));
        assert(evaluates(ev0, w, assignment) && w(root0));
        crate::meaning::law_acyclic_meaning_unique(ev0, rank0, bound0, assignment);
        assert(crate::meaning::agrees(w, value, ev0.len()));
    }
    assert forall|value: spec_fn(ExprId) -> bool, assignment: spec_fn(VarId) -> bool|
        #[trigger] evaluates(ev0, value, assignment) && value(root0)
        implies exists|assignment2: spec_fn(VarId) -> bool| agree_on(assignment2, assignment, n_vars) && #[trigger] satisfies(cs, ids, assignment2) by {
        let (v2, asg2) = choose|value2: spec_fn(ExprId) -> bool, assignment2: spec_fn(VarId) -> bool|
            #[trigger] evaluates(fin, value2, assignment2) && value2(root)
            && agree_on(assignment2, assignment, n_vars)
            && agrees(value2, value, ev0.len());
        assert(satisfies(cs, ids, asg2));
    }
    assert forall|assignment1: spec_fn(VarId) -> bool, assignment2: spec_fn(VarId) -> bool|
        #[trigger] satisfies(cs, ids, assignment1) && #[trigger] satisfies(cs, ids, assignment2) && agree_on(assignment1, assignment2, n_vars)
        implies agree_on_set(assignment1, assignment2, ids.to_set()) by {
        crate::meaning::law_acyclic_meaning_unique(fin, rank1, bound1, assignment1);
        crate::meaning::law_acyclic_meaning_unique(fin, rank1, bound1, assignment2);
        let w1 = choose|w: spec_fn(ExprId) -> bool| #[trigger] evaluates(fin, w, assignment1);
        let w2 = choose|w: spec_fn(ExprId) -> bool| #[trigger] evaluates(fin, w, assignment2);
        assert(w1(root) && w2(root));
        assert(agree_on_set(assignment1, assignment2, vars));
    }
}

/// The conjunctions and disjunctions that the expression `root` reaches.
pub open spec fn junctions_below(ev: Seq<ExprV>, root: ExprId) -> Set<ExprId> {
    Set::new(|x: ExprId| x < ev.len() && crate::visit::reaches(ev, root, x) && is_junction(ev[x as int]))
}

/// The conjunctions and disjunctions of `ev0` that are variables in `ev`.
pub open spec fn abbreviated_ids(ev0: Seq<ExprV>, ev: Seq<ExprV>) -> Set<ExprId> {
    Set::new(|x: ExprId| x < ev0.len() && is_junction(ev0[x as int]) && ev[x as int] is Var)
}

/// What valid expressions reach from a stored root is stored.
proof fn lemma_reaches_stored(ev: Seq<ExprV>, n_vars: nat, root: ExprId, p: Seq<ExprId>)
    requires
        all_valid(ev, n_vars),
        root < ev.len(),
        crate::visit::is_path(ev, p),
        p[0] == root,
    ensures
        p.last() < ev.len(),
    decreases p.len(),
{
    if p.len() > 1 {
        let q = p.drop_last();
        assert(crate::visit::is_path(ev, q)) by {
            assert forall|i: int| 0 <= i < q.len() - 1 implies #[trigger] children(ev[q[i] as int]).contains(q[i + 1]) by {
                assert(children(ev[p[i] as int]).contains(p[i + 1]));
            }
        }
        lemma_reaches_stored(ev, n_vars, root, q);
        let i: int = p.len() - 2;
        assert(children(ev[p[i] as int]).contains(p[i + 1]));
        assert(expr_valid(ev[p[i] as int], ev.len(), n_vars));
        lemma_children_valid(ev[p[i] as int], ev.len(), n_vars);
    }
}

/// Along a trace of Tseitin's transformation below `root`, every expression of the first arena
/// is unchanged or a variable, a variable stays one, and each new variable abbreviates one more
/// conjunction or disjunction that `root` reaches.
proof fn lemma_trace_abbreviations(arenas: Seq<Arena>, steps: Seq<(crate::visit::Visitor, ExprId)>, root: ExprId, j: int)
    requires
        crate::visit::visit_trace(arenas, steps),
        arenas[0].wf(),
        root < arenas[0].ev().len(),
        forall|k: int| 0 <= k < steps.len() ==> #[trigger] steps[k].0 == crate::visit::Visitor::Nothing
            || steps[k].0 == crate::visit::Visitor::Tseitin,
        forall|k: int| 0 <= k < steps.len() ==> crate::visit::reaches(arenas[0].ev(), root, #[trigger] steps[k].1),
        0 <= j <= steps.len(),
    ensures
        arenas[j].ev().len() >= arenas[0].ev().len(),
        forall|x: int| 0 <= x < arenas[0].ev().len() ==> #[trigger] arenas[j].ev()[x] == arenas[0].ev()[x] || arenas[j].ev()[x] is Var,
        abbreviated_ids(arenas[0].ev(), arenas[j].ev()).finite(),
        abbreviated_ids(arenas[0].ev(), arenas[j].ev()).subset_of(junctions_below(arenas[0].ev(), root)),
        arenas[j].vars@.len() == arenas[0].vars@.len() + abbreviated_ids(arenas[0].ev(), arenas[j].ev()).len(),
        arenas[j].var_aux_id >= arenas[0].var_aux_id,
    decreases j,
{
    let ev0 = arenas[0].ev();
    if j == 0 {
        assert(abbreviated_ids(ev0, ev0) =~= Set::empty()) by {
            assert forall|x: ExprId| !#[trigger] abbreviated_ids(ev0, ev0).contains(x) by {
                if x < ev0.len() && is_junction(ev0[x as int]) {
                    assert(!(ev0[x as int] is Var));
                }
            }
        }
    } else {
        lemma_trace_abbreviations(arenas, steps, root, j - 1);
        let old_a = arenas[j - 1];
        let new_a = arenas[j];
        let id = steps[j - 1].1;
        let a_old = abbreviated_ids(ev0, old_a.ev());
        assert(crate::visit::visit_effect(&new_a, &old_a, steps[j - 1].0, id));
        if steps[j - 1].0 == crate::visit::Visitor::Tseitin && crate::visit::aux_room(&old_a) && is_junction(old_a.ev()[id as int]) {
            let (mid, ds) = choose|mid: Seq<ExprV>, ds: Seq<ExprId>| #[trigger] abbreviation_step(&new_a, &old_a, id, mid, ds);
            assert(crate::visit::reaches(ev0, root, id));
            let p = choose|p: Seq<ExprId>| #[trigger] crate::visit::is_path(ev0, p) && p[0] == root && p.last() == id;
            crate::meaning::lemma_wf_all_valid(&arenas[0]);
            lemma_reaches_stored(ev0, arenas[0].vars@.len(), root, p);
            assert(id < ev0.len());
            assert(old_a.ev()[id as int] == ev0[id as int]);
            assert(abbreviated_ids(ev0, new_a.ev()) =~= a_old.insert(id)) by {
                assert forall|x: ExprId| #[trigger] abbreviated_ids(ev0, new_a.ev()).contains(x) == a_old.insert(id).contains(x) by {
                    if x < ev0.len() && x != id {
                        assert(new_a.ev()[x as int] == mid[x as int]);
                        assert(mid[x as int] == old_a.ev()[x as int]);
                    }
                }
            }
            assert(!a_old.contains(id));
            assert forall|x: int| 0 <= x < ev0.len() implies #[trigger] new_a.ev()[x] == ev0[x] || new_a.ev()[x] is Var by {
                if x != id {
                    assert(new_a.ev()[x] == mid[x]);
                    assert(mid[x] == old_a.ev()[x]);
                    assert(old_a.ev()[x] == ev0[x] || old_a.ev()[x] is Var);
                }
            }
            assert(junctions_below(ev0, root).contains(id));
        } else {
            assert(new_a == old_a);
        }
    }
}

/// After a trace of Tseitin's transformation below `root` that ends with room for auxiliary
/// variables, every conjunction and disjunction that `root` reaches is a variable, and the new
/// variables are as many as these conjunctions and disjunctions.
pub proof fn lemma_trace_abbreviates_all(arenas: Seq<Arena>, steps: Seq<(crate::visit::Visitor, ExprId)>, root: ExprId)
    requires
        crate::visit::visit_trace(arenas, steps),
        arenas[0].wf(),
        root < arenas[0].ev().len(),
        forall|k: int| 0 <= k < steps.len() ==> #[trigger] steps[k].0 == crate::visit::Visitor::Nothing
            || steps[k].0 == crate::visit::Visitor::Tseitin,
        forall|k: int| 0 <= k < steps.len() ==> crate::visit::reaches(arenas[0].ev(), root, #[trigger] steps[k].1),
        forall|x: ExprId| crate::visit::reaches(arenas[0].ev(), root, x) ==> #[trigger] steps.contains((crate::visit::Visitor::Tseitin, x)),
        crate::visit::aux_room(&arenas.last()),
    ensures
        arenas.last().ev().len() >= arenas[0].ev().len(),
        forall|x: ExprId| #[trigger] junctions_below(arenas[0].ev(), root).contains(x) ==> arenas.last().ev()[x as int] is Var,
        junctions_below(arenas[0].ev(), root).finite(),
        arenas.last().vars@.len() == arenas[0].vars@.len() + junctions_below(arenas[0].ev(), root).len(),
{
    let ev0 = arenas[0].ev();
    let n = steps.len() as int;
    lemma_trace_abbreviations(arenas, steps, root, n);
    assert forall|x: ExprId| #[trigger] junctions_below(ev0, root).contains(x) implies arenas.last().ev()[x as int] is Var by {
        assert(steps.contains((crate::visit::Visitor::Tseitin, x)));
        let k = choose|k: int| 0 <= k < steps.len() && steps[k] == (crate::visit::Visitor::Tseitin, x);
        lemma_trace_abbreviations(arenas, steps, root, k);
        lemma_trace_abbreviations(arenas, steps, root, k + 1);
        lemma_room_along(arenas, steps, root, k);
        assert(crate::visit::visit_effect(&arenas[k + 1], &arenas[k], steps[k].0, steps[k].1));
        if !(arenas[k].ev()[x as int] is Var) {
            assert(arenas[k].ev()[x as int] == ev0[x as int]);
            let (mid, ds) = choose|mid: Seq<ExprV>, ds: Seq<ExprId>| #[trigger] abbreviation_step(&arenas[k + 1], &arenas[k], x, mid, ds);
        }
        assert(abbreviated_ids(ev0, arenas[k + 1].ev()).contains(x));
        lemma_abbreviated_grows(arenas, steps, root, k + 1, n);
        assert(abbreviated_ids(ev0, arenas[n].ev()).contains(x));
    }
    assert(abbreviated_ids(ev0, arenas[n].ev()) =~= junctions_below(ev0, root));
}

/// An abbreviated expression stays a variable along a trace.
proof fn lemma_abbreviated_grows(arenas: Seq<Arena>, steps: Seq<(crate::visit::Visitor, ExprId)>, root: ExprId, j: int, m: int)
    requires
        crate::visit::visit_trace(arenas, steps),
        arenas[0].wf(),
        root < arenas[0].ev().len(),
        forall|k: int| 0 <= k < steps.len() ==> #[trigger] steps[k].0 == crate::visit::Visitor::Nothing
            || steps[k].0 == crate::visit::Visitor::Tseitin,
        forall|k: int| 0 <= k < steps.len() ==> crate::visit::reaches(arenas[0].ev(), root, #[trigger] steps[k].1),
        0 <= j <= m <= steps.len(),
    ensures
        abbreviated_ids(arenas[0].ev(), arenas[j].ev()).subset_of(abbreviated_ids(arenas[0].ev(), arenas[m].ev())),
    decreases m - j,
{
    if j < m {
        lemma_abbreviated_grows(arenas, steps, root, j + 1, m);
        let ev0 = arenas[0].ev();
        let old_a = arenas[j];
        let new_a = arenas[j + 1];
        let id = steps[j].1;
        lemma_trace_abbreviations(arenas, steps, root, j);
        assert(crate::visit::visit_effect(&new_a, &old_a, steps[j].0, id));
        assert forall|x: ExprId| #[trigger] abbreviated_ids(ev0, old_a.ev()).contains(x) implies abbreviated_ids(ev0, new_a.ev()).contains(x) by {
            if steps[j].0 == crate::visit::Visitor::Tseitin && crate::visit::aux_room(&old_a) && is_junction(old_a.ev()[id as int]) {
                let (mid, ds) = choose|mid: Seq<ExprV>, ds: Seq<ExprId>| #[trigger] abbreviation_step(&new_a, &old_a, id, mid, ds);
                if x != id {
                    assert(new_a.ev()[x as int] == mid[x as int]);
                }
            }
        }
    }
}

/// Room for auxiliary variables at the end of a trace means room at each of its steps.
proof fn lemma_room_along(arenas: Seq<Arena>, steps: Seq<(crate::visit::Visitor, ExprId)>, root: ExprId, k: int)
    requires
        crate::visit::visit_trace(arenas, steps),
        arenas[0].wf(),
        root < arenas[0].ev().len(),
        forall|i: int| 0 <= i < steps.len() ==> #[trigger] steps[i].0 == crate::visit::Visitor::Nothing
            || steps[i].0 == crate::visit::Visitor::Tseitin,
        forall|i: int| 0 <= i < steps.len() ==> crate::visit::reaches(arenas[0].ev(), root, #[trigger] steps[i].1),
        0 <= k <= steps.len(),
        crate::visit::aux_room(&arenas.last()),
    ensures
        crate::visit::aux_room(&arenas[k]),
    decreases steps.len() - k,
{
    if k < steps.len() {
        lemma_room_along(arenas, steps, root, k + 1);
        assert(crate::visit::visit_effect(&arenas[k + 1], &arenas[k], steps[k].0, steps[k].1));
        if steps[k].0 == crate::visit::Visitor::Tseitin && crate::visit::aux_room(&arenas[k]) && is_junction(arenas[k].ev()[steps[k].1 as int]) {
            let (mid, ds) = choose|mid: Seq<ExprV>, ds: Seq<ExprId>| #[trigger] abbreviation_step(&arenas[k + 1], &arenas[k], steps[k].1, mid, ds);
        }
    }
}

} // verus!

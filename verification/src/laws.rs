//! Properties of the library that relate several operations.

use vstd::prelude::*;
use crate::arena::{Arena, canonical_children, child_key, expr_valid, extends, format_list_spec, format_spec, ids_valid,
    key_lt, simp_children, simplified};
use crate::expr::{ExprId, ExprV};
use crate::arena::FORMAT_DEPTH;
use crate::formula::{Formula, mentions, mentions_any, unmentioning};
use crate::var::{VarId, VarV};
use crate::meaning::{all_true, evaluates, node_value, same_meaning, some_true};
use crate::clauses::satisfies;

verus! {

/// Two lists sorted strictly by their keys, holding the same identifiers, are equal.
proof fn lemma_sorted_unique(ev: Seq<ExprV>, ds1: Seq<ExprId>, ds2: Seq<ExprId>)
    requires
        forall|i: int, j: int| 0 <= i < j < ds1.len() ==> key_lt(child_key(ev, #[trigger] ds1[i]), child_key(ev, #[trigger] ds1[j])),
        forall|i: int, j: int| 0 <= i < j < ds2.len() ==> key_lt(child_key(ev, #[trigger] ds2[i]), child_key(ev, #[trigger] ds2[j])),
        forall|x: ExprId| #[trigger] ds1.contains(x) <==> ds2.contains(x),
    ensures
        ds1 == ds2,
{
    let n = if ds1.len() < ds2.len() { ds1.len() as int } else { ds2.len() as int };
    lemma_sorted_prefix(ev, ds1, ds2, n);
    if ds1.len() > ds2.len() {
        let x = ds1[n];
        assert(ds1.contains(x));
        assert(ds2.contains(x));
        let j = choose|j: int| 0 <= j < ds2.len() && ds2[j] == x;
        assert(ds1[j] == x);
        assert(key_lt(child_key(ev, ds1[j]), child_key(ev, ds1[n])));
    } else if ds2.len() > ds1.len() {
        let x = ds2[n];
        assert(ds2.contains(x));
        assert(ds1.contains(x));
        let j = choose|j: int| 0 <= j < ds1.len() && ds1[j] == x;
        assert(ds2[j] == x);
        assert(key_lt(child_key(ev, ds2[j]), child_key(ev, ds2[n])));
    }
    assert(ds1 =~= ds2);
}

/// Two lists sorted strictly by their keys, holding the same identifiers, agree on their first `k` elements.
proof fn lemma_sorted_prefix(ev: Seq<ExprV>, ds1: Seq<ExprId>, ds2: Seq<ExprId>, k: int)
    requires
        forall|i: int, j: int| 0 <= i < j < ds1.len() ==> key_lt(child_key(ev, #[trigger] ds1[i]), child_key(ev, #[trigger] ds1[j])),
        forall|i: int, j: int| 0 <= i < j < ds2.len() ==> key_lt(child_key(ev, #[trigger] ds2[i]), child_key(ev, #[trigger] ds2[j])),
        forall|x: ExprId| #[trigger] ds1.contains(x) <==> ds2.contains(x),
        0 <= k <= ds1.len(),
        k <= ds2.len(),
    ensures
        forall|i: int| 0 <= i < k ==> ds1[i] == ds2[i],
    decreases k,
{
    if k > 0 {
        let i = k - 1;
        lemma_sorted_prefix(ev, ds1, ds2, i);
        let x = ds1[i];
        assert(ds1.contains(x));
        assert(ds2.contains(x));
        let j = choose|j: int| 0 <= j < ds2.len() && ds2[j] == x;
        if j < i {
            assert(ds1[j] == ds2[j]);
            assert(key_lt(child_key(ev, ds1[j]), child_key(ev, ds1[i])));
        } else if j > i {
            let y = ds2[i];
            assert(ds2.contains(y));
            assert(ds1.contains(y));
            let m = choose|m: int| 0 <= m < ds1.len() && ds1[m] == y;
            assert(key_lt(child_key(ev, ds2[i]), child_key(ev, ds2[j])));
            if m < i {
                assert(ds2[m] == ds1[m]);
                assert(key_lt(child_key(ev, ds2[m]), child_key(ev, ds2[i])));
            } else if m == i {
            } else {
                assert(key_lt(child_key(ev, ds1[i]), child_key(ev, ds1[m])));
            }
        }
    }
}

/// Conjunctions (or disjunctions) of the same children simplify in the same way, whatever the
/// order and repetition of the children, also in an arena that has grown since.
proof fn lemma_simplified_same_children(ev1: Seq<ExprV>, ev2: Seq<ExprV>, cs1: Seq<ExprId>, cs2: Seq<ExprId>, out1: ExprV, out2: ExprV, is_and: bool)
    requires
        extends(ev2, ev1),
        ids_valid(cs1, ev1.len()),
        forall|x: ExprId| #[trigger] cs1.contains(x) <==> cs2.contains(x),
        simplified(ev1, if is_and { ExprV::And(cs1) } else { ExprV::Or(cs1) }, out1),
        simplified(ev2, if is_and { ExprV::And(cs2) } else { ExprV::Or(cs2) }, out2),
    ensures
        out1 == out2,
{
    let ds1 = choose|ds: Seq<ExprId>| #[trigger] canonical_children(ev1, cs1, ds) && out1 == simp_children(ev1, ds, is_and);
    let ds2 = choose|ds: Seq<ExprId>| #[trigger] canonical_children(ev2, cs2, ds) && out2 == simp_children(ev2, ds, is_and);
    assert forall|i: int| 0 <= i < ds1.len() implies #[trigger] ds1[i] < ev1.len() by {
        assert(ds1.contains(ds1[i]));
        assert(cs1.contains(ds1[i]));
        let k = choose|k: int| 0 <= k < cs1.len() && cs1[k] == ds1[i];
    }
    assert forall|i: int| 0 <= i < ds2.len() implies #[trigger] ds2[i] < ev1.len() by {
        assert(ds2.contains(ds2[i]));
        assert(cs2.contains(ds2[i]));
        assert(cs1.contains(ds2[i]));
        let k = choose|k: int| 0 <= k < cs1.len() && cs1[k] == ds2[i];
    }
    assert forall|i: int, j: int| 0 <= i < j < ds2.len() implies key_lt(child_key(ev1, #[trigger] ds2[i]), child_key(ev1, #[trigger] ds2[j])) by {
        assert(ev2[ds2[i] as int] == ev1[ds2[i] as int]);
        assert(ev2[ds2[j] as int] == ev1[ds2[j] as int]);
        assert(key_lt(child_key(ev2, ds2[i]), child_key(ev2, ds2[j])));
    }
    assert forall|x: ExprId| #[trigger] ds1.contains(x) <==> ds2.contains(x) by {
        assert(ds1.contains(x) <==> cs1.contains(x));
        assert(ds2.contains(x) <==> cs2.contains(x));
    }
    lemma_sorted_unique(ev1, ds1, ds2);
    if ds1.len() >= 1 {
        assert(ev2[ds1[0] as int] == ev1[ds1[0] as int]);
    }
    if crate::arena::has_adjacent_complement(ev1, ds1) {
        let i = choose|i: int| 0 <= i < ds1.len() - 1 && !(ev1[#[trigger] ds1[i] as int] is Not) && ev1[ds1[i + 1] as int] == ExprV::Not(ds1[i]);
        assert(ev2[ds1[i] as int] == ev1[ds1[i] as int]);
        assert(ev2[ds1[i + 1] as int] == ev1[ds1[i + 1] as int]);
    }
    if crate::arena::has_adjacent_complement(ev2, ds2) {
        let i = choose|i: int| 0 <= i < ds2.len() - 1 && !(ev2[#[trigger] ds2[i] as int] is Not) && ev2[ds2[i + 1] as int] == ExprV::Not(ds2[i]);
        assert(ev2[ds2[i] as int] == ev1[ds2[i] as int]);
        assert(ev2[ds2[i + 1] as int] == ev1[ds2[i + 1] as int]);
    }
}

/// Adding a conjunction (or disjunction) with `Arena::expr`, and then one with the same children
/// in another order or with repetitions, gives the same identifier both times.
///
/// The requirements are what `Arena::expr` ensures of the two calls.
pub proof fn law_expr_ignores_child_order(a0: Arena, a1: Arena, a2: Arena, cs1: Seq<ExprId>, cs2: Seq<ExprId>, is_and: bool, id1: ExprId, id2: ExprId)
    requires
        a0.wf(),
        ids_valid(cs1, a0.ev().len()),
        forall|x: ExprId| #[trigger] cs1.contains(x) <==> cs2.contains(x),
        extends(a1.ev(), a0.ev()),
        simplified(a0.ev(), if is_and { ExprV::And(cs1) } else { ExprV::Or(cs1) }, a1.ev()[id1 as int]),
        a1.lookup(a1.ev()[id1 as int]) == Some(id1),
        extends(a2.ev(), a1.ev()),
        simplified(a1.ev(), if is_and { ExprV::And(cs2) } else { ExprV::Or(cs2) }, a2.ev()[id2 as int]),
        a2.lookup(a2.ev()[id2 as int]) == Some(id2),
        forall|e: ExprV| #[trigger] a2.lookup(e) == a1.lookup(e) || (a1.lookup(e) is None && e == a2.ev()[id2 as int]),
    ensures
        id1 == id2,
{
    lemma_simplified_same_children(a0.ev(), a1.ev(), cs1, cs2, a1.ev()[id1 as int], a2.ev()[id2 as int], is_and);
    assert(a2.lookup(a2.ev()[id2 as int]) == a1.lookup(a2.ev()[id2 as int]) || a1.lookup(a2.ev()[id2 as int]) is None);
}

/// Negating an expression twice with `Arena::expr` gives back the expression's own identifier,
/// provided that it is the identifier the arena holds for it and that it is no negation itself.
///
/// The requirements are what `Arena::expr` ensures of the two calls.
pub proof fn law_double_negation(a0: Arena, a1: Arena, a2: Arena, x: ExprId, id1: ExprId, id2: ExprId)
    requires
        a0.wf(),
        x < a0.ev().len(),
        a0.lookup(a0.ev()[x as int]) == Some(x),
        !(a0.ev()[x as int] is Not),
        extends(a1.ev(), a0.ev()),
        simplified(a0.ev(), ExprV::Not(x), a1.ev()[id1 as int]),
        a1.lookup(a1.ev()[id1 as int]) == Some(id1),
        forall|e: ExprV| #[trigger] a1.lookup(e) == a0.lookup(e) || (a0.lookup(e) is None && e == a1.ev()[id1 as int]),
        id1 < a1.ev().len(),
        extends(a2.ev(), a1.ev()),
        simplified(a1.ev(), ExprV::Not(id1), a2.ev()[id2 as int]),
        a2.lookup(a2.ev()[id2 as int]) == Some(id2),
        forall|e: ExprV| #[trigger] a2.lookup(e) == a1.lookup(e) || (a1.lookup(e) is None && e == a2.ev()[id2 as int]),
    ensures
        id2 == x,
{
    assert(a1.ev()[x as int] == a0.ev()[x as int]);
    assert(a1.ev()[id1 as int] == ExprV::Not(x));
    assert(a2.ev()[id2 as int] == a1.ev()[x as int]);
    assert(a1.lookup(a0.ev()[x as int]) == a0.lookup(a0.ev()[x as int]) || a0.lookup(a0.ev()[x as int]) is None);
    assert(a2.lookup(a0.ev()[x as int]) == a1.lookup(a0.ev()[x as int]) || a1.lookup(a0.ev()[x as int]) is None);
}

/// How an existing expression prints does not change when the arena grows (as when further
/// formulas are parsed into it or transformed in it).
pub proof fn law_format_stable(ev1: Seq<ExprV>, ev2: Seq<ExprV>, vv1: Seq<VarV>, vv2: Seq<VarV>, aux: Seq<char>, id: ExprId, fuel: nat)
    requires
        extends(ev2, ev1),
        extends(vv2, vv1),
        forall|i: int| 0 <= i < ev1.len() ==> expr_valid(#[trigger] ev1[i], ev1.len(), vv1.len()),
        id < ev1.len(),
    ensures
        format_spec(ev2, vv2, aux, id, fuel) == format_spec(ev1, vv1, aux, id, fuel),
    decreases fuel, 0nat,
{
    if fuel > 0 {
        assert(ev2[id as int] == ev1[id as int]);
        assert(expr_valid(ev1[id as int], ev1.len(), vv1.len()));
        match ev1[id as int] {
            ExprV::Var(v) => {
                assert(vv2[v as int] == vv1[v as int]);
            },
            ExprV::Not(c) => {
                lemma_format_list_stable(ev1, ev2, vv1, vv2, aux, seq![c], (fuel - 1) as nat);
            },
            ExprV::And(cs) => {
                lemma_format_list_stable(ev1, ev2, vv1, vv2, aux, cs, (fuel - 1) as nat);
            },
            ExprV::Or(cs) => {
                lemma_format_list_stable(ev1, ev2, vv1, vv2, aux, cs, (fuel - 1) as nat);
            },
        }
    }
}

/// How a list of existing expressions prints does not change when the arena grows.
proof fn lemma_format_list_stable(ev1: Seq<ExprV>, ev2: Seq<ExprV>, vv1: Seq<VarV>, vv2: Seq<VarV>, aux: Seq<char>, cs: Seq<ExprId>, fuel: nat)
    requires
        extends(ev2, ev1),
        extends(vv2, vv1),
        forall|i: int| 0 <= i < ev1.len() ==> expr_valid(#[trigger] ev1[i], ev1.len(), vv1.len()),
        ids_valid(cs, ev1.len()),
    ensures
        format_list_spec(ev2, vv2, aux, cs, fuel) == format_list_spec(ev1, vv1, aux, cs, fuel),
    decreases fuel, cs.len(),
{
    if cs.len() == 1 {
        law_format_stable(ev1, ev2, vv1, vv2, aux, cs[0], fuel);
    } else if cs.len() > 1 {
        assert(ids_valid(cs.drop_last(), ev1.len())) by {
            assert forall|i: int| 0 <= i < cs.drop_last().len() implies #[trigger] cs.drop_last()[i] < ev1.len() by {
                assert(cs.drop_last()[i] == cs[i]);
            }
        }
        lemma_format_list_stable(ev1, ev2, vv1, vv2, aux, cs.drop_last(), fuel);
        law_format_stable(ev1, ev2, vv1, vv2, aux, cs.last(), fuel);
    }
}

/// The variables common to two formulas (`Formula::common_vars`) and those only in one of them
/// (`Formula::except_vars`) partition the variables of both (`Formula::all_vars`): each formula's
/// variables are its common and its own variables, and the three parts do not overlap.
pub proof fn law_vars_partition(a: &Formula, b: &Formula)
    ensures
        a.sub_var_ids@.intersect(b.sub_var_ids@).union(a.sub_var_ids@.difference(b.sub_var_ids@)) == a.sub_var_ids@,
        a.sub_var_ids@.intersect(b.sub_var_ids@).union(b.sub_var_ids@.difference(a.sub_var_ids@)) == b.sub_var_ids@,
        a.sub_var_ids@.intersect(b.sub_var_ids@).union(a.sub_var_ids@.difference(b.sub_var_ids@)).union(b.sub_var_ids@.difference(a.sub_var_ids@))
            == a.sub_var_ids@.union(b.sub_var_ids@),
        a.sub_var_ids@.intersect(b.sub_var_ids@).disjoint(a.sub_var_ids@.difference(b.sub_var_ids@)),
        a.sub_var_ids@.intersect(b.sub_var_ids@).disjoint(b.sub_var_ids@.difference(a.sub_var_ids@)),
        a.sub_var_ids@.difference(b.sub_var_ids@).disjoint(b.sub_var_ids@.difference(a.sub_var_ids@)),
        a.sub_var_ids@.intersect(b.sub_var_ids@) == b.sub_var_ids@.intersect(a.sub_var_ids@),
{
    let (x, y) = (a.sub_var_ids@, b.sub_var_ids@);
    assert(x.intersect(y).union(x.difference(y)) =~= x);
    assert(x.intersect(y).union(y.difference(x)) =~= y);
    assert(x.intersect(y).union(x.difference(y)).union(y.difference(x)) =~= x.union(y));
    assert(x.intersect(y) =~= y.intersect(x));
}

/// A list of expressions mentions a variable exactly if one of them does.
proof fn lemma_mentions_any_iff(ev: Seq<ExprV>, cs: Seq<ExprId>, vars: Set<VarId>, fuel: nat)
    ensures
        mentions_any(ev, cs, vars, fuel) <==> exists|i: int| 0 <= i < cs.len() && #[trigger] mentions(ev, cs[i], vars, fuel),
    decreases cs.len(),
{
    if cs.len() > 0 {
        lemma_mentions_any_iff(ev, cs.drop_last(), vars, fuel);
        if mentions_any(ev, cs.drop_last(), vars, fuel) {
            let i = choose|i: int| 0 <= i < cs.drop_last().len() && #[trigger] mentions(ev, cs.drop_last()[i], vars, fuel);
            assert(cs[i] == cs.drop_last()[i]);
        }
        if exists|i: int| 0 <= i < cs.len() && #[trigger] mentions(ev, cs[i], vars, fuel) {
            let i = choose|i: int| 0 <= i < cs.len() && #[trigger] mentions(ev, cs[i], vars, fuel);
            if i < cs.len() - 1 {
                assert(cs.drop_last()[i] == cs[i]);
            }
        }
        if mentions(ev, cs.last(), vars, fuel) {
            assert(cs[cs.len() - 1] == cs.last());
        }
    }
}

/// Looking deeper finds at least the mentions found before.
proof fn lemma_mentions_fuel(ev: Seq<ExprV>, id: ExprId, vars: Set<VarId>, fuel: nat)
    ensures
        mentions(ev, id, vars, fuel) ==> mentions(ev, id, vars, fuel + 1),
    decreases fuel,
{
    if fuel > 0 && mentions(ev, id, vars, fuel) {
        let cs = match ev[id as int] {
            ExprV::Var(_) => Seq::<ExprId>::empty(),
            ExprV::Not(c) => seq![c],
            ExprV::And(cs) => cs,
            ExprV::Or(cs) => cs,
        };
        if !(ev[id as int] is Var) {
            lemma_mentions_any_iff(ev, cs, vars, (fuel - 1) as nat);
            lemma_mentions_any_iff(ev, cs, vars, fuel);
            let i = choose|i: int| 0 <= i < cs.len() && #[trigger] mentions(ev, cs[i], vars, (fuel - 1) as nat);
            lemma_mentions_fuel(ev, cs[i], vars, (fuel - 1) as nat);
            assert(mentions(ev, cs[i], vars, fuel));
        }
    }
}

/// Whether an expression mentions a variable does not change when the arena grows.
proof fn lemma_mentions_extends(ev0: Seq<ExprV>, ev1: Seq<ExprV>, id: ExprId, vars: Set<VarId>, fuel: nat, n_vars: nat)
    requires
        forall|i: int| 0 <= i < ev0.len() ==> expr_valid(#[trigger] ev0[i], ev0.len(), n_vars),
        extends(ev1, ev0),
        id < ev0.len(),
    ensures
        mentions(ev1, id, vars, fuel) == mentions(ev0, id, vars, fuel),
    decreases fuel,
{
    if fuel > 0 {
        assert(ev1[id as int] == ev0[id as int]);
        assert(expr_valid(ev0[id as int], ev0.len(), n_vars));
        let cs = match ev0[id as int] {
            ExprV::Var(_) => Seq::<ExprId>::empty(),
            ExprV::Not(c) => seq![c],
            ExprV::And(cs) => cs,
            ExprV::Or(cs) => cs,
        };
        if !(ev0[id as int] is Var) {
            lemma_mentions_any_iff(ev0, cs, vars, (fuel - 1) as nat);
            lemma_mentions_any_iff(ev1, cs, vars, (fuel - 1) as nat);
            assert forall|i: int| 0 <= i < cs.len() implies
                #[trigger] mentions(ev1, cs[i], vars, (fuel - 1) as nat) == mentions(ev0, cs[i], vars, (fuel - 1) as nat) by {
                lemma_mentions_extends(ev0, ev1, cs[i], vars, (fuel - 1) as nat, n_vars);
            }
            if mentions_any(ev1, cs, vars, (fuel - 1) as nat) {
                let i = choose|i: int| 0 <= i < cs.len() && #[trigger] mentions(ev1, cs[i], vars, (fuel - 1) as nat);
                assert(mentions(ev0, cs[i], vars, (fuel - 1) as nat));
            }
            if mentions_any(ev0, cs, vars, (fuel - 1) as nat) {
                let i = choose|i: int| 0 <= i < cs.len() && #[trigger] mentions(ev0, cs[i], vars, (fuel - 1) as nat);
                assert(mentions(ev1, cs[i], vars, (fuel - 1) as nat));
            }
            assert(mentions(ev0, id, vars, fuel) == mentions_any(ev0, cs, vars, (fuel - 1) as nat));
            assert(mentions(ev1, id, vars, fuel) == mentions_any(ev1, cs, vars, (fuel - 1) as nat));
        }
    }
}

/// The expressions that `unmentioning` keeps are among the given ones and mention none of the variables.
proof fn lemma_unmentioning_sound(ev: Seq<ExprV>, cs: Seq<ExprId>, vars: Set<VarId>)
    ensures
        forall|i: int| 0 <= i < unmentioning(ev, cs, vars).len() ==>
            cs.contains(#[trigger] unmentioning(ev, cs, vars)[i]) && !mentions(ev, unmentioning(ev, cs, vars)[i], vars, FORMAT_DEPTH as nat),
    decreases cs.len(),
{
    if cs.len() > 0 {
        lemma_unmentioning_sound(ev, cs.drop_last(), vars);
        let u = unmentioning(ev, cs, vars);
        let p = unmentioning(ev, cs.drop_last(), vars);
        assert forall|i: int| 0 <= i < u.len() implies cs.contains(#[trigger] u[i]) && !mentions(ev, u[i], vars, FORMAT_DEPTH as nat) by {
            if i < p.len() {
                assert(u[i] == p[i]);
                let k = choose|k: int| 0 <= k < cs.drop_last().len() && cs.drop_last()[k] == p[i];
                assert(cs[k] == p[i]);
            } else {
                assert(u[i] == cs.last());
                assert(cs[cs.len() - 1] == cs.last());
            }
        }
    }
}

/// The reduction of a formula by `Formula::remove_constraints` (the pseudo slice of incremental
/// counting) mentions none of the removed variables.
///
/// The requirements are what `Formula::remove_constraints` ensures of its result's root
/// (`root` is the formula's root, `r_root` the result's) in a well-formed arena of `n_vars` variables.
pub proof fn law_removed_variables_not_mentioned(ev0: Seq<ExprV>, ev1: Seq<ExprV>, n_vars: nat, root: ExprId, ids: Set<VarId>, r_root: ExprId)
    requires
        forall|i: int| 0 <= i < ev0.len() ==> expr_valid(#[trigger] ev0[i], ev0.len(), n_vars),
        root < ev0.len(),
        ev0[root as int] is And,
        extends(ev1, ev0),
        r_root < ev1.len(),
        simplified(ev0, ExprV::And(unmentioning(ev0, crate::expr::children(ev0[root as int]), ids)), ev1[r_root as int]),
    ensures
        !mentions(ev1, r_root, ids, FORMAT_DEPTH as nat),
{
    let cs = crate::expr::children(ev0[root as int]);
    let kept = unmentioning(ev0, cs, ids);
    let f = FORMAT_DEPTH as nat;
    lemma_unmentioning_sound(ev0, cs, ids);
    assert(expr_valid(ev0[root as int], ev0.len(), n_vars));
    let ds = choose|ds: Seq<ExprId>| #[trigger] canonical_children(ev0, kept, ds) && ev1[r_root as int] == simp_children(ev0, ds, true);
    assert forall|i: int| 0 <= i < ds.len() implies !mentions(ev1, #[trigger] ds[i], ids, f) && ds[i] < ev0.len() by {
        assert(ds.contains(ds[i]));
        assert(kept.contains(ds[i]));
        let k = choose|k: int| 0 <= k < kept.len() && kept[k] == ds[i];
        assert(cs.contains(kept[k]));
        lemma_mentions_extends(ev0, ev1, ds[i], ids, f, n_vars);
    }
    if ds.len() == 1 {
        assert(ev1[r_root as int] == ev0[ds[0] as int]);
        assert(ev1[ds[0] as int] == ev0[ds[0] as int]);
        assert(!mentions(ev1, ds[0], ids, f));
    } else if has_adjacent_complement_at(ev0, ds) {
        assert(ev1[r_root as int] == ExprV::Or(Seq::<ExprId>::empty()));
    } else {
        assert(ev1[r_root as int] == ExprV::And(ds));
        lemma_mentions_any_iff(ev1, ds, ids, (f - 1) as nat);
        assert forall|i: int| 0 <= i < ds.len() implies !#[trigger] mentions(ev1, ds[i], ids, (f - 1) as nat) by {
            lemma_mentions_fuel(ev1, ds[i], ids, (f - 1) as nat);
        }
    }
}

/// Whether some child in a sorted child list is directly followed by its own negation (see
/// `has_adjacent_complement`).
spec fn has_adjacent_complement_at(ev: Seq<ExprV>, ds: Seq<ExprId>) -> bool {
    crate::arena::has_adjacent_complement(ev, ds)
}

/// A fixed diff mode written with empty file names (`true,,` or `false,,`) is the mode without
/// files (`true` or `false`): an empty file name means that no variables are read for that set.
pub proof fn law_empty_file_names_mean_no_files(default: bool)
    ensures
        crate::shell::diff_mode_spec((if default { crate::shell::word_true() } else { crate::shell::word_false() }) + seq![',', ','])
            == crate::shell::diff_mode_spec(if default { crate::shell::word_true() } else { crate::shell::word_false() }),
{
    let w = if default { crate::shell::word_true() } else { crate::shell::word_false() };
    let s = w + seq![',', ','];
    let n = w.len() as int;
    assert(s.len() == n + 2);
    assert(s != crate::shell::word_slice()) by {
        if s == crate::shell::word_slice() {
            assert(s.len() == 5);
            assert(s[s.len() - 1] == 'e');
        }
    }
    assert(s != crate::shell::word_true()) by {
        if s == crate::shell::word_true() {
            assert(s.len() == 4);
        }
    }
    assert(s != crate::shell::word_false()) by {
        if s == crate::shell::word_false() {
            assert(s.len() == 5);
            assert(s[s.len() - 1] == 'e');
        }
    }
    assert(crate::shell::find_char(s, ',', 0) == Some(n)) by {
        reveal_with_fuel(crate::shell::find_char, 7);
    }
    assert(crate::shell::find_char(s, ',', n + 1) == Some(n + 1));
    assert(s.subrange(0, n) =~= w);
    assert(s.subrange(n + 1, n + 1) =~= Seq::<char>::empty());
    assert(s.subrange(n + 2, s.len() as int) =~= Seq::<char>::empty());
    assert(crate::shell::word_true() != crate::shell::word_false()) by {
        assert(crate::shell::word_true().len() != crate::shell::word_false().len());
    }
}

/// The clauses that a list lacks of itself: none.
proof fn lemma_missing_from_self(xs: Seq<Seq<VarId>>, ys: Seq<Seq<VarId>>)
    requires
        forall|i: int| 0 <= i < xs.len() ==> ys.contains(#[trigger] xs[i]),
    ensures
        crate::simplified::missing_from(xs, ys).len() == 0,
    decreases xs.len(),
{
    if xs.len() > 0 {
        assert forall|i: int| 0 <= i < xs.drop_last().len() implies ys.contains(#[trigger] xs.drop_last()[i]) by {
            assert(xs.drop_last()[i] == xs[i]);
        }
        lemma_missing_from_self(xs.drop_last(), ys);
        assert(ys.contains(xs[xs.len() - 1]));
    }
}

/// Simplified reasoning about an edit that leaves the clauses unchanged (as compared in canonical
/// form) asks no queries: the edit removes no solutions and adds none.
pub proof fn law_unchanged_clauses_need_no_queries(q: crate::simplified::SimplifiedQueries, n: int)
    requires
        crate::simplified::simplified_spec(q, n),
        crate::simplified::canonical_clauses(q.left, n) == crate::simplified::canonical_clauses(q.right, n),
    ensures
        q.removed@.len() == 0,
        q.added@.len() == 0,
{
    let c = crate::simplified::canonical_clauses(q.left, n);
    assert forall|i: int| 0 <= i < c.len() implies c.contains(#[trigger] c[i]) by {}
    lemma_missing_from_self(c, c);
    assert(crate::simplified::lists_view(q.removed@).len() == q.removed@.len());
    assert(crate::simplified::lists_view(q.added@).len() == q.added@.len());
}

/// A conjunction (or disjunction) has the same truth value over two lists with the same members.
proof fn lemma_same_members_same_value(cs: Seq<ExprId>, ds: Seq<ExprId>, is_and: bool, value: spec_fn(ExprId) -> bool, assignment: spec_fn(VarId) -> bool)
    requires
        forall|x: ExprId| #[trigger] ds.contains(x) <==> cs.contains(x),
    ensures
        node_value(if is_and { ExprV::And(ds) } else { ExprV::Or(ds) }, value, assignment)
            == node_value(if is_and { ExprV::And(cs) } else { ExprV::Or(cs) }, value, assignment),
{
    if is_and {
        assert(node_value(ExprV::And(ds), value, assignment) == all_true(value, ds));
        assert(node_value(ExprV::And(cs), value, assignment) == all_true(value, cs));
        if all_true(value, cs) {
            assert forall|j: int| 0 <= j < ds.len() implies #[trigger] value(ds[j]) by {
                assert(ds.contains(ds[j]));
                assert(cs.contains(ds[j]));
                let k = choose|k: int| 0 <= k < cs.len() && cs[k] == ds[j];
                assert(value(cs[k]));
            }
        }
        if all_true(value, ds) {
            assert forall|i: int| 0 <= i < cs.len() implies #[trigger] value(cs[i]) by {
                assert(cs.contains(cs[i]));
                assert(ds.contains(cs[i]));
                let k = choose|k: int| 0 <= k < ds.len() && ds[k] == cs[i];
                assert(value(ds[k]));
            }
        }
    } else {
        assert(node_value(ExprV::Or(ds), value, assignment) == some_true(value, ds));
        assert(node_value(ExprV::Or(cs), value, assignment) == some_true(value, cs));
        if some_true(value, cs) {
            let i = choose|i: int| 0 <= i < cs.len() && #[trigger] value(cs[i]);
            assert(cs.contains(cs[i]));
            assert(ds.contains(cs[i]));
            let k = choose|k: int| 0 <= k < ds.len() && ds[k] == cs[i];
            assert(value(ds[k]));
        }
        if some_true(value, ds) {
            let j = choose|j: int| 0 <= j < ds.len() && #[trigger] value(ds[j]);
            assert(ds.contains(ds[j]));
            assert(cs.contains(ds[j]));
            let k = choose|k: int| 0 <= k < cs.len() && cs[k] == ds[j];
            assert(value(cs[k]));
        }
    }
}

/// The simplification that `Arena::expr` applies to an expression (sorting and deduplicating
/// children, replacing a unary conjunction or disjunction by its child, removing double negations,
/// detecting a child next to its negation) does not change its truth value, under any assignment.
///
/// `value` is the truth value of each expression of the arena under `assignment`.
pub proof fn law_simplification_preserves_meaning(ev: Seq<ExprV>, n_vars: nat, e: ExprV, out: ExprV,
    value: spec_fn(ExprId) -> bool, assignment: spec_fn(VarId) -> bool)
    requires
        forall|i: int| 0 <= i < ev.len() ==> expr_valid(#[trigger] ev[i], ev.len(), n_vars),
        expr_valid(e, ev.len(), n_vars),
        simplified(ev, e, out),
        evaluates(ev, value, assignment),
    ensures
        node_value(out, value, assignment) == node_value(e, value, assignment),
{
    match e {
        ExprV::Var(_) => {},
        ExprV::Not(c) => {
            assert(value(c) == node_value(ev[c as int], value, assignment));
            if let ExprV::Not(g) = ev[c as int] {
                assert(expr_valid(ev[c as int], ev.len(), n_vars));
                assert(value(g) == node_value(ev[g as int], value, assignment));
            }
        },
        ExprV::And(cs) => {
            let ds = choose|ds: Seq<ExprId>| #[trigger] canonical_children(ev, cs, ds) && out == simp_children(ev, ds, true);
            lemma_simp_children_value(ev, cs, ds, true, value, assignment);
        },
        ExprV::Or(cs) => {
            let ds = choose|ds: Seq<ExprId>| #[trigger] canonical_children(ev, cs, ds) && out == simp_children(ev, ds, false);
            lemma_simp_children_value(ev, cs, ds, false, value, assignment);
        },
    }
}

/// The simplification of a conjunction (or disjunction) with canonical children has its truth value.
proof fn lemma_simp_children_value(ev: Seq<ExprV>, cs: Seq<ExprId>, ds: Seq<ExprId>, is_and: bool,
    value: spec_fn(ExprId) -> bool, assignment: spec_fn(VarId) -> bool)
    requires
        ids_valid(cs, ev.len()),
        canonical_children(ev, cs, ds),
        evaluates(ev, value, assignment),
    ensures
        node_value(simp_children(ev, ds, is_and), value, assignment)
            == node_value(if is_and { ExprV::And(cs) } else { ExprV::Or(cs) }, value, assignment),
{
    lemma_same_members_same_value(cs, ds, is_and, value, assignment);
    assert forall|j: int| 0 <= j < ds.len() implies #[trigger] ds[j] < ev.len() by {
        assert(ds.contains(ds[j]));
        let k = choose|k: int| 0 <= k < cs.len() && cs[k] == ds[j];
    }
    if ds.len() == 1 {
        assert(value(ds[0]) == node_value(ev[ds[0] as int], value, assignment));
        if is_and {
            assert(node_value(ExprV::And(ds), value, assignment) == value(ds[0]));
        } else {
            assert(node_value(ExprV::Or(ds), value, assignment) == value(ds[0])) by {
                if value(ds[0]) {
                    assert(0 <= 0 < ds.len() && value(ds[0]));
                }
            }
        }
    } else if crate::arena::has_adjacent_complement(ev, ds) {
        let i = choose|i: int| 0 <= i < ds.len() - 1 && !(ev[#[trigger] ds[i] as int] is Not) && ev[ds[i + 1] as int] == ExprV::Not(ds[i]);
        assert(value(ds[i + 1]) == node_value(ev[ds[i + 1] as int], value, assignment));
        assert(value(ds[i + 1]) == !value(ds[i]));
        if is_and {
            if value(ds[i]) {
                assert(!value(ds[i + 1]));
            }
        } else {
            if value(ds[i]) {
                assert(0 <= i < ds.len() && value(ds[i]));
            } else {
                assert(0 <= i + 1 < ds.len() && value(ds[i + 1]));
            }
        }
    }
}

/// Flattening (splicing the children of a child of the same kind into its parent, as `Arena::expr`
/// callers do with `Arena::flatten_expr`) does not change the truth value of an expression, under any assignment.
///
/// `value` is the truth value of each expression of the arena under `assignment`.
pub proof fn law_flattening_preserves_meaning(ev: Seq<ExprV>, n_vars: nat, e: ExprV,
    value: spec_fn(ExprId) -> bool, assignment: spec_fn(VarId) -> bool)
    requires
        forall|i: int| 0 <= i < ev.len() ==> expr_valid(#[trigger] ev[i], ev.len(), n_vars),
        expr_valid(e, ev.len(), n_vars),
        evaluates(ev, value, assignment),
    ensures
        node_value(crate::arena::flattened(ev, e), value, assignment) == node_value(e, value, assignment),
{
    match e {
        ExprV::And(cs) => lemma_flatten_ids_value(ev, n_vars, cs, true, value, assignment),
        ExprV::Or(cs) => lemma_flatten_ids_value(ev, n_vars, cs, false, value, assignment),
        _ => {},
    }
}

/// Flattening a list of children keeps the truth value of their conjunction (or disjunction).
proof fn lemma_flatten_ids_value(ev: Seq<ExprV>, n_vars: nat, cs: Seq<ExprId>, is_and: bool,
    value: spec_fn(ExprId) -> bool, assignment: spec_fn(VarId) -> bool)
    requires
        forall|i: int| 0 <= i < ev.len() ==> expr_valid(#[trigger] ev[i], ev.len(), n_vars),
        ids_valid(cs, ev.len()),
        evaluates(ev, value, assignment),
    ensures
        node_value(if is_and { ExprV::And(crate::arena::flatten_ids(ev, cs, is_and)) } else { ExprV::Or(crate::arena::flatten_ids(ev, cs, is_and)) }, value, assignment)
            == node_value(if is_and { ExprV::And(cs) } else { ExprV::Or(cs) }, value, assignment),
    decreases cs.len(),
{
    if cs.len() > 0 {
        let init = cs.drop_last();
        let c = cs.last();
        lemma_flatten_ids_value(ev, n_vars, init, is_and, value, assignment);
        let fi = crate::arena::flatten_ids(ev, init, is_and);
        let piece = crate::arena::flatten_piece(ev, c, is_and);
        let f = crate::arena::flatten_ids(ev, cs, is_and);
        assert(f == fi + piece);
        assert(c < ev.len());
        assert(value(c) == node_value(ev[c as int], value, assignment));
        assert(expr_valid(ev[c as int], ev.len(), n_vars));
        // The piece contributes exactly the value of `c`.
        let piece_value = if is_and { all_true(value, piece) } else { some_true(value, piece) };
        assert(piece_value == value(c)) by {
            let single = match ev[c as int] {
                ExprV::And(_) => !is_and,
                ExprV::Or(_) => is_and,
                _ => true,
            };
            if single {
                assert(piece == seq![c]);
                assert(piece[0] == c);
                if !is_and && value(c) {
                    assert(0 <= 0 < piece.len() && value(piece[0]));
                }
            } else {
                assert(piece == crate::expr::children(ev[c as int]));
            }
        }
        if is_and {
            assert(node_value(ExprV::And(f), value, assignment) == all_true(value, f));
            assert(node_value(ExprV::And(fi), value, assignment) == all_true(value, fi));
            assert(node_value(ExprV::And(cs), value, assignment) == all_true(value, cs));
            assert(node_value(ExprV::And(init), value, assignment) == all_true(value, init));
            assert(all_true(value, f)
                == (all_true(value, fi) && piece_value)) by {
                if all_true(value, f) {
                    assert forall|i: int| 0 <= i < fi.len() implies #[trigger] value(fi[i]) by { assert(f[i] == fi[i]); }
                    assert forall|i: int| 0 <= i < piece.len() implies #[trigger] value(piece[i]) by { assert(f[fi.len() + i] == piece[i]); }
                }
                if all_true(value, fi) && piece_value {
                    assert forall|i: int| 0 <= i < f.len() implies #[trigger] value(f[i]) by {
                        if i < fi.len() { assert(f[i] == fi[i]); } else { assert(f[i] == piece[i - fi.len()]); }
                    }
                }
            }
            assert(all_true(value, cs)
                == (all_true(value, init) && value(c))) by {
                if all_true(value, cs) {
                    assert forall|i: int| 0 <= i < init.len() implies #[trigger] value(init[i]) by { assert(cs[i] == init[i]); }
                    assert(value(cs[cs.len() - 1]));
                }
                if all_true(value, init) && value(c) {
                    assert forall|i: int| 0 <= i < cs.len() implies #[trigger] value(cs[i]) by {
                        if i < init.len() { assert(cs[i] == init[i]); }
                    }
                }
            }
        } else {
            assert(node_value(ExprV::Or(f), value, assignment) == some_true(value, f));
            assert(node_value(ExprV::Or(fi), value, assignment) == some_true(value, fi));
            assert(node_value(ExprV::Or(cs), value, assignment) == some_true(value, cs));
            assert(node_value(ExprV::Or(init), value, assignment) == some_true(value, init));
            assert(some_true(value, f)
                == (some_true(value, fi) || piece_value)) by {
                if some_true(value, f) {
                    let i = choose|i: int| 0 <= i < f.len() && #[trigger] value(f[i]);
                    if i < fi.len() { assert(f[i] == fi[i]); } else { assert(f[i] == piece[i - fi.len()]); }
                }
                if some_true(value, fi) {
                    let i = choose|i: int| 0 <= i < fi.len() && #[trigger] value(fi[i]);
                    assert(f[i] == fi[i]);
                }
                if piece_value {
                    let i = choose|i: int| 0 <= i < piece.len() && #[trigger] value(piece[i]);
                    assert(f[fi.len() + i] == piece[i]);
                }
            }
            assert(some_true(value, cs)
                == (some_true(value, init) || value(c))) by {
                if some_true(value, cs) {
                    let i = choose|i: int| 0 <= i < cs.len() && #[trigger] value(cs[i]);
                    if i < init.len() { assert(cs[i] == init[i]); }
                }
                if some_true(value, init) {
                    let i = choose|i: int| 0 <= i < init.len() && #[trigger] value(init[i]);
                    assert(cs[i] == init[i]);
                }
                if value(c) {
                    assert(cs[cs.len() - 1] == c);
                }
            }
        }
    }
}

/// The clauses of a formula brought into conjunctive normal form have exactly the models of the
/// formula: when a transformation keeps the meaning of the root (as `Formula::to_cnf_dist`,
/// `Formula::to_nnf` and `Formula::to_canon` do) and the transformed formula has the clauses `cs`
/// (as `Formula::to_clauses` returns them), then under any assignment of the variables the clauses
/// are satisfied exactly when the given formula is true.
///
/// `value` is the truth value of each expression of the given arena under `assignment`.
pub proof fn law_cnf_clauses_mean_the_formula(old_ev: Seq<ExprV>, new_ev: Seq<ExprV>, old_root: ExprId, new_root: ExprId,
    ids: Seq<VarId>, cs: Seq<Seq<VarId>>, value: spec_fn(ExprId) -> bool, assignment: spec_fn(VarId) -> bool)
    requires
        same_meaning(new_ev, new_root, old_ev, old_root),
        forall|value2: spec_fn(ExprId) -> bool, assignment2: spec_fn(VarId) -> bool|
            #[trigger] evaluates(new_ev, value2, assignment2) ==> value2(new_root) == satisfies(cs, ids, assignment2),
        evaluates(old_ev, value, assignment),
    ensures
        value(old_root) == satisfies(cs, ids, assignment),
{
    let value2 = choose|value2: spec_fn(ExprId) -> bool| #[trigger] evaluates(new_ev, value2, assignment) && value2(new_root) == value(old_root);
}

/// Storing the same expression a second time returns the identifier of the first time and
/// leaves the arena unchanged (structural sharing).
pub proof fn law_expr_stores_once(a0: Arena, a1: Arena, a2: Arena, e: ExprV, id1: ExprId, id2: ExprId)
    requires
        a0.wf(),
        crate::arena::expr_valid(e, a0.ev().len(), a0.vars@.len()),
        crate::arena::expr_stored(a1, a0, e, id1),
        crate::arena::expr_stored(a2, a1, e, id2),
    ensures
        id2 == id1,
        a2 == a1,
{
    crate::meaning::lemma_wf_all_valid(&a0);
    crate::arena::lemma_simplified_extends(a0.ev(), a1.ev(), e, a1.ev()[id1 as int], a0.vars@.len());
    assert(crate::arena::simplified(a1.ev(), e, a1.ev()[id1 as int]));
}

} // verus!

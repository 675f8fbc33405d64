//! Visitors that transform single expressions of an arena.

use std::collections::HashSet;
use vstd::prelude::*;
use crate::arena::{Arena, expr_valid, extends, flattened, ids_valid, simplified, var_ids_valid};
use crate::expr::{Expr, ExprId, ExprV};
use crate::meaning::{agrees, all_true, evaluates, extended_value, keeps_meaning, node_value, some_true};
use crate::tseitin::{abbreviated, defining, lemma_defining_step, tseitin_hyp};
use crate::var::VarId;

verus! {

broadcast use vstd::std_specs::hash::group_hash_axioms;

/// A transformation applied to single expressions during a traversal.
pub enum Visitor {
    /// Leaves the expression unchanged.
    Nothing,
    /// Re-stores the expression, which canonicalizes, flattens and simplifies it.
    Canon,
    /// Applies De Morgan's laws to a negation of a conjunction or disjunction.
    Nnf,
    /// Distributes a disjunction over its conjunctive children.
    CnfDist,
    /// Abbreviates a conjunction or disjunction with a new auxiliary variable.
    Tseitin,
    /// Replaces children that are the first variable by the expression of the second variable.
    RenameVar(VarId, ExprId),
}

/// How an arena may change during a traversal: it stays well-formed, no expression
/// or variable is removed, existing variables are unchanged, and the Tseitin buffers stay in place.
pub open spec fn grows(new: &Arena, old: &Arena) -> bool {
    &&& new.wf()
    &&& new.ev().len() >= old.ev().len()
    &&& extends(new.vv(), old.vv())
    &&& (new.new_vars is Some <==> old.new_vars is Some)
    &&& (new.new_exprs is Some <==> old.new_exprs is Some)
}

/// Whether `new` is `old` with the expression `e` stored at `id` as `Arena::set_expr` stores it:
/// with canonical children, flattened and simplified (an expression that is a variable stays).
pub open spec fn stored_at(new: &Arena, old: &Arena, id: ExprId, e: ExprV) -> bool {
    &&& new.wf()
    &&& new.vars == old.vars
    &&& new.new_vars == old.new_vars
    &&& new.new_exprs == old.new_exprs
    &&& (old.ev()[id as int] is Var ==> new.ev() == old.ev())
    &&& (!(old.ev()[id as int] is Var) ==> exists|c: ExprV| #[trigger] old.canonicalized(e, c)
        && simplified(old.ev(), flattened(old.ev(), c), new.ev()[id as int])
        && new.ev() == old.ev().update(id as int, new.ev()[id as int]))
}

/// Whether `mid` is `old` after storing the negations `negs` of the expressions `gs`: each
/// `negs[i]` holds the simplification of `Not(gs[i])`.
pub open spec fn negated(mid: &Arena, old: &Arena, gs: Seq<ExprId>, negs: Seq<ExprId>) -> bool {
    &&& mid.wf()
    &&& extends(mid.ev(), old.ev())
    &&& mid.vars == old.vars
    &&& mid.new_vars == old.new_vars
    &&& mid.new_exprs == old.new_exprs
    &&& negs.len() == gs.len()
    &&& forall|i: int| 0 <= i < negs.len() ==> #[trigger] negs[i] < mid.ev().len()
        && simplified(old.ev(), ExprV::Not(gs[i]), mid.ev()[negs[i] as int])
}

/// What the negation-normal-form visitor does to the expression `id`: a negated conjunction
/// becomes the disjunction of the negated children (and vice versa), a double negation is stored
/// again (which removes it), and any other expression is left as it is.
pub open spec fn nnf_step(new: &Arena, old: &Arena, id: ExprId) -> bool {
    match old.ev()[id as int] {
        ExprV::Not(c) => match old.ev()[c as int] {
            ExprV::Not(_) => stored_at(new, old, id, old.ev()[id as int]),
            ExprV::And(gs) => exists|mid: Arena, negs: Seq<ExprId>| #[trigger] negated(&mid, old, gs, negs)
                && stored_at(new, &mid, id, ExprV::Or(negs)),
            ExprV::Or(gs) => exists|mid: Arena, negs: Seq<ExprId>| #[trigger] negated(&mid, old, gs, negs)
                && stored_at(new, &mid, id, ExprV::And(negs)),
            _ => *new == *old,
        },
        _ => *new == *old,
    }
}

/// The children `cs` with every child that is the variable `var` replaced by `new_id`.
pub open spec fn renamed(ev: Seq<ExprV>, cs: Seq<ExprId>, var: VarId, new_id: ExprId) -> Seq<ExprId> {
    cs.map_values(|c: ExprId| if ev[c as int] == ExprV::Var(var) { new_id } else { c })
}

/// The expression `e` with the children `cs`.
pub open spec fn with_children(e: ExprV, cs: Seq<ExprId>) -> ExprV {
    match e {
        ExprV::Var(v) => ExprV::Var(v),
        ExprV::Not(_) => ExprV::Not(cs[0]),
        ExprV::And(_) => ExprV::And(cs),
        ExprV::Or(_) => ExprV::Or(cs),
    }
}

/// What the renaming visitor does to the expression `id`: if a child is the variable `var`, the
/// expression with each such child replaced by `new_id` is stored; otherwise nothing changes.
pub open spec fn rename_step(new: &Arena, old: &Arena, var: VarId, new_id: ExprId, id: ExprId) -> bool {
    let cs = crate::expr::children(old.ev()[id as int]);
    if exists|i: int| 0 <= i < cs.len() && #[trigger] old.ev()[cs[i] as int] == ExprV::Var(var) {
        stored_at(new, old, id, with_children(old.ev()[id as int], renamed(old.ev(), cs, var, new_id)))
    } else {
        *new == *old
    }
}

/// Whether the arena has room for another auxiliary variable of Tseitin's transformation.
pub open spec fn aux_room(a: &Arena) -> bool {
    a.vars@.len() < (i32::MAX - 1) as usize && a.var_aux_id < u32::MAX
}

/// What applying the visitor `v` to the expression `id` does to the arena (see `Arena::visit`).
pub open spec fn visit_effect(new: &Arena, old: &Arena, v: Visitor, id: ExprId) -> bool {
    match v {
        Visitor::Nothing => *new == *old,
        Visitor::Canon => stored_at(new, old, id, old.ev()[id as int]),
        Visitor::Nnf => nnf_step(new, old, id),
        Visitor::CnfDist => dist_step(new, old, id),
        Visitor::Tseitin => if aux_room(old) && crate::tseitin::is_junction(old.ev()[id as int]) {
            exists|mid: Seq<ExprV>, ds: Seq<ExprId>| #[trigger] crate::tseitin::abbreviation_step(new, old, id, mid, ds)
        } else {
            *new == *old
        },
        Visitor::RenameVar(var, new_id) => rename_step(new, old, var, new_id, id),
    }
}

/// Whether `p` is a path of expressions, each a child of the one before it.
pub open spec fn is_path(ev: Seq<ExprV>, p: Seq<ExprId>) -> bool {
    &&& p.len() > 0
    &&& forall|i: int| 0 <= i < p.len() - 1 ==> #[trigger] crate::expr::children(ev[p[i] as int]).contains(p[i + 1])
}

/// Whether the expression `x` is reachable from `root` by following children.
pub open spec fn reaches(ev: Seq<ExprV>, root: ExprId, x: ExprId) -> bool {
    exists|p: Seq<ExprId>| #[trigger] is_path(ev, p) && p[0] == root && p.last() == x
}

/// The number of identifiers below `n` that are not in `s`.
pub open spec fn unvisited(n: nat, s: Set<ExprId>) -> nat
    decreases n,
{
    if n == 0 {
        0
    } else {
        unvisited((n - 1) as nat, s) + if s.contains((n - 1) as ExprId) { 0nat } else { 1nat }
    }
}

proof fn lemma_unvisited_above(n: nat, s: Set<ExprId>, x: ExprId)
    requires
        n <= x,
    ensures
        unvisited(n, s.insert(x)) == unvisited(n, s),
    decreases n,
{
    if n > 0 {
        lemma_unvisited_above((n - 1) as nat, s, x);
    }
}

proof fn lemma_unvisited_insert(n: nat, s: Set<ExprId>, x: ExprId)
    requires
        x < n,
        !s.contains(x),
        n <= usize::MAX + 1,
    ensures
        unvisited(n, s.insert(x)) + 1 == unvisited(n, s),
    decreases n,
{
    if x == n - 1 {
        lemma_unvisited_above((n - 1) as nat, s, x);
    } else {
        lemma_unvisited_insert((n - 1) as nat, s, x);
    }
}

/// A set that holds `root` and the children of each of its members holds every expression
/// reachable from `root`.
proof fn lemma_closed_reaches(ev: Seq<ExprV>, s: Set<ExprId>, root: ExprId, p: Seq<ExprId>)
    requires
        s.contains(root),
        forall|x: ExprId, c: ExprId| s.contains(x) && #[trigger] crate::expr::children(ev[x as int]).contains(c) ==> s.contains(c),
        is_path(ev, p),
        p[0] == root,
    ensures
        s.contains(p.last()),
    decreases p.len(),
{
    if p.len() > 1 {
        let q = p.drop_last();
        assert(is_path(ev, q)) by {
            assert forall|i: int| 0 <= i < q.len() - 1 implies #[trigger] crate::expr::children(ev[q[i] as int]).contains(q[i + 1]) by {
                assert(crate::expr::children(ev[p[i] as int]).contains(p[i + 1]));
            }
        }
        lemma_closed_reaches(ev, s, root, q);
        let i: int = p.len() - 2;
        assert(0 <= i < p.len() - 1);
        assert(crate::expr::children(ev[p[i] as int]).contains(p[i + 1]));
        assert(q.last() == p[i]);
        assert(p.last() == p[i + 1]);
    }
}

/// Whether the arenas `arenas` result from each other by the visits `steps` (a visitor and the
/// expression it is applied to), in order.
pub open spec fn visit_trace(arenas: Seq<Arena>, steps: Seq<(Visitor, ExprId)>) -> bool {
    &&& arenas.len() == steps.len() + 1
    &&& forall|i: int| 0 <= i < steps.len() ==> visit_effect(&arenas[i + 1], &arenas[i], #[trigger] steps[i].0, steps[i].1)
}

/// A visit changes no expression but the visited one.
proof fn lemma_visit_frame(new: &Arena, old: &Arena, v: Visitor, id: ExprId, x: ExprId)
    requires
        visit_effect(new, old, v, id),
        x < old.ev().len(),
        x != id,
        id < old.ev().len(),
    ensures
        x < new.ev().len(),
        new.ev()[x as int] == old.ev()[x as int],
{
    match v {
        Visitor::Canon => lemma_stored_frame(new, old, id, old.ev()[id as int], x),
        Visitor::Nnf => lemma_nnf_frame(new, old, id, x),
        Visitor::CnfDist => lemma_dist_frame(new, old, id, x),
        Visitor::Tseitin => lemma_tseitin_frame(new, old, id, x),
        Visitor::RenameVar(var, new_id) => {
            let cs = crate::expr::children(old.ev()[id as int]);
            if exists|i: int| 0 <= i < cs.len() && #[trigger] old.ev()[cs[i] as int] == ExprV::Var(var) {
                lemma_stored_frame(new, old, id, with_children(old.ev()[id as int], renamed(old.ev(), cs, var, new_id)), x);
            }
        },
        _ => {},
    }
}

proof fn lemma_stored_frame(new: &Arena, old: &Arena, id: ExprId, e: ExprV, x: ExprId)
    requires
        stored_at(new, old, id, e),
        x < old.ev().len(),
        x != id,
        id < old.ev().len(),
    ensures
        x < new.ev().len(),
        new.ev()[x as int] == old.ev()[x as int],
{
    if !(old.ev()[id as int] is Var) {
        let c = choose|c: ExprV| #[trigger] old.canonicalized(e, c)
            && simplified(old.ev(), flattened(old.ev(), c), new.ev()[id as int])
            && new.ev() == old.ev().update(id as int, new.ev()[id as int]);
    }
}

proof fn lemma_nnf_frame(new: &Arena, old: &Arena, id: ExprId, x: ExprId)
    requires
        nnf_step(new, old, id),
        x < old.ev().len(),
        x != id,
        id < old.ev().len(),
    ensures
        x < new.ev().len(),
        new.ev()[x as int] == old.ev()[x as int],
{
    if let ExprV::Not(c) = old.ev()[id as int] {
        match old.ev()[c as int] {
            ExprV::Not(_) => lemma_stored_frame(new, old, id, old.ev()[id as int], x),
            ExprV::And(gs) => {
                let (mid, negs) = choose|mid: Arena, negs: Seq<ExprId>| #[trigger] negated(&mid, old, gs, negs)
                    && stored_at(new, &mid, id, ExprV::Or(negs));
                assert(mid.ev()[x as int] == old.ev()[x as int]);
                lemma_stored_frame(new, &mid, id, ExprV::Or(negs), x);
            },
            ExprV::Or(gs) => {
                let (mid, negs) = choose|mid: Arena, negs: Seq<ExprId>| #[trigger] negated(&mid, old, gs, negs)
                    && stored_at(new, &mid, id, ExprV::And(negs));
                assert(mid.ev()[x as int] == old.ev()[x as int]);
                lemma_stored_frame(new, &mid, id, ExprV::And(negs), x);
            },
            _ => {},
        }
    }
}

proof fn lemma_dist_frame(new: &Arena, old: &Arena, id: ExprId, x: ExprId)
    requires
        dist_step(new, old, id),
        x < old.ev().len(),
        x != id,
        id < old.ev().len(),
    ensures
        x < new.ev().len(),
        new.ev()[x as int] == old.ev()[x as int],
{
    match old.ev()[id as int] {
        ExprV::And(_) => lemma_stored_frame(new, old, id, old.ev()[id as int], x),
        ExprV::Or(cs) => {
            let (mid, ids) = choose|mid: Arena, ids: Seq<ExprId>| #[trigger] clauses_stored(&mid, old, dist_clauses(old.ev(), cs), ids)
                && stored_at(new, &mid, id, ExprV::And(ids));
            assert(mid.ev()[x as int] == old.ev()[x as int]);
            lemma_stored_frame(new, &mid, id, ExprV::And(ids), x);
        },
        _ => {},
    }
}

proof fn lemma_tseitin_frame(new: &Arena, old: &Arena, id: ExprId, x: ExprId)
    requires
        visit_effect(new, old, Visitor::Tseitin, id),
        x < old.ev().len(),
        x != id,
        id < old.ev().len(),
    ensures
        x < new.ev().len(),
        new.ev()[x as int] == old.ev()[x as int],
{
    if aux_room(old) && crate::tseitin::is_junction(old.ev()[id as int]) {
        let (mid, ds) = choose|mid: Seq<ExprV>, ds: Seq<ExprId>| #[trigger] crate::tseitin::abbreviation_step(new, old, id, mid, ds);
        assert(mid[x as int] == old.ev()[x as int]);
    }
}

/// What a traversal keeps while the visitor before the children changes nothing: the expressions
/// still to visit are below `n0` and reachable from `root0`; the children (in `ev0`) of an
/// expression that was entered or visited are visited or still to visit; every visited expression
/// had the visitor `post` applied, in `steps`, to it; every step is at a reachable expression; and
/// the root is visited or still to visit.
pub open spec fn traversal_inv(ev0: Seq<ExprV>, root0: ExprId, n0: nat, rem: Seq<ExprId>, seen: Set<ExprId>,
    visited: Set<ExprId>, steps: Seq<(Visitor, ExprId)>, post: Visitor) -> bool {
    &&& ids_valid(rem, n0)
    &&& forall|x: ExprId, c: ExprId| (seen.contains(x) || visited.contains(x))
        && #[trigger] crate::expr::children(ev0[x as int]).contains(c) ==> visited.contains(c) || rem.contains(c)
    &&& forall|k: int| 0 <= k < rem.len() ==> reaches(ev0, root0, #[trigger] rem[k])
    &&& forall|x: ExprId| #[trigger] visited.contains(x) ==> steps.contains((post, x))
    &&& forall|k: int| 0 <= k < steps.len() ==> reaches(ev0, root0, #[trigger] steps[k].1)
    &&& forall|x: ExprId| #[trigger] seen.contains(x) ==> x < n0
    &&& visited.contains(root0) || rem.contains(root0)
}

/// Entering an expression (pushing its children) keeps `traversal_inv`.
proof fn lemma_pre_nothing_step(ev0: Seq<ExprV>, root0: ExprId, n0: nat, id: ExprId, cs: Seq<ExprId>,
    rem_before: Seq<ExprId>, rem_after: Seq<ExprId>, seen_before: Set<ExprId>, seen_after: Set<ExprId>, visited: Set<ExprId>,
    steps_before: Seq<(Visitor, ExprId)>, steps_after: Seq<(Visitor, ExprId)>, post: Visitor)
    requires
        traversal_inv(ev0, root0, n0, rem_before, seen_before, visited, steps_before, post),
        rem_before.len() > 0,
        id == rem_before.last(),
        rem_after == rem_before + cs,
        cs == crate::expr::children(ev0[id as int]),
        ids_valid(cs, n0),
        seen_after == seen_before.insert(id),
        steps_after.len() == steps_before.len() + 1,
        steps_after.last().1 == id,
        forall|k: int| 0 <= k < steps_before.len() ==> steps_after[k] == steps_before[k],
    ensures
        traversal_inv(ev0, root0, n0, rem_after, seen_after, visited, steps_after, post),
{
    assert(reaches(ev0, root0, rem_before[rem_before.len() - 1]));
    let p = choose|p: Seq<ExprId>| #[trigger] is_path(ev0, p) && p[0] == root0 && p.last() == id;
    assert forall|k: int| 0 <= k < rem_after.len() implies reaches(ev0, root0, #[trigger] rem_after[k]) by {
        if k >= rem_before.len() {
            let c = rem_after[k];
            assert(c == cs[k - rem_before.len()]);
            let q = p.push(c);
            assert(is_path(ev0, q)) by {
                assert forall|t: int| 0 <= t < q.len() - 1 implies #[trigger] crate::expr::children(ev0[q[t] as int]).contains(q[t + 1]) by {
                    if t == q.len() - 2 {
                        assert(q[t] == id);
                        assert(cs.contains(c));
                    } else {
                        assert(crate::expr::children(ev0[p[t] as int]).contains(p[t + 1]));
                    }
                }
            }
            assert(q[0] == root0 && q.last() == c);
        } else {
            assert(rem_after[k] == rem_before[k]);
        }
    }
    assert forall|k: int| 0 <= k < rem_after.len() implies #[trigger] rem_after[k] < n0 by {
        if k >= rem_before.len() {
            assert(rem_after[k] == cs[k - rem_before.len()]);
        } else {
            assert(rem_after[k] == rem_before[k]);
        }
    }
    assert forall|x: ExprId, c: ExprId| (seen_after.contains(x) || visited.contains(x))
        && #[trigger] crate::expr::children(ev0[x as int]).contains(c) implies visited.contains(c) || rem_after.contains(c) by {
        if x == id {
            let t = choose|t: int| 0 <= t < cs.len() && cs[t] == c;
            assert(rem_after[rem_before.len() + t] == c);
        } else if rem_before.contains(c) {
            let t = choose|t: int| 0 <= t < rem_before.len() && rem_before[t] == c;
            assert(rem_after[t] == c);
        }
    }
    assert forall|x: ExprId| #[trigger] visited.contains(x) implies steps_after.contains((post, x)) by {
        let t = choose|t: int| 0 <= t < steps_before.len() && steps_before[t] == (post, x);
        assert(steps_after[t] == (post, x));
    }
    assert forall|k: int| 0 <= k < steps_after.len() implies reaches(ev0, root0, #[trigger] steps_after[k].1) by {
        if k < steps_before.len() {
            assert(steps_after[k] == steps_before[k]);
        } else {
            assert(steps_after[k].1 == id);
        }
    }
    if rem_before.contains(root0) {
        let t = choose|t: int| 0 <= t < rem_before.len() && rem_before[t] == root0;
        assert(rem_after[t] == root0);
    }
}

/// Leaving an expression (popping it, and visiting it unless it was visited) keeps `traversal_inv`.
proof fn lemma_post_step(ev0: Seq<ExprV>, root0: ExprId, n0: nat, id: ExprId,
    rem_before: Seq<ExprId>, rem_after: Seq<ExprId>, seen_before: Set<ExprId>, seen_after: Set<ExprId>,
    visited_before: Set<ExprId>, visited_after: Set<ExprId>,
    steps_before: Seq<(Visitor, ExprId)>, steps_after: Seq<(Visitor, ExprId)>, post: Visitor)
    requires
        traversal_inv(ev0, root0, n0, rem_before, seen_before, visited_before, steps_before, post),
        rem_before.len() > 0,
        id == rem_before.last(),
        rem_after == rem_before.drop_last(),
        visited_before.contains(id) ==> seen_after == seen_before && visited_after == visited_before && steps_after == steps_before,
        !visited_before.contains(id) ==> seen_after == seen_before.remove(id) && visited_after == visited_before.insert(id)
            && steps_after == steps_before.push((post, id)),
        !visited_before.contains(id) && !seen_before.contains(id) ==> crate::expr::children(ev0[id as int]).len() == 0,
    ensures
        traversal_inv(ev0, root0, n0, rem_after, seen_after, visited_after, steps_after, post),
{
    assert(reaches(ev0, root0, rem_before[rem_before.len() - 1]));
    assert forall|k: int| 0 <= k < rem_after.len() implies reaches(ev0, root0, #[trigger] rem_after[k]) && rem_after[k] < n0 by {
        assert(rem_after[k] == rem_before[k]);
    }
    assert forall|x: ExprId, c: ExprId| (seen_after.contains(x) || visited_after.contains(x))
        && #[trigger] crate::expr::children(ev0[x as int]).contains(c) implies visited_after.contains(c) || rem_after.contains(c) by {
        if x == id && !seen_before.contains(id) && !visited_before.contains(id) {
            assert(crate::expr::children(ev0[id as int]).len() == 0);
        }
        assert(seen_before.contains(x) || visited_before.contains(x));
        if c != id && rem_before.contains(c) {
            let t = choose|t: int| 0 <= t < rem_before.len() && rem_before[t] == c;
            assert(t != rem_before.len() - 1);
            assert(rem_after[t] == c);
        }
    }
    if !visited_before.contains(id) {
        assert forall|x: ExprId| #[trigger] visited_after.contains(x) implies steps_after.contains((post, x)) by {
            if x == id {
                assert(steps_after[steps_before.len() as int] == (post, id));
            } else {
                let t = choose|t: int| 0 <= t < steps_before.len() && steps_before[t] == (post, x);
                assert(steps_after[t] == (post, x));
            }
        }
        assert forall|k: int| 0 <= k < steps_after.len() implies reaches(ev0, root0, #[trigger] steps_after[k].1) by {
            if k < steps_before.len() {
                assert(steps_after[k] == steps_before[k]);
            }
        }
    }
    if rem_before.contains(root0) && root0 != id {
        let t = choose|t: int| 0 <= t < rem_before.len() && rem_before[t] == root0;
        assert(rem_after[t] == root0);
    }
}

/// What every traversal keeps: the root is visited or still to visit, every visited expression
/// had the visitor `post` applied to it in `steps`, every entered expression is still to visit,
/// every expression to which `pre` was applied is entered or visited, and no visited expression
/// is still entered.
pub open spec fn general_inv(root0: ExprId, rem: Seq<ExprId>, seen: Set<ExprId>, visited: Set<ExprId>,
    steps: Seq<(Visitor, ExprId)>, pre: Visitor, post: Visitor) -> bool {
    &&& visited.contains(root0) || rem.contains(root0)
    &&& forall|x: ExprId| #[trigger] visited.contains(x) ==> steps.contains((post, x))
    &&& forall|x: ExprId| #[trigger] seen.contains(x) ==> rem.contains(x) && !visited.contains(x)
    &&& forall|x: ExprId| #[trigger] steps.contains((pre, x)) ==> seen.contains(x) || visited.contains(x)
}

/// Entering an expression keeps `general_inv`.
proof fn lemma_general_enter(root0: ExprId, id: ExprId, cs: Seq<ExprId>, rem_before: Seq<ExprId>, rem_after: Seq<ExprId>,
    seen_before: Set<ExprId>, seen_after: Set<ExprId>, visited: Set<ExprId>,
    steps_before: Seq<(Visitor, ExprId)>, steps_after: Seq<(Visitor, ExprId)>, pre: Visitor, post: Visitor)
    requires
        general_inv(root0, rem_before, seen_before, visited, steps_before, pre, post),
        rem_before.len() > 0,
        id == rem_before.last(),
        !visited.contains(id),
        rem_after == rem_before + cs,
        seen_after == seen_before.insert(id),
        steps_after == steps_before.push((pre, id)),
    ensures
        general_inv(root0, rem_after, seen_after, visited, steps_after, pre, post),
{
    assert forall|x: ExprId| rem_before.contains(x) implies #[trigger] rem_after.contains(x) by {
        let t = choose|t: int| 0 <= t < rem_before.len() && rem_before[t] == x;
        assert(rem_after[t] == x);
    }
    assert(rem_after[rem_before.len() - 1] == id);
    assert(rem_after.contains(id));
    assert forall|x: ExprId| #[trigger] visited.contains(x) implies steps_after.contains((post, x)) by {
        let t = choose|t: int| 0 <= t < steps_before.len() && steps_before[t] == (post, x);
        assert(steps_after[t] == (post, x));
    }
    assert forall|x: ExprId| #[trigger] steps_after.contains((pre, x)) implies seen_after.contains(x) || visited.contains(x) by {
        let t = choose|t: int| 0 <= t < steps_after.len() && steps_after[t] == (pre, x);
        if t < steps_before.len() {
            assert(steps_before[t] == (pre, x));
            assert(steps_before.contains((pre, x)));
        }
    }
    assert forall|x: ExprId| #[trigger] seen_after.contains(x) implies rem_after.contains(x) && !visited.contains(x) by {
        if x != id {
            assert(rem_before.contains(x));
        }
    }
}

/// Leaving an expression (popping it, and visiting it unless it was visited) keeps `general_inv`.
proof fn lemma_general_leave(root0: ExprId, id: ExprId, rem_before: Seq<ExprId>, rem_after: Seq<ExprId>,
    seen_before: Set<ExprId>, seen_after: Set<ExprId>, visited_before: Set<ExprId>, visited_after: Set<ExprId>,
    steps_before: Seq<(Visitor, ExprId)>, steps_after: Seq<(Visitor, ExprId)>, pre: Visitor, post: Visitor)
    requires
        general_inv(root0, rem_before, seen_before, visited_before, steps_before, pre, post),
        rem_before.len() > 0,
        id == rem_before.last(),
        rem_after == rem_before.drop_last(),
        visited_before.contains(id) ==> seen_after == seen_before && visited_after == visited_before && steps_after == steps_before,
        !visited_before.contains(id) ==> seen_after == seen_before.remove(id) && visited_after == visited_before.insert(id)
            && steps_after == steps_before.push((post, id)),
    ensures
        general_inv(root0, rem_after, seen_after, visited_after, steps_after, pre, post),
{
    assert forall|x: ExprId| x != id && rem_before.contains(x) implies #[trigger] rem_after.contains(x) by {
        let t = choose|t: int| 0 <= t < rem_before.len() && rem_before[t] == x;
        assert(t != rem_before.len() - 1);
        assert(rem_after[t] == x);
    }
    if !visited_before.contains(id) {
        assert forall|x: ExprId| #[trigger] visited_after.contains(x) implies steps_after.contains((post, x)) by {
            if x == id {
                assert(steps_after[steps_before.len() as int] == (post, id));
            } else {
                let t = choose|t: int| 0 <= t < steps_before.len() && steps_before[t] == (post, x);
                assert(steps_after[t] == (post, x));
            }
        }
        assert forall|x: ExprId| #[trigger] steps_after.contains((pre, x)) implies seen_after.contains(x) || visited_after.contains(x) by {
            let t = choose|t: int| 0 <= t < steps_after.len() && steps_after[t] == (pre, x);
            if t < steps_before.len() {
                assert(steps_before[t] == (pre, x));
                assert(steps_before.contains((pre, x)));
            }
        }
    }
    assert forall|x: ExprId| #[trigger] seen_after.contains(x) implies rem_after.contains(x) && !visited_after.contains(x) by {
        assert(seen_before.contains(x));
        assert(rem_before.contains(x));
    }
}

/// The children that the expression `x` has after the visit `k` of a trace.
pub open spec fn children_after(arenas: Seq<Arena>, k: int, x: ExprId) -> Seq<ExprId> {
    crate::expr::children(arenas[k + 1].ev()[x as int])
}

/// The children that the expression `x` has before the visit `k` of a trace.
pub open spec fn children_before(arenas: Seq<Arena>, k: int, x: ExprId) -> Seq<ExprId> {
    crate::expr::children(arenas[k].ev()[x as int])
}

/// What a traversal keeps of the visits in `steps` (`entered[k]` marks the visits before the
/// children): every child that an entered expression has after its visit before the children is
/// visited or still to visit; every other visit applies `post` to an expression that had no
/// children or had been entered before; every entered expression still waiting was entered.
pub open spec fn entered_closed(arenas: Seq<Arena>, steps: Seq<(Visitor, ExprId)>, entered: Seq<bool>, rem: Seq<ExprId>,
    seen: Set<ExprId>, visited: Set<ExprId>, pre: Visitor, post: Visitor) -> bool {
    &&& entered.len() == steps.len()
    &&& arenas.len() == steps.len() + 1
    &&& forall|k: int| 0 <= k < steps.len() && #[trigger] entered[k] ==> steps[k].0 == pre
        && forall|c: ExprId| #[trigger] children_after(arenas, k, steps[k].1).contains(c) ==> visited.contains(c) || rem.contains(c)
    &&& forall|k: int| 0 <= k < steps.len() && !#[trigger] entered[k] ==> steps[k].0 == post
        && (children_before(arenas, k, steps[k].1).len() == 0 || exists|j: int| 0 <= j < k && entered[j] && steps[j].1 == steps[k].1)
    &&& forall|x: ExprId| #[trigger] seen.contains(x) ==> exists|j: int| 0 <= j < steps.len() && entered[j] && steps[j].1 == x
}

/// Whether the trace `arenas`, `steps` (with the visits before the children marked in `entered`)
/// leads from `old` to `new` as a traversal from `root` does: every child that an entered
/// expression has after its visit before the children gets the visitor `post`; every other visit
/// applies `post` to an expression that had no children or had been entered; and a root with
/// children is entered first.
pub open spec fn traversal_done(arenas: Seq<Arena>, steps: Seq<(Visitor, ExprId)>, entered: Seq<bool>, old: Arena, new: Arena,
    root: ExprId, pre: Visitor, post: Visitor) -> bool {
    &&& visit_trace(arenas, steps)
    &&& entered.len() == steps.len()
    &&& arenas[0] == old
    &&& arenas.last() == new
    &&& forall|k: int| 0 <= k < steps.len() && #[trigger] entered[k] ==> steps[k].0 == pre
        && forall|c: ExprId| #[trigger] children_after(arenas, k, steps[k].1).contains(c) ==> steps.contains((post, c))
    &&& forall|k: int| 0 <= k < steps.len() && !#[trigger] entered[k] ==> steps[k].0 == post
        && (children_before(arenas, k, steps[k].1).len() == 0 || exists|j: int| 0 <= j < k && entered[j] && steps[j].1 == steps[k].1)
    &&& steps.contains((post, root))
    &&& crate::expr::children(old.ev()[root as int]).len() > 0 ==> steps.len() > 0 && entered[0] && steps[0] == (pre, root)
}

/// Entering an expression keeps `entered_closed`.
proof fn lemma_closed_enter(arenas0: Seq<Arena>, arenas: Seq<Arena>, steps0: Seq<(Visitor, ExprId)>, steps: Seq<(Visitor, ExprId)>,
    entered0: Seq<bool>, entered: Seq<bool>, rem0: Seq<ExprId>, rem: Seq<ExprId>, seen0: Set<ExprId>, seen: Set<ExprId>,
    visited: Set<ExprId>, id: ExprId, a: Arena, pre: Visitor, post: Visitor)
    requires
        entered_closed(arenas0, steps0, entered0, rem0, seen0, visited, pre, post),
        arenas == arenas0.push(a),
        steps == steps0.push((pre, id)),
        entered == entered0.push(true),
        rem == rem0 + crate::expr::children(a.ev()[id as int]),
        seen == seen0.insert(id),
    ensures
        entered_closed(arenas, steps, entered, rem, seen, visited, pre, post),
{
    let n = steps0.len();
    assert forall|x: ExprId| rem0.contains(x) implies #[trigger] rem.contains(x) by {
        let t = choose|t: int| 0 <= t < rem0.len() && rem0[t] == x;
        assert(rem[t] == x);
    }
    assert forall|k: int| 0 <= k < steps.len() && #[trigger] entered[k] implies steps[k].0 == pre
        && forall|c: ExprId| #[trigger] children_after(arenas, k, steps[k].1).contains(c) ==> visited.contains(c) || rem.contains(c) by {
        if k < n {
            assert(entered0[k] && steps[k] == steps0[k] && arenas[k + 1] == arenas0[k + 1]);
            assert(children_after(arenas, k, steps[k].1) == children_after(arenas0, k, steps0[k].1));
        } else {
            assert forall|c: ExprId| #[trigger] children_after(arenas, k, steps[k].1).contains(c) implies visited.contains(c) || rem.contains(c) by {
                let cs = crate::expr::children(a.ev()[id as int]);
                assert(children_after(arenas, k, steps[k].1) == cs);
                let t = choose|t: int| 0 <= t < cs.len() && cs[t] == c;
                assert(rem[rem0.len() + t] == c);
            }
        }
    }
    assert forall|k: int| 0 <= k < steps.len() && !#[trigger] entered[k] implies steps[k].0 == post
        && (children_before(arenas, k, steps[k].1).len() == 0 || exists|j: int| 0 <= j < k && entered[j] && steps[j].1 == steps[k].1) by {
        assert(k < n);
        assert(!entered0[k] && steps[k] == steps0[k] && arenas[k] == arenas0[k]);
        if children_before(arenas0, k, steps0[k].1).len() != 0 {
            let j = choose|j: int| 0 <= j < k && entered0[j] && steps0[j].1 == steps0[k].1;
            assert(entered[j] && steps[j].1 == steps[k].1);
        }
    }
    assert forall|x: ExprId| #[trigger] seen.contains(x) implies exists|j: int| 0 <= j < steps.len() && entered[j] && steps[j].1 == x by {
        if x == id {
            assert(entered[n as int] && steps[n as int].1 == x);
        } else {
            let j = choose|j: int| 0 <= j < steps0.len() && entered0[j] && steps0[j].1 == x;
            assert(entered[j] && steps[j].1 == x);
        }
    }
}

/// Leaving an expression (popping it, and visiting it unless it was visited) keeps `entered_closed`.
proof fn lemma_closed_leave(arenas0: Seq<Arena>, arenas: Seq<Arena>, steps0: Seq<(Visitor, ExprId)>, steps: Seq<(Visitor, ExprId)>,
    entered0: Seq<bool>, entered: Seq<bool>, rem0: Seq<ExprId>, rem: Seq<ExprId>, seen0: Set<ExprId>, seen: Set<ExprId>,
    visited0: Set<ExprId>, visited: Set<ExprId>, id: ExprId, a: Arena, pre: Visitor, post: Visitor)
    requires
        entered_closed(arenas0, steps0, entered0, rem0, seen0, visited0, pre, post),
        rem0.len() > 0,
        id == rem0.last(),
        rem == rem0.drop_last(),
        visited0.contains(id) ==> arenas == arenas0 && steps == steps0 && entered == entered0 && seen == seen0 && visited == visited0,
        !visited0.contains(id) ==> arenas == arenas0.push(a) && steps == steps0.push((post, id)) && entered == entered0.push(false)
            && seen == seen0.remove(id) && visited == visited0.insert(id),
        !visited0.contains(id) ==> crate::expr::children(arenas0.last().ev()[id as int]).len() == 0 || seen0.contains(id),
    ensures
        entered_closed(arenas, steps, entered, rem, seen, visited, pre, post),
{
    let n = steps0.len();
    assert forall|x: ExprId| x != id && rem0.contains(x) implies #[trigger] rem.contains(x) by {
        let t = choose|t: int| 0 <= t < rem0.len() && rem0[t] == x;
        assert(t != rem0.len() - 1);
        assert(rem[t] == x);
    }
    assert forall|k: int| 0 <= k < steps.len() && #[trigger] entered[k] implies steps[k].0 == pre
        && forall|c: ExprId| #[trigger] children_after(arenas, k, steps[k].1).contains(c) ==> visited.contains(c) || rem.contains(c) by {
        assert(k < n);
        assert(entered0[k] && steps[k] == steps0[k] && arenas[k + 1] == arenas0[k + 1]);
        assert(children_after(arenas, k, steps[k].1) == children_after(arenas0, k, steps0[k].1));
    }
    assert forall|k: int| 0 <= k < steps.len() && !#[trigger] entered[k] implies steps[k].0 == post
        && (children_before(arenas, k, steps[k].1).len() == 0 || exists|j: int| 0 <= j < k && entered[j] && steps[j].1 == steps[k].1) by {
        if k < n {
            assert(!entered0[k] && steps[k] == steps0[k] && arenas[k] == arenas0[k]);
            if children_before(arenas0, k, steps0[k].1).len() != 0 {
                let j = choose|j: int| 0 <= j < k && entered0[j] && steps0[j].1 == steps0[k].1;
                assert(entered[j] && steps[j].1 == steps[k].1);
            }
        } else {
            assert(arenas[k] == arenas0.last());
            if seen0.contains(id) {
                let j = choose|j: int| 0 <= j < steps0.len() && entered0[j] && steps0[j].1 == id;
                assert(entered[j] && steps[j].1 == steps[k].1);
            }
        }
    }
    assert forall|x: ExprId| #[trigger] seen.contains(x) implies exists|j: int| 0 <= j < steps.len() && entered[j] && steps[j].1 == x by {
        let j = choose|j: int| 0 <= j < steps0.len() && entered0[j] && steps0[j].1 == x;
        assert(entered[j] && steps[j].1 == x);
    }
}

/// Adding an identifier to a set does not increase the number of identifiers below `n` outside it.
proof fn lemma_unvisited_grow(n: nat, s: Set<ExprId>, x: ExprId)
    requires
        n <= usize::MAX + 1,
    ensures
        unvisited(n, s.insert(x)) <= unvisited(n, s),
        x < n && !s.contains(x) ==> unvisited(n, s.insert(x)) < unvisited(n, s),
{
    if s.contains(x) {
        assert(s.insert(x) =~= s);
    } else if x < n {
        lemma_unvisited_insert(n, s, x);
    } else {
        lemma_unvisited_above(n, s, x);
    }
}

/// Whether a visitor may be applied in an arena.
pub open spec fn visitor_ok(v: Visitor, a: &Arena) -> bool {
    match v {
        Visitor::Tseitin => a.new_vars is Some && a.new_exprs is Some,
        Visitor::RenameVar(var, e) => 0 <= var < a.vv().len() && e < a.ev().len(),
        _ => true,
    }
}

/// Whether a visitor keeps the meaning of every expression of the arena.
pub open spec fn meaning_preserving(v: Visitor) -> bool {
    v is Nothing || v is Canon || v is Nnf || v is CnfDist
}

/// Whether the arena has room for another auxiliary variable.
pub open spec fn has_aux_room(a: &Arena) -> bool {
    a.vars@.len() < i32::MAX - 1 && a.var_aux_id < u32::MAX
}

pub proof fn lemma_grows_trans(a: &Arena, b: &Arena, c: &Arena)
    requires
        grows(b, a),
        grows(c, b),
    ensures
        grows(c, a),
{
    assert forall|i: int| 0 <= i < a.vv().len() implies #[trigger] c.vv()[i] == a.vv()[i] by {
        assert(c.vv()[i] == b.vv()[i]);
    }
}

pub proof fn lemma_grows_refl(a: &Arena)
    requires
        a.wf(),
    ensures
        grows(a, a),
{
}

impl Arena {
    /// Establishes that an extension by `expr` is a growth.
    pub proof fn lemma_grows_by_expr(&self, old: &Arena)
        requires
            self.wf(),
            extends(self.ev(), old.ev()),
            self.vars == old.vars,
            self.new_vars == old.new_vars,
            self.new_exprs == old.new_exprs,
        ensures
            grows(self, old),
    {
    }

    /// Establishes that an extension by `expr` is a growth.
    proof fn lemma_expr_grows(&self, old: &Arena)
        requires
            self.wf(),
            extends(self.ev(), old.ev()),
            self.vars == old.vars,
            self.new_vars == old.new_vars,
            self.new_exprs == old.new_exprs,
        ensures
            grows(self, old),
    {
    }

    /// Transforms an expression into negation normal form by applying De Morgan's laws.
    ///
    /// A negated conjunction becomes a disjunction of negations, and vice versa.
    /// A negated negation (which simplification otherwise removes) is re-stored, which removes it.
    /// Every expression of the arena keeps its meaning.
    pub fn nnf_visitor(&mut self, id: ExprId)
        requires
            old(self).wf(),
            id < old(self).exprs@.len(),
        ensures
            grows(final(self), old(self)),
            nnf_step(final(self), old(self), id),
            keeps_meaning(final(self).ev(), old(self).ev()),
            final(self).vars == old(self).vars,
    {
        proof {
            crate::meaning::lemma_keeps_meaning_refl(self.ev());
        }
        let c = match &self.exprs[id] {
            Expr::Not(c) => *c,
            _ => {
                return;
            },
        };
        proof {
            assert(expr_valid(self.exprs@[id as int]@, self.exprs@.len(), self.vars@.len()));
            assert(expr_valid(self.exprs@[c as int]@, self.exprs@.len(), self.vars@.len()));
        }
        let ghost a0 = *self;
        match &self.exprs[c] {
            Expr::Var(_) => {},
            Expr::Not(_) => {
                let e = self.exprs[id].clone();
                self.set_expr(id, e);
                proof {
                    lemma_restore_keeps_meaning(&a0, self, id);
                }
            },
            Expr::And(gs) => {
                let gs = gs.clone();
                let negs = self.negate_exprs(gs);
                let ghost amid = *self;
                let e = Expr::Or(negs);
                let ghost ev = e@;
                self.set_expr(id, e);
                proof {
                    lemma_de_morgan_keeps_meaning(&a0, &amid, self, id, c, gs@, ev->Or_0, true, ev);
                    assert(negated(&amid, &a0, gs@, ev->Or_0));
                    assert(stored_at(self, &amid, id, ExprV::Or(ev->Or_0)));
                }
            },
            Expr::Or(gs) => {
                let gs = gs.clone();
                let negs = self.negate_exprs(gs);
                let ghost amid = *self;
                let e = Expr::And(negs);
                let ghost ev = e@;
                self.set_expr(id, e);
                proof {
                    lemma_de_morgan_keeps_meaning(&a0, &amid, self, id, c, gs@, ev->And_0, false, ev);
                    assert(negated(&amid, &a0, gs@, ev->And_0));
                    assert(stored_at(self, &amid, id, ExprV::And(ev->And_0)));
                }
            },
        }
    }

    /// Re-stores an expression, which canonicalizes its children, flattens and simplifies it.
    /// Every expression of the arena keeps its meaning.
    pub fn canon_visitor(&mut self, id: ExprId)
        requires
            old(self).wf(),
            id < old(self).exprs@.len(),
        ensures
            grows(final(self), old(self)),
            stored_at(final(self), old(self), id, old(self).ev()[id as int]),
            keeps_meaning(final(self).ev(), old(self).ev()),
            final(self).vars == old(self).vars,
    {
        let e = self.exprs[id].clone();
        proof {
            assert(expr_valid(self.exprs@[id as int]@, self.exprs@.len(), self.vars@.len()));
        }
        let ghost a0 = *self;
        self.set_expr(id, e);
        proof {
            lemma_restore_keeps_meaning(&a0, self, id);
        }
    }

    /// Returns the clause `clause` extended by the literals contributed by `clause_id`
    /// (the literals of a disjunction, or the expression itself).
    fn extend_clause(&self, clause: &Vec<ExprId>, clause_id: ExprId) -> (r: Vec<ExprId>)
        requires
            self.wf(),
            ids_valid(clause@, self.exprs@.len()),
            clause_id < self.exprs@.len(),
        ensures
            ids_valid(r@, self.exprs@.len()),
            r@ == clause@ + clause_piece(self.ev(), clause_id),
    {
        let mut r = clause.clone();
        proof {
            assert(expr_valid(self.exprs@[clause_id as int]@, self.exprs@.len(), self.vars@.len()));
            assert(r@ == clause@);
        }
        match &self.exprs[clause_id] {
            Expr::Or(lits) => {
                crate::text::push_ids(&mut r, lits);
                assert forall|k: int| 0 <= k < r@.len() implies #[trigger] r@[k] < self.exprs@.len() by {
                    if k >= clause@.len() {
                        assert(r@[k] == lits@[k - clause@.len()]);
                    }
                }
            },
            _ => {
                r.push(clause_id);
                assert(r@ == clause@ + seq![clause_id]);
            },
        }
        r
    }

    /// Transforms an expression into conjunctive normal form by applying distributivity laws.
    ///
    /// A disjunction is multiplied out over the conjunctions among its children;
    /// each resulting clause collects the literals of disjunctive children.
    /// A conjunction is re-stored (which flattens and simplifies it).
    /// Every expression of the arena keeps its meaning.
    pub fn cnf_dist_visitor(&mut self, id: ExprId)
        requires
            old(self).wf(),
            id < old(self).exprs@.len(),
        ensures
            grows(final(self), old(self)),
            dist_step(final(self), old(self), id),
            keeps_meaning(final(self).ev(), old(self).ev()),
            final(self).vars == old(self).vars,
    {
        proof {
            assert(expr_valid(self.exprs@[id as int]@, self.exprs@.len(), self.vars@.len()));
            crate::meaning::lemma_keeps_meaning_refl(self.ev());
            crate::meaning::lemma_wf_all_valid(self);
        }
        let child_ids: Vec<ExprId> = match &self.exprs[id] {
            Expr::Var(_) => {
                return;
            },
            Expr::Not(_) => {
                return;
            },
            Expr::And(_) => {
                self.canon_visitor(id);
                return;
            },
            Expr::Or(cs) => cs.clone(),
        };
        let ghost ev = self.ev();
        let ghost n_vars = self.vars@.len();
        assert(ev[id as int] == ExprV::Or(child_ids@));
        let new_clauses = self.distributed(&child_ids);
        let new_clause_ids = self.store_clauses(&new_clauses);
        let ghost amid = *self;
        let e = Expr::And(new_clause_ids);
        let ghost e_v = e@;
        self.set_expr(id, e);
        proof {
            lemma_grows_trans(old(self), &amid, self);
            lemma_distribution_keeps_meaning(old(self), &amid, self, id, child_ids@, new_clauses@, e_v->And_0);
            assert(clauses_stored(&amid, old(self), dist_clauses(ev, child_ids@), new_clause_ids@));
            assert(stored_at(self, &amid, id, ExprV::And(new_clause_ids@)));
        }
    }

    /// Returns the clauses of the disjunction of the children `child_ids`, distributed over its
    /// conjunctive children (see `dist_clauses`).
    fn distributed(&self, child_ids: &Vec<ExprId>) -> (r: Vec<Vec<ExprId>>)
        requires
            self.wf(),
            ids_valid(child_ids@, self.exprs@.len()),
        ensures
            id_lists(r@) == dist_clauses(self.ev(), child_ids@),
            forall|k: int| 0 <= k < r@.len() ==> ids_valid(#[trigger] r@[k]@, self.exprs@.len()),
            forall|value: spec_fn(ExprId) -> bool, assignment: spec_fn(VarId) -> bool|
                #[trigger] evaluates(self.ev(), value, assignment) ==> clauses_true(value, r@) == some_true(value, child_ids@),
    {
        let ghost ev = self.ev();
        let ghost n_vars = self.vars@.len();
        proof {
            crate::meaning::lemma_wf_all_valid(self);
            assert(child_ids@.take(0) =~= Seq::<ExprId>::empty());
        }
        let mut new_clauses: Vec<Vec<ExprId>> = Vec::new();
        new_clauses.push(Vec::new());
        proof {
            assert forall|value: spec_fn(ExprId) -> bool, assignment: spec_fn(VarId) -> bool|
                #[trigger] evaluates(ev, value, assignment) implies
                clauses_true(value, new_clauses@) == some_true(value, child_ids@.take(0)) by {
                assert(new_clauses@[0]@.len() == 0);
                assert(!some_true(value, new_clauses@[0]@));
                assert(child_ids@.take(0).len() == 0);
            }
        }
        let mut i: usize = 0;
        while i < child_ids.len()
            invariant
                self.wf(),
                ev == self.ev(),
                n_vars == self.vars@.len(),
                crate::meaning::all_valid(ev, n_vars),
                ids_valid(child_ids@, self.exprs@.len()),
                i <= child_ids.len(),
                forall|k: int| 0 <= k < new_clauses@.len() ==> ids_valid(#[trigger] new_clauses@[k]@, self.exprs@.len()),
                forall|value: spec_fn(ExprId) -> bool, assignment: spec_fn(VarId) -> bool|
                    #[trigger] evaluates(ev, value, assignment) ==>
                    clauses_true(value, new_clauses@) == some_true(value, child_ids@.take(i as int)),
                id_lists(new_clauses@) == dist_clauses(ev, child_ids@.take(i as int)),
            decreases child_ids.len() - i,
        {
            let child = child_ids[i];
            proof {
                assert(expr_valid(self.exprs@[child as int]@, self.exprs@.len(), self.vars@.len()));
            }
            let clause_ids: Vec<ExprId> = match &self.exprs[child] {
                Expr::And(gs) => gs.clone(),
                _ => {
                    let mut v = Vec::new();
                    v.push(child);
                    v
                },
            };
            assert(clause_ids@ == child_options(ev, child));
            let mut next: Vec<Vec<ExprId>> = Vec::new();
            let mut j: usize = 0;
            while j < new_clauses.len()
                invariant
                    self.wf(),
                    ev == self.ev(),
                    ids_valid(clause_ids@, self.exprs@.len()),
                    j <= new_clauses.len(),
                    forall|k: int| 0 <= k < new_clauses@.len() ==> ids_valid(#[trigger] new_clauses@[k]@, self.exprs@.len()),
                    forall|k: int| 0 <= k < next@.len() ==> ids_valid(#[trigger] next@[k]@, self.exprs@.len()),
                    forall|value: spec_fn(ExprId) -> bool| #[trigger] clauses_true(value, next@)
                        == rows_true(value, new_clauses@, j as int, ev, clause_ids@),
                    id_lists(next@) == rows(id_lists(new_clauses@).take(j as int), ev, clause_ids@),
                decreases new_clauses.len() - j,
            {
                let mut k: usize = 0;
                while k < clause_ids.len()
                    invariant
                        self.wf(),
                        ev == self.ev(),
                        ids_valid(clause_ids@, self.exprs@.len()),
                        j < new_clauses.len(),
                        k <= clause_ids.len(),
                        forall|t: int| 0 <= t < new_clauses@.len() ==> ids_valid(#[trigger] new_clauses@[t]@, self.exprs@.len()),
                        forall|t: int| 0 <= t < next@.len() ==> ids_valid(#[trigger] next@[t]@, self.exprs@.len()),
                        forall|value: spec_fn(ExprId) -> bool| #[trigger] clauses_true(value, next@)
                            == (rows_true(value, new_clauses@, j as int, ev, clause_ids@)
                                && (some_true(value, new_clauses@[j as int]@) || pieces_true(value, ev, clause_ids@, k as int))),
                        id_lists(next@) == rows(id_lists(new_clauses@).take(j as int), ev, clause_ids@)
                            + clause_ids@.take(k as int).map_values(|o: ExprId| new_clauses@[j as int]@ + clause_piece(ev, o)),
                    decreases clause_ids.len() - k,
                {
                    let c = self.extend_clause(&new_clauses[j], clause_ids[k]);
                    let ghost prev = next@;
                    next.push(c);
                    proof {
                        lemma_push_clause(prev, c, new_clauses@[j as int]@, clause_piece(ev, clause_ids@[k as int]));
                        lemma_pieces_step(ev, clause_ids@, k as int);
                        assert(next@ == prev.push(c));
                        assert(id_lists(next@) =~= id_lists(prev).push(c@));
                        assert(clause_ids@.take(k + 1).map_values(|o: ExprId| new_clauses@[j as int]@ + clause_piece(ev, o))
                            =~= clause_ids@.take(k as int).map_values(|o: ExprId| new_clauses@[j as int]@ + clause_piece(ev, o))
                                .push(new_clauses@[j as int]@ + clause_piece(ev, clause_ids@[k as int])));
                    }
                    k = k + 1;
                }
                proof {
                    lemma_rows_step(new_clauses@, j as int, ev, clause_ids@);
                    let lists = id_lists(new_clauses@);
                    assert(clause_ids@.take(clause_ids@.len() as int) =~= clause_ids@);
                    assert(lists.take(j + 1).drop_last() =~= lists.take(j as int));
                    assert(lists.take(j + 1).last() == new_clauses@[j as int]@);
                }
                j = j + 1;
            }
            proof {
                let lists = id_lists(new_clauses@);
                assert(lists.take(lists.len() as int) =~= lists);
                assert(child_ids@.take(i + 1).drop_last() =~= child_ids@.take(i as int));
                assert(child_ids@.take(i + 1).last() == child);
                lemma_rows_all(new_clauses@, ev, clause_ids@);
                assert forall|value: spec_fn(ExprId) -> bool, assignment: spec_fn(VarId) -> bool|
                    #[trigger] evaluates(ev, value, assignment) implies
                    clauses_true(value, next@) == some_true(value, child_ids@.take(i + 1)) by {
                    lemma_options_value(ev, n_vars, child, value, assignment);
                    lemma_some_true_take(value, child_ids@, i as int);
                }
            }
            new_clauses = next;
            i = i + 1;
        }
        assert(child_ids@.take(child_ids@.len() as int) == child_ids@);
        new_clauses
    }

    /// Stores the disjunction of each clause and returns their identifiers.
    fn store_clauses(&mut self, new_clauses: &Vec<Vec<ExprId>>) -> (r: Vec<ExprId>)
        requires
            old(self).wf(),
            forall|k: int| 0 <= k < new_clauses@.len() ==> ids_valid(#[trigger] new_clauses@[k]@, old(self).exprs@.len()),
        ensures
            grows(final(self), old(self)),
            final(self).vars == old(self).vars,
            extends(final(self).ev(), old(self).ev()),
            crate::meaning::new_below(final(self).ev(), old(self).ev().len(), old(self).vars@.len()),
            clauses_stored(final(self), old(self), id_lists(new_clauses@), r@),
            ids_valid(r@, final(self).exprs@.len()),
            forall|value: spec_fn(ExprId) -> bool, assignment: spec_fn(VarId) -> bool|
                #[trigger] evaluates(final(self).ev(), value, assignment) ==>
                forall|k: int| 0 <= k < r@.len() ==> #[trigger] value(r@[k]) == some_true(value, new_clauses@[k]@),
    {
        let ghost ev = self.ev();
        let ghost n_vars = self.vars@.len();
        proof {
            crate::meaning::lemma_wf_all_valid(self);
            lemma_grows_refl(self);
        }
        let mut new_clause_ids: Vec<ExprId> = Vec::new();
        let mut j: usize = 0;
        while j < new_clauses.len()
            invariant
                grows(self, old(self)),
                self.vars == old(self).vars,
                extends(self.ev(), old(self).ev()),
                ev == old(self).ev(),
                n_vars == old(self).vars@.len(),
                crate::meaning::all_valid(ev, n_vars),
                crate::meaning::new_below(self.ev(), ev.len(), n_vars),
                j <= new_clauses.len(),
                forall|k: int| 0 <= k < new_clauses@.len() ==> ids_valid(#[trigger] new_clauses@[k]@, old(self).exprs@.len()),
                new_clause_ids@.len() == j,
                ids_valid(new_clause_ids@, self.exprs@.len()),
                forall|value: spec_fn(ExprId) -> bool, assignment: spec_fn(VarId) -> bool|
                    #[trigger] evaluates(self.ev(), value, assignment) ==>
                    forall|k: int| 0 <= k < j ==> #[trigger] value(new_clause_ids@[k]) == some_true(value, new_clauses@[k]@),
                self.new_vars == old(self).new_vars,
                self.new_exprs == old(self).new_exprs,
                forall|k: int| 0 <= k < j ==> #[trigger] new_clause_ids@[k] < self.ev().len()
                    && simplified(self.ev(), ExprV::Or(new_clauses@[k]@), self.ev()[new_clause_ids@[k] as int]),
            decreases new_clauses.len() - j,
        {
            let nc = new_clauses[j].clone();
            proof {
                assert(ids_valid(new_clauses@[j as int]@, old(self).exprs@.len()));
                assert(nc@ == new_clauses@[j as int]@);
            }
            let ghost before = *self;
            let c = self.expr(Expr::Or(nc));
            proof {
                self.lemma_expr_grows(&before);
                lemma_grows_trans(old(self), &before, self);
                lemma_clause_node(&before, self, ev, n_vars, new_clauses@[j as int]@, c);
            }
            let ghost prev_ids = new_clause_ids@;
            new_clause_ids.push(c);
            proof {
                crate::meaning::lemma_wf_all_valid(&before);
                assert forall|k: int| 0 <= k < j + 1 implies #[trigger] new_clause_ids@[k] < self.ev().len()
                    && simplified(self.ev(), ExprV::Or(new_clauses@[k]@), self.ev()[new_clause_ids@[k] as int]) by {
                    if k < j {
                        assert(new_clause_ids@[k] == prev_ids[k]);
                        assert(ids_valid(new_clauses@[k]@, old(self).exprs@.len()));
                        assert(expr_valid(ExprV::Or(new_clauses@[k]@), before.ev().len(), n_vars));
                        crate::arena::lemma_simplified_extends(before.ev(), self.ev(), ExprV::Or(new_clauses@[k]@),
                            before.ev()[prev_ids[k] as int], n_vars);
                        assert(self.ev()[prev_ids[k] as int] == before.ev()[prev_ids[k] as int]);
                    } else {
                        assert(new_clause_ids@[k] == c);
                        assert(expr_valid(ExprV::Or(new_clauses@[k]@), before.ev().len(), n_vars));
                        crate::arena::lemma_simplified_extends(before.ev(), self.ev(), ExprV::Or(new_clauses@[k]@),
                            self.ev()[c as int], n_vars);
                    }
                }
                assert forall|value: spec_fn(ExprId) -> bool, assignment: spec_fn(VarId) -> bool|
                    #[trigger] evaluates(self.ev(), value, assignment) implies
                    forall|k: int| 0 <= k < j + 1 ==> #[trigger] value(new_clause_ids@[k]) == some_true(value, new_clauses@[k]@) by {
                    crate::meaning::lemma_evaluates_prefix(self.ev(), before.ev(), value, assignment);
                    assert forall|k: int| 0 <= k < j + 1 implies #[trigger] value(new_clause_ids@[k]) == some_true(value, new_clauses@[k]@) by {
                        if k < j {
                            assert(new_clause_ids@[k] == prev_ids[k]);
                        } else {
                            assert(new_clause_ids@[k] == c);
                        }
                    }
                }
            }
            j = j + 1;
        }
        new_clause_ids
    }

    /// Records a new auxiliary variable and its defining clauses in the Tseitin buffers.
    fn record_definition(&mut self, var_id: VarId, clauses: &Vec<ExprId>)
        requires
            old(self).wf(),
            old(self).new_vars is Some,
            old(self).new_exprs is Some,
            0 < var_id < old(self).vars@.len(),
            ids_valid(clauses@, old(self).exprs@.len()),
        ensures
            grows(final(self), old(self)),
            final(self).exprs == old(self).exprs,
            final(self).exprs_inv == old(self).exprs_inv,
            final(self).vars == old(self).vars,
            final(self).new_vars is Some,
            final(self).new_exprs is Some,
            final(self).new_vars->0@ == old(self).new_vars->0@.push(var_id),
            final(self).new_exprs->0@ == old(self).new_exprs->0@ + clauses@,
            final(self).var_aux_id == old(self).var_aux_id,
    {
        let mut nv = self.new_vars.take().unwrap();
        let ghost old_nv = nv@;
        nv.push(var_id);
        assert forall|i: int| 0 <= i < nv@.len() implies 0 < #[trigger] nv@[i] < self.vars@.len() by {
            if i < old_nv.len() {
                assert(var_ids_valid(old_nv, self.vars@.len()));
            }
        }
        self.new_vars = Some(nv);
        let mut ne = self.new_exprs.take().unwrap();
        let ghost old_ne = ne@;
        crate::text::push_ids(&mut ne, clauses);
        assert forall|i: int| 0 <= i < ne@.len() implies #[trigger] ne@[i] < self.exprs@.len() by {
            if i < old_ne.len() {
                assert(ids_valid(old_ne, self.exprs@.len()));
            } else {
                assert(ne@[i] == clauses@[i - old_ne.len()]);
            }
        }
        self.new_exprs = Some(ne);
        proof {
            crate::arena::lemma_wf_index_frame(old(self), self);
        }
    }

    /// Creates a binary disjunction `Or(a, b)` (or looks it up).
    fn or2(&mut self, a: ExprId, b: ExprId) -> (r: ExprId)
        requires
            old(self).wf(),
            a < old(self).exprs@.len(),
            b < old(self).exprs@.len(),
        ensures
            grows(final(self), old(self)),
            extends(final(self).ev(), old(self).ev()),
            final(self).vars == old(self).vars,
            final(self).var_aux_id == old(self).var_aux_id,
            final(self).new_vars == old(self).new_vars,
            final(self).new_exprs == old(self).new_exprs,
            r < final(self).exprs@.len(),
            crate::tseitin::stored(final(self), old(self), ExprV::Or(seq![a, b]), r),
    {
        let mut v: Vec<ExprId> = Vec::new();
        v.push(a);
        v.push(b);
        assert(v@ =~= seq![a, b]);
        let ghost before = *self;
        let r = self.expr(Expr::Or(v));
        proof {
            self.lemma_expr_grows(&before);
        }
        r
    }

    /// Defines a conjunction (`is_and`) or disjunction of `ids` with a new auxiliary variable.
    ///
    /// For a conjunction, the clauses let the variable imply every conjunct and be implied by their conjunction;
    /// for a disjunction, they let the variable imply the disjunction and be implied by every disjunct.
    /// The expression `var_expr_id` stands for the variable in the clauses (it is replaced by the variable afterwards).
    /// The variable is recorded in the Tseitin buffers, together with its clauses.
    fn def_junction(&mut self, var_expr_id: ExprId, ids: &Vec<ExprId>, is_and: bool) -> (var_id: VarId)
        requires
            old(self).wf(),
            has_aux_room(old(self)),
            old(self).new_vars is Some,
            old(self).new_exprs is Some,
            var_expr_id < old(self).exprs@.len(),
            ids_valid(ids@, old(self).exprs@.len()),
            old(self).ev()[var_expr_id as int] == (if is_and { ExprV::And(ids@) } else { ExprV::Or(ids@) }),
        ensures
            grows(final(self), old(self)),
            0 < var_id < final(self).vars@.len(),
            var_id as int == old(self).vars@.len(),
            final(self).vars@.len() == old(self).vars@.len() + 1,
            extends(final(self).ev(), old(self).ev()),
            final(self).new_vars is Some,
            final(self).new_exprs is Some,
            final(self).new_vars->0@ == old(self).new_vars->0@.push(var_id),
            forall|i: int| 0 <= i < final(self).ev().len() ==> #[trigger] final(self).ev()[i] != ExprV::Var(var_id),
            final(self).vv()[var_id as int] is Aux,
            final(self).var_aux_id == old(self).var_aux_id + 1,
            exists|ds: Seq<ExprId>| #[trigger] defining(final(self), old(self), var_expr_id, var_id, ds),
    {
        let ghost a0 = *self;
        let ghost big = a0.ev()[var_expr_id as int];
        let ghost hyp = tseitin_hyp(a0.ev());
        proof {
            assert forall|i: int| 0 <= i < a0.ev().len() implies #[trigger] a0.ev()[i] != ExprV::Var(a0.vars@.len() as VarId) by {
                assert(expr_valid(a0.exprs@[i]@, a0.exprs@.len(), a0.vars@.len()));
                assert(a0.ev()[i] == a0.exprs@[i]@);
            }
        }
        let var_id = self.add_var_aux();
        let ghost a1 = *self;
        assert(grows(&a1, old(self)));
        assert(a1.ev() == a0.ev());
        let not_var = self.expr(Expr::Not(var_expr_id));
        proof {
            self.lemma_expr_grows(&a1);
            lemma_grows_trans(old(self), &a1, self);
            lemma_defining_step(&a1, self, var_expr_id, var_id, ExprV::Not(var_expr_id), not_var);
            assert(self.ev()[not_var as int] == ExprV::Not(var_expr_id));
        }
        let mut clauses: Vec<ExprId> = Vec::new();
        if is_and {
            let mut i: usize = 0;
            while i < ids.len()
                invariant
                    grows(self, old(self)),
                    self.vars == a1.vars,
                    self.var_aux_id == a1.var_aux_id,
                    self.new_vars == a1.new_vars,
                    self.new_exprs == a1.new_exprs,
                    a1.vars@.len() == old(self).vars@.len() + 1,
                    a1.new_vars == old(self).new_vars,
                    a1.new_exprs == old(self).new_exprs,
                    extends(self.ev(), a0.ev()),
                    a0 == *old(self),
                    big == a0.ev()[var_expr_id as int],
                    big == ExprV::And(ids@),
                    hyp == tseitin_hyp(a0.ev()),
                    var_id as int == a0.vars@.len(),
                    ids_valid(ids@, old(self).exprs@.len()),
                    not_var < self.exprs@.len(),
                    self.ev()[not_var as int] == ExprV::Not(var_expr_id),
                    var_expr_id < old(self).exprs@.len(),
                    ids_valid(clauses@, self.exprs@.len()),
                    i <= ids.len(),
                    clauses@.len() == i,
                    forall|k: int| 0 <= k < self.ev().len() ==> #[trigger] self.ev()[k] != ExprV::Var(var_id),
                    hyp ==> tseitin_hyp(self.ev()),
                    hyp ==> forall|value: spec_fn(ExprId) -> bool, assignment: spec_fn(VarId) -> bool|
                        #[trigger] evaluates(abbreviated(self.ev(), var_expr_id, var_id), value, assignment)
                        ==> value(not_var) == !value(var_expr_id)
                            && forall|k: int| 0 <= k < i ==> #[trigger] value(clauses@[k]) == (!value(var_expr_id) || value(ids@[k])),
                decreases ids.len() - i,
            {
                let ghost before = *self;
                let c = self.or2(not_var, ids[i]);
                proof {
                    lemma_grows_trans(old(self), &before, self);
                    let l = seq![not_var, ids@[i as int]];
                    assert(l[0] == not_var && l[1] == ids@[i as int]);
                    assert(l.contains(not_var));
                    assert(big != ExprV::And(Seq::<ExprId>::empty())) by {
                        assert(ids@.len() > 0);
                    }
                    lemma_defining_step(&before, self, var_expr_id, var_id, ExprV::Or(l), c);
                    if hyp {
                        assert forall|value: spec_fn(ExprId) -> bool, assignment: spec_fn(VarId) -> bool|
                            #[trigger] evaluates(abbreviated(self.ev(), var_expr_id, var_id), value, assignment)
                            implies value(not_var) == !value(var_expr_id)
                                && forall|k: int| 0 <= k < i + 1 ==> #[trigger] value(clauses@.push(c)[k]) == (!value(var_expr_id) || value(ids@[k])) by {
                            assert(evaluates(abbreviated(before.ev(), var_expr_id, var_id), value, assignment));
                            crate::meaning::lemma_pair_value(value, not_var, ids@[i as int]);
                            assert forall|k: int| 0 <= k < i + 1 implies #[trigger] value(clauses@.push(c)[k]) == (!value(var_expr_id) || value(ids@[k])) by {
                                if k < i {
                                    assert(clauses@.push(c)[k] == clauses@[k]);
                                } else {
                                    assert(clauses@.push(c)[k] == c);
                                }
                            }
                        }
                    }
                }
                clauses.push(c);
                i = i + 1;
            }
            let ghost a2 = *self;
            let gs = ids.clone();
            assert(gs@ == ids@);
            let negs = self.negate_exprs(gs);
            proof {
                self.lemma_grows_by_expr(&a2);
                lemma_grows_trans(old(self), &a2, self);
                assert forall|k: int| 0 <= k < self.ev().len() implies #[trigger] self.ev()[k] != ExprV::Var(var_id) by {
                    if k < a2.ev().len() {
                        assert(self.ev()[k] == a2.ev()[k]);
                    }
                }
                crate::tseitin::lemma_abbreviated_prefix(self.ev(), a2.ev(), var_expr_id, var_id);
                if hyp {
                    assert(a2.ev()[var_expr_id as int] == big);
                    crate::tseitin::lemma_negations_abbreviated(&a2, self, var_expr_id, var_id, ids@, negs@);
                }
            }
            let mut clause: Vec<ExprId> = Vec::new();
            clause.push(var_expr_id);
            crate::text::push_ids(&mut clause, &negs);
            assert forall|k: int| 0 <= k < clause@.len() implies #[trigger] clause@[k] < self.exprs@.len() by {
                if k > 0 {
                    assert(clause@[k] == negs@[k - 1]);
                }
            }
            let ghost before = *self;
            let ghost l = clause@;
            assert(l == seq![var_expr_id] + negs@);
            let c = self.expr(Expr::Or(clause));
            proof {
                self.lemma_expr_grows(&before);
                lemma_grows_trans(old(self), &before, self);
                assert(l[0] == var_expr_id);
                assert(l.contains(var_expr_id));
                if big == ExprV::And(Seq::<ExprId>::empty()) {
                    assert(ids@.len() == 0);
                    assert(l == seq![var_expr_id]);
                }
                lemma_defining_step(&before, self, var_expr_id, var_id, ExprV::Or(l), c);
            }
            let ghost prev = clauses@;
            clauses.push(c);
            proof {
                assert forall|k: int| 0 <= k < self.ev().len() implies #[trigger] self.ev()[k] != ExprV::Var(var_id) by {}
                if hyp {
                    assert forall|value: spec_fn(ExprId) -> bool, assignment: spec_fn(VarId) -> bool|
                        #[trigger] evaluates(abbreviated(self.ev(), var_expr_id, var_id), value, assignment)
                        implies all_true(value, clauses@) == (value(var_expr_id) == node_value(big, value, assignment)) by {
                        assert(evaluates(abbreviated(before.ev(), var_expr_id, var_id), value, assignment));
                        assert(evaluates(abbreviated(a2.ev(), var_expr_id, var_id), value, assignment));
                        assert forall|k: int| 0 <= k < ids@.len() implies #[trigger] value(clauses@[k]) == (!value(var_expr_id) || value(ids@[k])) by {
                            assert(clauses@[k] == prev[k]);
                        }
                        lemma_some_true_concat(value, seq![var_expr_id], negs@);
                        assert(some_true(value, seq![var_expr_id]) == value(var_expr_id)) by {
                            let one = seq![var_expr_id];
                            assert(one[0] == var_expr_id);
                            if value(var_expr_id) {
                                assert(0 <= 0 < one.len() && value(one[0]));
                            }
                        }
                        assert(some_true(value, negs@) == !all_true(value, ids@)) by {
                            if some_true(value, negs@) {
                                let k = choose|k: int| 0 <= k < negs@.len() && #[trigger] value(negs@[k]);
                                assert(!value(ids@[k]));
                            }
                            if !all_true(value, ids@) {
                                let k = choose|k: int| !(0 <= k < ids@.len() ==> #[trigger] value(ids@[k]));
                                assert(value(negs@[k]));
                            }
                        }
                        assert(value(clauses@[ids@.len() as int]) == (value(var_expr_id) || !all_true(value, ids@)));
                        crate::tseitin::lemma_defines_and(value, var_expr_id, ids@, clauses@);
                    }
                }
            }
        } else {
            let mut clause: Vec<ExprId> = Vec::new();
            clause.push(not_var);
            crate::text::push_ids(&mut clause, ids);
            assert forall|k: int| 0 <= k < clause@.len() implies #[trigger] clause@[k] < self.exprs@.len() by {
                if k > 0 {
                    assert(clause@[k] == ids@[k - 1]);
                }
            }
            let ghost before = *self;
            let ghost l = clause@;
            assert(l == seq![not_var] + ids@);
            let c = self.expr(Expr::Or(clause));
            proof {
                self.lemma_expr_grows(&before);
                lemma_grows_trans(old(self), &before, self);
                assert(l[0] == not_var);
                assert(l.contains(not_var));
                lemma_defining_step(&before, self, var_expr_id, var_id, ExprV::Or(l), c);
            }
            clauses.push(c);
            proof {
                if hyp {
                    assert forall|value: spec_fn(ExprId) -> bool, assignment: spec_fn(VarId) -> bool|
                        #[trigger] evaluates(abbreviated(self.ev(), var_expr_id, var_id), value, assignment)
                        implies value(clauses@[0]) == (!value(var_expr_id) || some_true(value, ids@)) by {
                        assert(evaluates(abbreviated(before.ev(), var_expr_id, var_id), value, assignment));
                        lemma_some_true_concat(value, seq![not_var], ids@);
                        let one = seq![not_var];
                        assert(one[0] == not_var);
                        if value(not_var) {
                            assert(0 <= 0 < one.len() && value(one[0]));
                        }
                    }
                }
            }
            let mut i: usize = 0;
            while i < ids.len()
                invariant
                    grows(self, old(self)),
                    self.vars == a1.vars,
                    self.var_aux_id == a1.var_aux_id,
                    self.new_vars == a1.new_vars,
                    self.new_exprs == a1.new_exprs,
                    a1.vars@.len() == old(self).vars@.len() + 1,
                    a1.new_vars == old(self).new_vars,
                    a1.new_exprs == old(self).new_exprs,
                    extends(self.ev(), a0.ev()),
                    a0 == *old(self),
                    big == a0.ev()[var_expr_id as int],
                    big == ExprV::Or(ids@),
                    hyp == tseitin_hyp(a0.ev()),
                    var_id as int == a0.vars@.len(),
                    ids_valid(ids@, old(self).exprs@.len()),
                    var_expr_id < old(self).exprs@.len(),
                    ids_valid(clauses@, self.exprs@.len()),
                    i <= ids.len(),
                    clauses@.len() == i + 1,
                    forall|k: int| 0 <= k < self.ev().len() ==> #[trigger] self.ev()[k] != ExprV::Var(var_id),
                    hyp ==> tseitin_hyp(self.ev()),
                    hyp ==> forall|value: spec_fn(ExprId) -> bool, assignment: spec_fn(VarId) -> bool|
                        #[trigger] evaluates(abbreviated(self.ev(), var_expr_id, var_id), value, assignment)
                        ==> value(clauses@[0]) == (!value(var_expr_id) || some_true(value, ids@))
                            && forall|k: int| 0 <= k < i ==> #[trigger] value(clauses@[k + 1]) == (value(var_expr_id) || !value(ids@[k])),
                decreases ids.len() - i,
            {
                let ghost before = *self;
                let n = self.expr(Expr::Not(ids[i]));
                proof {
                    self.lemma_expr_grows(&before);
                    lemma_grows_trans(old(self), &before, self);
                    assert(ids@.contains(ids@[i as int]));
                    assert(crate::expr::children(before.ev()[var_expr_id as int]) == ids@);
                    lemma_defining_step(&before, self, var_expr_id, var_id, ExprV::Not(ids@[i as int]), n);
                }
                let ghost before2 = *self;
                let c = self.or2(var_expr_id, n);
                proof {
                    lemma_grows_trans(old(self), &before2, self);
                    let l = seq![var_expr_id, n];
                    assert(l[0] == var_expr_id && l[1] == n);
                    assert(l.contains(var_expr_id));
                    lemma_defining_step(&before2, self, var_expr_id, var_id, ExprV::Or(l), c);
                    if hyp {
                        assert forall|value: spec_fn(ExprId) -> bool, assignment: spec_fn(VarId) -> bool|
                            #[trigger] evaluates(abbreviated(self.ev(), var_expr_id, var_id), value, assignment)
                            implies value(clauses@.push(c)[0]) == (!value(var_expr_id) || some_true(value, ids@))
                                && forall|k: int| 0 <= k < i + 1 ==> #[trigger] value(clauses@.push(c)[k + 1]) == (value(var_expr_id) || !value(ids@[k])) by {
                            assert(evaluates(abbreviated(before2.ev(), var_expr_id, var_id), value, assignment));
                            assert(evaluates(abbreviated(before.ev(), var_expr_id, var_id), value, assignment));
                            crate::meaning::lemma_pair_value(value, var_expr_id, n);
                            assert(clauses@.push(c)[0] == clauses@[0]);
                            assert forall|k: int| 0 <= k < i + 1 implies #[trigger] value(clauses@.push(c)[k + 1]) == (value(var_expr_id) || !value(ids@[k])) by {
                                if k < i {
                                    assert(clauses@.push(c)[k + 1] == clauses@[k + 1]);
                                } else {
                                    assert(clauses@.push(c)[k + 1] == c);
                                }
                            }
                        }
                    }
                }
                clauses.push(c);
                i = i + 1;
            }
            proof {
                if hyp {
                    assert forall|value: spec_fn(ExprId) -> bool, assignment: spec_fn(VarId) -> bool|
                        #[trigger] evaluates(abbreviated(self.ev(), var_expr_id, var_id), value, assignment)
                        implies all_true(value, clauses@) == (value(var_expr_id) == node_value(big, value, assignment)) by {
                        crate::tseitin::lemma_defines_or(value, var_expr_id, ids@, clauses@);
                    }
                }
            }
        }
        let ghost a_end = *self;
        self.record_definition(var_id, &clauses);
        proof {
            lemma_grows_trans(old(self), &a_end, self);
            assert(self.ev() == a_end.ev());
            assert(defining(self, old(self), var_expr_id, var_id, clauses@));
        }
        var_id
    }

    /// Abbreviates a conjunction or disjunction with a new auxiliary variable (Tseitin transformation).
    ///
    /// The expression is replaced by the variable, whose defining clauses are recorded in the Tseitin buffers.
    /// Nothing is done if the arena has no room for another variable.
    pub fn cnf_tseitin_visitor(&mut self, id: ExprId)
        requires
            old(self).wf(),
            old(self).new_vars is Some,
            old(self).new_exprs is Some,
            id < old(self).exprs@.len(),
        ensures
            grows(final(self), old(self)),
            crate::tseitin::tseitin_step(final(self), old(self), id),
            aux_room(old(self)) && crate::tseitin::is_junction(old(self).ev()[id as int])
                ==> exists|mid: Seq<ExprV>, ds: Seq<ExprId>| #[trigger] crate::tseitin::abbreviation_step(final(self), old(self), id, mid, ds),
            !(aux_room(old(self)) && crate::tseitin::is_junction(old(self).ev()[id as int])) ==> *final(self) == *old(self),
    {
        if !(self.vars.len() < (i32::MAX - 1) as usize && self.var_aux_id < u32::MAX) {
            return;
        }
        proof {
            assert(expr_valid(self.exprs@[id as int]@, self.exprs@.len(), self.vars@.len()));
        }
        let (children, is_and) = match &self.exprs[id] {
            Expr::And(cs) => (cs.clone(), true),
            Expr::Or(cs) => (cs.clone(), false),
            _ => {
                return;
            },
        };
        let ghost a0 = *self;
        assert(a0.ev()[id as int] == (if is_and { ExprV::And(children@) } else { ExprV::Or(children@) }));
        let var_id = self.def_junction(id, &children, is_and);
        let ghost mid = *self;
        self.set_expr(id, Expr::Var(var_id));
        proof {
            lemma_grows_trans(old(self), &mid, self);
            let ds = choose|ds: Seq<ExprId>| #[trigger] defining(&mid, &a0, id, var_id, ds);
            assert(mid.ev()[id as int] == a0.ev()[id as int]);
            let c = choose|c: ExprV| #[trigger] mid.canonicalized(ExprV::Var(var_id), c)
                && expr_valid(c, mid.exprs@.len(), mid.vars@.len())
                && expr_valid(flattened(mid.ev(), c), mid.exprs@.len(), mid.vars@.len())
                && simplified(mid.ev(), flattened(mid.ev(), c), self.ev()[id as int])
                && self.ev() == mid.ev().update(id as int, self.ev()[id as int]);
            assert(c == ExprV::Var(var_id));
            assert(self.ev()[id as int] == ExprV::Var(var_id));
            assert(self.ev() == abbreviated(mid.ev(), id, var_id));
            crate::tseitin::lemma_abbreviate_keeps(mid.ev(), id, var_id);
            assert(crate::tseitin::abbreviation_step(self, &a0, id, mid.ev(), ds));
        }
    }

    /// Replaces every child that is the variable `var` by the expression `new_id`, and re-stores the expression.
    pub fn rename_visitor(&mut self, var: VarId, new_id: ExprId, id: ExprId)
        requires
            old(self).wf(),
            id < old(self).exprs@.len(),
            new_id < old(self).exprs@.len(),
        ensures
            grows(final(self), old(self)),
            rename_step(final(self), old(self), var, new_id, id),
    {
        proof {
            assert(expr_valid(self.exprs@[id as int]@, self.exprs@.len(), self.vars@.len()));
        }
        let ghost ev = self.ev();
        let children = self.exprs[id].children();
        let mut changed = false;
        let mut new_children: Vec<ExprId> = Vec::new();
        let mut i: usize = 0;
        while i < children.len()
            invariant
                self.wf(),
                children@ == crate::expr::children(self.exprs@[id as int]@),
                ids_valid(children@, self.exprs@.len()),
                new_id < self.exprs@.len(),
                i <= children.len(),
                new_children@.len() == i,
                ids_valid(new_children@, self.exprs@.len()),
                *self == *old(self),
                ev == self.ev(),
                forall|k: int| 0 <= k < i ==> #[trigger] new_children@[k]
                    == (if ev[children@[k] as int] == ExprV::Var(var) { new_id } else { children@[k] }),
                changed == exists|k: int| 0 <= k < i && #[trigger] ev[children@[k] as int] == ExprV::Var(var),
            decreases children.len() - i,
        {
            let c = children[i];
            let is_var = match &self.exprs[c] {
                Expr::Var(v) => *v == var,
                _ => false,
            };
            assert(is_var == (ev[c as int] == ExprV::Var(var)));
            let ghost was_changed = changed;
            if is_var {
                new_children.push(new_id);
                changed = true;
            } else {
                new_children.push(c);
            }
            proof {
                if is_var {
                    assert(ev[children@[i as int] as int] == ExprV::Var(var));
                } else if was_changed {
                    let k = choose|k: int| 0 <= k < i && #[trigger] ev[children@[k] as int] == ExprV::Var(var);
                    assert(0 <= k < i + 1 && ev[children@[k] as int] == ExprV::Var(var));
                } else {
                    assert forall|k: int| 0 <= k < i + 1 implies !(#[trigger] ev[children@[k] as int] == ExprV::Var(var)) by {
                        if k == i {
                            assert(children@[k] == c);
                        }
                    }
                }
            }
            i = i + 1;
        }
        assert(new_children@ =~= renamed(ev, children@, var, new_id));
        if !changed {
            return;
        }
        let e = match &self.exprs[id] {
            Expr::Var(v) => Expr::Var(*v),
            Expr::Not(_) => Expr::Not(new_children[0]),
            Expr::And(_) => Expr::And(new_children),
            Expr::Or(_) => Expr::Or(new_children),
        };
        assert(e@ == with_children(ev[id as int], renamed(ev, children@, var, new_id)));
        self.set_expr(id, e);
    }

    /// Applies a visitor to an expression.
    pub fn visit(&mut self, v: &Visitor, id: ExprId)
        requires
            old(self).wf(),
            id < old(self).exprs@.len(),
            visitor_ok(*v, old(self)),
        ensures
            grows(final(self), old(self)),
            *v == Visitor::Nothing ==> *final(self) == *old(self),
            meaning_preserving(*v) ==> keeps_meaning(final(self).ev(), old(self).ev()),
            meaning_preserving(*v) ==> final(self).vars == old(self).vars,
            *v == Visitor::Tseitin ==> crate::tseitin::tseitin_step(final(self), old(self), id),
            visit_effect(final(self), old(self), *v, id),
    {
        match v {
            Visitor::Nothing => {
                proof {
                    crate::meaning::lemma_keeps_meaning_refl(self.ev());
                }
            },
            Visitor::Canon => self.canon_visitor(id),
            Visitor::Nnf => self.nnf_visitor(id),
            Visitor::CnfDist => self.cnf_dist_visitor(id),
            Visitor::Tseitin => self.cnf_tseitin_visitor(id),
            Visitor::RenameVar(var, new_id) => self.rename_visitor(*var, *new_id, id),
        }
    }

    /// Replaces an expression identifier by the canonical identifier of its expression.
    pub fn reset_root_expr(&self, root_id: &mut ExprId)
        requires
            self.wf(),
            *old(root_id) < self.exprs@.len(),
        ensures
            *final(root_id) == self.canon_id(*old(root_id)),
            *final(root_id) < self.exprs@.len(),
            self.ev()[*final(root_id) as int] == self.ev()[*old(root_id) as int],
    {
        proof {
            self.lemma_canon_id(*root_id);
        }
        *root_id = self.get_expr(&self.exprs[*root_id]).unwrap();
    }

    /// Visits all sub-expressions below `root_id` bottom-up (children right-to-left before their parent),
    /// applying `post` to each and `pre` to each expression with children before its children.
    ///
    /// Each expression is visited at most once. Afterwards, the root is replaced by the canonical
    /// identifier of its (possibly changed) expression.
    pub fn prepostorder_rev(&mut self, root_id: &mut ExprId, pre: &Visitor, post: &Visitor)
        requires
            old(self).wf(),
            *old(root_id) < old(self).exprs@.len(),
            visitor_ok(*pre, old(self)),
            visitor_ok(*post, old(self)),
        ensures
            grows(final(self), old(self)),
            *final(root_id) < final(self).exprs@.len(),
            final(self).ev()[*final(root_id) as int] == final(self).ev()[*old(root_id) as int],
            *final(root_id) == final(self).canon_id(*old(root_id)),
            meaning_preserving(*pre) && meaning_preserving(*post) ==> keeps_meaning(final(self).ev(), old(self).ev()),
            meaning_preserving(*pre) && meaning_preserving(*post) ==> final(self).vars == old(self).vars,
            *pre == Visitor::Nothing && *post == Visitor::Tseitin ==> crate::tseitin::tseitin_progress(final(self), old(self)),
            crate::expr::children(old(self).ev()[*old(root_id) as int]).len() == 0
                ==> visit_effect(final(self), old(self), *post, *old(root_id)),
            exists|arenas: Seq<Arena>, steps: Seq<(Visitor, ExprId)>, entered: Seq<bool>|
                #[trigger] traversal_done(arenas, steps, entered, *old(self), *final(self), *old(root_id), *pre, *post),
            exists|arenas: Seq<Arena>, steps: Seq<(Visitor, ExprId)>| #[trigger] visit_trace(arenas, steps)
                && arenas[0] == *old(self) && arenas.last() == *final(self)
                && (forall|k: int| 0 <= k < steps.len() ==> #[trigger] steps[k].0 == *pre || steps[k].0 == *post)
                && steps.contains((*post, *old(root_id)))
                && (crate::expr::children(old(self).ev()[*old(root_id) as int]).len() > 0 ==> steps.contains((*pre, *old(root_id))))
                && (forall|x: ExprId| #[trigger] steps.contains((*pre, x)) ==> steps.contains((*post, x)))
                && (*pre == Visitor::Nothing ==> (forall|x: ExprId| reaches(old(self).ev(), *old(root_id), x)
                        ==> #[trigger] steps.contains((*post, x)))
                    && forall|k: int| 0 <= k < steps.len() ==> reaches(old(self).ev(), *old(root_id), #[trigger] steps[k].1)),
    {
        proof {
            crate::meaning::lemma_keeps_meaning_refl(self.ev());
            if *post == Visitor::Tseitin {
                crate::tseitin::lemma_progress_start(self);
            }
        }
        let mut remaining: Vec<ExprId> = Vec::new();
        remaining.push(*root_id);
        let mut seen: HashSet<ExprId> = HashSet::new();
        let mut visited: HashSet<ExprId> = HashSet::new();
        let ghost leaf = crate::expr::children(old(self).ev()[*old(root_id) as int]).len() == 0;
        let ghost mut started = false;
        let pre_nothing = match pre {
            Visitor::Nothing => true,
            _ => false,
        };
        let ghost n0: nat = self.exprs@.len();
        let ghost ev0 = self.ev();
        let ghost root0 = *root_id;
        let ghost mut arenas: Seq<Arena> = seq![*self];
        let ghost mut steps: Seq<(Visitor, ExprId)> = Seq::empty();
        let ghost mut entered: Seq<bool> = Seq::empty();
        proof {
            assert(is_path(ev0, seq![root0]));
            assert(reaches(ev0, root0, root0));
        }
        proof {
            assert(seq![root0].contains(root0)) by {
                assert(seq![root0][0] == root0);
            }
        }
        while remaining.len() > 0
            invariant
                general_inv(root0, remaining@, seen@, visited@, steps, *pre, *post),
                entered_closed(arenas, steps, entered, remaining@, seen@, visited@, *pre, *post),
                started && !leaf ==> steps.len() > 0 && entered[0] && steps[0] == (*pre, root0),
                started && !leaf ==> steps.contains((*pre, root0)),
                pre_nothing == (*pre == Visitor::Nothing),
                n0 == old(self).ev().len(),
                n0 <= usize::MAX,
                ev0 == old(self).ev(),
                root0 == *old(root_id),
                visit_trace(arenas, steps),
                arenas[0] == *old(self),
                arenas.last() == *self,
                forall|k: int| 0 <= k < steps.len() ==> #[trigger] steps[k].0 == *pre || steps[k].0 == *post,
                pre_nothing ==> forall|x: ExprId| x < n0 && !visited@.contains(x) ==> #[trigger] self.ev()[x as int] == ev0[x as int],
                pre_nothing ==> traversal_inv(ev0, root0, n0, remaining@, seen@, visited@, steps, *post),
                !started ==> *self == *old(self) && remaining@ == seq![*old(root_id)] && steps.len() == 0
                    && seen@ == Set::<ExprId>::empty() && visited@ == Set::<ExprId>::empty(),
                started && leaf ==> remaining@.len() == 0 && visit_effect(self, old(self), *post, *old(root_id)),
                leaf == (crate::expr::children(old(self).ev()[*old(root_id) as int]).len() == 0),
                grows(self, old(self)),
                visitor_ok(*pre, self),
                visitor_ok(*post, self),
                ids_valid(remaining@, self.exprs@.len()),
                *root_id < self.exprs@.len(),
                *root_id == *old(root_id),
                meaning_preserving(*pre) && meaning_preserving(*post) ==> keeps_meaning(self.ev(), old(self).ev()),
                meaning_preserving(*pre) && meaning_preserving(*post) ==> self.vars == old(self).vars,
                *pre == Visitor::Nothing && *post == Visitor::Tseitin ==> crate::tseitin::tseitin_progress(self, old(self)),
                *pre == Visitor::Nothing && *post == Visitor::Tseitin ==> ids_valid(remaining@, old(self).exprs@.len()),
                old(self).wf(),
            decreases unvisited((usize::MAX + 1) as nat, seen@.union(visited@)), remaining@.len(),
        {
            let ghost rem_before = remaining@;
            let ghost seen_before = seen@;
            let ghost visited_before = visited@;
            let ghost steps_before = steps;
            let ghost arenas_before = arenas;
            let ghost entered_before = entered;
            let id = remaining[remaining.len() - 1];
            proof {
                assert(id == rem_before[rem_before.len() - 1]);
                if pre_nothing {
                    assert(reaches(ev0, root0, rem_before[rem_before.len() - 1]));
                }
            }
            if !self.exprs[id].children().is_empty() && !seen.contains(&id) && !visited.contains(&id) {
                seen.insert(id);
                let ghost before = *self;
                self.visit(pre, id);
                proof {
                    let ghost arenas0 = arenas;
                    arenas = arenas.push(*self);
                    steps = steps.push((*pre, id));
                    entered = entered.push(true);
                    assert(visit_trace(arenas, steps)) by {
                        assert forall|i: int| 0 <= i < steps.len() implies visit_effect(&arenas[i + 1], &arenas[i], #[trigger] steps[i].0, steps[i].1) by {
                            if i < steps.len() - 1 {
                                assert(steps[i] == steps_before[i]);
                                assert(arenas[i + 1] == arenas0[i + 1]);
                                assert(arenas[i] == arenas0[i]);
                            } else {
                                assert(arenas[i] == before);
                            }
                        }
                    }
                    assert forall|k: int| 0 <= k < steps.len() implies #[trigger] steps[k].0 == *pre || steps[k].0 == *post by {
                        if k < steps.len() - 1 {
                            assert(steps[k] == steps_before[k]);
                        }
                    }
                    lemma_grows_trans(old(self), &before, self);
                    if meaning_preserving(*pre) && meaning_preserving(*post) {
                        crate::meaning::lemma_keeps_meaning_trans(old(self).ev(), before.ev(), self.ev());
                    }
                }
                let children = self.exprs[id].children();
                proof {
                    assert(expr_valid(self.exprs@[id as int]@, self.exprs@.len(), self.vars@.len()));
                }
                let ghost old_rem = remaining@;
                crate::text::push_ids(&mut remaining, &children);
                assert forall|k: int| 0 <= k < remaining@.len() implies #[trigger] remaining@[k] < self.exprs@.len() by {
                    if k >= old_rem.len() {
                        assert(remaining@[k] == children@[k - old_rem.len()]);
                    }
                }
                proof {
                    if *pre == Visitor::Nothing && *post == Visitor::Tseitin {
                        assert(old_rem.contains(id));
                        assert(id < old(self).exprs@.len());
                        assert(self.ev()[id as int] == old(self).ev()[id as int] || self.ev()[id as int] is Var);
                        assert(expr_valid(old(self).exprs@[id as int]@, old(self).exprs@.len(), old(self).vars@.len()));
                        crate::tseitin::lemma_children_valid(old(self).ev()[id as int], old(self).ev().len(), old(self).vars@.len());
                        assert forall|k: int| 0 <= k < remaining@.len() implies #[trigger] remaining@[k] < old(self).exprs@.len() by {
                            if k >= old_rem.len() {
                                assert(remaining@[k] == children@[k - old_rem.len()]);
                            } else {
                                assert(remaining@[k] == old_rem[k]);
                            }
                        }
                    }
                    lemma_general_enter(root0, id, children@, rem_before, remaining@, seen_before, seen@, visited@,
                        steps_before, steps, *pre, *post);
                    assert(children@ == crate::expr::children(self.ev()[id as int]));
                    lemma_closed_enter(arenas_before, arenas, steps_before, steps, entered_before, entered, rem_before, remaining@,
                        seen_before, seen@, visited@, id, *self, *pre, *post);
                    assert(seen@.union(visited@) =~= seen_before.union(visited@).insert(id));
                    lemma_unvisited_grow((usize::MAX + 1) as nat, seen_before.union(visited@), id);
                    if !started {
                        assert(steps[0] == (*pre, root0));
                    } else if !leaf {
                        assert(steps_before.contains((*pre, root0)));
                        let t = choose|t: int| 0 <= t < steps_before.len() && steps_before[t] == (*pre, root0);
                        assert(steps[t] == (*pre, root0));
                    }
                    if pre_nothing {
                        assert(id < n0);
                        assert(self.ev()[id as int] == ev0[id as int]);
                        assert(expr_valid(old(self).exprs@[id as int]@, old(self).exprs@.len(), old(self).vars@.len()));
                        crate::tseitin::lemma_children_valid(old(self).ev()[id as int], old(self).ev().len(), old(self).vars@.len());
                        assert(remaining@ == rem_before + children@);
                        lemma_pre_nothing_step(ev0, root0, n0, id, children@, rem_before, remaining@, seen_before, seen@,
                            visited@, steps_before, steps, *post);
                        assert(self.ev()[id as int] == ev0[id as int]);
                        assert(forall|x: ExprId| x < n0 && !visited@.contains(x) ==> #[trigger] self.ev()[x as int] == ev0[x as int]);
                    }
                }
            } else {
                if !visited.contains(&id) {
                    let ghost before = *self;
                    self.visit(post, id);
                    proof {
                        let ghost arenas0 = arenas;
                        arenas = arenas.push(*self);
                        steps = steps.push((*post, id));
                        entered = entered.push(false);
                        assert(visit_trace(arenas, steps)) by {
                            assert forall|i: int| 0 <= i < steps.len() implies visit_effect(&arenas[i + 1], &arenas[i], #[trigger] steps[i].0, steps[i].1) by {
                                if i < steps.len() - 1 {
                                    assert(steps[i] == steps_before[i]);
                                    assert(arenas[i + 1] == arenas0[i + 1]);
                                    assert(arenas[i] == arenas0[i]);
                                } else {
                                    assert(arenas[i] == before);
                                }
                            }
                        }
                        assert forall|k: int| 0 <= k < steps.len() implies #[trigger] steps[k].0 == *pre || steps[k].0 == *post by {
                            if k < steps.len() - 1 {
                                assert(steps[k] == steps_before[k]);
                            }
                        }
                        if pre_nothing {
                            assert forall|x: ExprId| x < n0 && !visited@.contains(x) && x != id implies #[trigger] self.ev()[x as int] == ev0[x as int] by {
                                lemma_visit_frame(self, &before, *post, id, x);
                            }
                        }
                        lemma_grows_trans(old(self), &before, self);
                        if meaning_preserving(*pre) && meaning_preserving(*post) {
                            crate::meaning::lemma_keeps_meaning_trans(old(self).ev(), before.ev(), self.ev());
                        }
                        if *pre == Visitor::Nothing && *post == Visitor::Tseitin {
                            crate::tseitin::lemma_progress_step(self, &before, old(self), id);
                        }
                    }
                    visited.insert(id);
                    seen.remove(&id);
                }
                remaining.pop();
                proof {
                    lemma_general_leave(root0, id, rem_before, remaining@, seen_before, seen@, visited_before, visited@,
                        steps_before, steps, *pre, *post);
                    lemma_closed_leave(arenas_before, arenas, steps_before, steps, entered_before, entered, rem_before, remaining@,
                        seen_before, seen@, visited_before, visited@, id, *self, *pre, *post);
                    if !visited_before.contains(id) {
                        assert(seen@.union(visited@) =~= seen_before.union(visited_before).insert(id));
                        lemma_unvisited_grow((usize::MAX + 1) as nat, seen_before.union(visited_before), id);
                    } else {
                        assert(seen@ == seen_before && visited@ == visited_before);
                    }
                    if started && !leaf {
                        assert(steps_before.contains((*pre, root0)));
                        let t = choose|t: int| 0 <= t < steps_before.len() && steps_before[t] == (*pre, root0);
                        assert(steps[t] == (*pre, root0));
                    }
                    if pre_nothing {
                        lemma_post_step(ev0, root0, n0, id, rem_before, remaining@, seen_before, seen@, visited_before, visited@,
                            steps_before, steps, *post);
                    }
                }
            }
            proof {
                started = true;
            }
        }
        proof {
            assert(remaining@.len() == 0);
            assert(!started ==> remaining@.len() == 1);
            assert(visited@.contains(root0));
            assert forall|x: ExprId| #[trigger] steps.contains((*pre, x)) implies steps.contains((*post, x)) by {
                if seen@.contains(x) {
                    assert(remaining@.contains(x));
                }
            }
            assert forall|k: int| 0 <= k < steps.len() && #[trigger] entered[k] implies steps[k].0 == *pre
                && forall|c: ExprId| #[trigger] children_after(arenas, k, steps[k].1).contains(c) ==> steps.contains((*post, c)) by {
                assert forall|c: ExprId| #[trigger] children_after(arenas, k, steps[k].1).contains(c) implies steps.contains((*post, c)) by {
                    assert(visited@.contains(c) || remaining@.contains(c));
                    assert(visited@.contains(c));
                }
            }
            assert(traversal_done(arenas, steps, entered, *old(self), *self, root0, *pre, *post));
            if pre_nothing {
                assert(remaining@.len() == 0);
                assert forall|x: ExprId| reaches(ev0, root0, x) implies #[trigger] steps.contains((*post, x)) by {
                    let p = choose|p: Seq<ExprId>| #[trigger] is_path(ev0, p) && p[0] == root0 && p.last() == x;
                    lemma_closed_reaches(ev0, visited@, root0, p);
                }
            }
        }
        self.reset_root_expr(root_id);
    }

    /// Visits all sub-expressions below `root_id` bottom-up (see `prepostorder_rev` without a pre-visitor).
    pub fn postorder_rev(&mut self, root_id: &mut ExprId, post: &Visitor)
        requires
            old(self).wf(),
            *old(root_id) < old(self).exprs@.len(),
            visitor_ok(*post, old(self)),
        ensures
            grows(final(self), old(self)),
            *final(root_id) < final(self).exprs@.len(),
            final(self).ev()[*final(root_id) as int] == final(self).ev()[*old(root_id) as int],
            *final(root_id) == final(self).canon_id(*old(root_id)),
            meaning_preserving(*post) ==> keeps_meaning(final(self).ev(), old(self).ev()),
            meaning_preserving(*post) ==> final(self).vars == old(self).vars,
            *post == Visitor::Tseitin ==> crate::tseitin::tseitin_progress(final(self), old(self)),
            crate::expr::children(old(self).ev()[*old(root_id) as int]).len() == 0
                ==> visit_effect(final(self), old(self), *post, *old(root_id)),
            exists|arenas: Seq<Arena>, steps: Seq<(Visitor, ExprId)>| #[trigger] visit_trace(arenas, steps)
                && arenas[0] == *old(self) && arenas.last() == *final(self)
                && (forall|k: int| 0 <= k < steps.len() ==> #[trigger] steps[k].0 == Visitor::Nothing || steps[k].0 == *post)
                && (forall|x: ExprId| reaches(old(self).ev(), *old(root_id), x) ==> #[trigger] steps.contains((*post, x)))
                && forall|k: int| 0 <= k < steps.len() ==> reaches(old(self).ev(), *old(root_id), #[trigger] steps[k].1),
    {
        self.prepostorder_rev(root_id, &Visitor::Nothing, post);
    }

    /// Visits all sub-expressions below `root_id` top-down (parents before their children, children right-to-left),
    /// applying `v` to each, and returns the visited identifiers in visiting order.
    ///
    /// Each expression is visited at most once. Afterwards, the root is replaced by the canonical
    /// identifier of its (possibly changed) expression.
    pub fn preorder_rev(&mut self, root_id: &mut ExprId, v: &Visitor) -> (r: Vec<ExprId>)
        requires
            old(self).wf(),
            *old(root_id) < old(self).exprs@.len(),
            visitor_ok(*v, old(self)),
        ensures
            grows(final(self), old(self)),
            *final(root_id) < final(self).exprs@.len(),
            ids_valid(r@, final(self).exprs@.len()),
            r@.no_duplicates(),
            *v == Visitor::Nothing ==> *final(self) == *old(self),
            r@.len() > 0,
            r@[0] == *old(root_id),
            *final(root_id) == final(self).canon_id(*old(root_id)),
            *v == Visitor::Nothing && crate::expr::children(old(self).ev()[*old(root_id) as int]).len() == 0
                ==> r@ == seq![*old(root_id)],
            *v == Visitor::Nothing ==> forall|x: ExprId| #[trigger] r@.contains(x) <==> reaches(old(self).ev(), *old(root_id), x),
    {
        let mut order: Vec<ExprId> = Vec::new();
        let mut remaining: Vec<ExprId> = Vec::new();
        remaining.push(*root_id);
        let mut visited: HashSet<ExprId> = HashSet::new();
        let ghost leaf = *v == Visitor::Nothing && crate::expr::children(old(self).ev()[*old(root_id) as int]).len() == 0;
        let is_nothing = match v {
            Visitor::Nothing => true,
            _ => false,
        };
        let ghost n: nat = self.exprs@.len();
        let ghost ev0 = self.ev();
        let ghost root0 = *root_id;
        proof {
            assert(is_path(ev0, seq![root0]));
            assert(reaches(ev0, root0, root0));
        }
        while remaining.len() > 0
            invariant
                is_nothing == (*v == Visitor::Nothing),
                n == old(self).exprs@.len(),
                ev0 == old(self).ev(),
                root0 == *old(root_id),
                is_nothing ==> forall|x: ExprId, c: ExprId| visited@.contains(x) && #[trigger] crate::expr::children(ev0[x as int]).contains(c)
                    ==> visited@.contains(c) || remaining@.contains(c),
                is_nothing ==> forall|x: ExprId| #[trigger] visited@.contains(x) ==> reaches(ev0, root0, x),
                is_nothing ==> forall|k: int| 0 <= k < remaining@.len() ==> reaches(ev0, root0, #[trigger] remaining@[k]),
                grows(self, old(self)),
                visitor_ok(*v, self),
                ids_valid(remaining@, self.exprs@.len()),
                ids_valid(order@, self.exprs@.len()),
                order@.no_duplicates(),
                forall|x: ExprId| #[trigger] order@.contains(x) <==> visited@.contains(x),
                *root_id < self.exprs@.len(),
                *v == Visitor::Nothing ==> *self == *old(self),
                *root_id == *old(root_id),
                order@.len() == 0 ==> remaining@ == seq![*old(root_id)],
                order@.len() > 0 ==> order@[0] == *old(root_id),
                leaf == (*v == Visitor::Nothing && crate::expr::children(old(self).ev()[*old(root_id) as int]).len() == 0),
                leaf && order@.len() > 0 ==> remaining@.len() == 0 && order@ == seq![*old(root_id)],
            decreases unvisited((usize::MAX + 1) as nat, visited@), remaining@.len(),
        {
            let ghost order0 = order@;
            let ghost rem_before = remaining@;
            let ghost visited_before = visited@;
            let id = remaining.pop().unwrap();
            proof {
                assert(remaining@ == rem_before.drop_last());
                assert(id == rem_before.last());
                if is_nothing {
                    assert(reaches(ev0, root0, rem_before[rem_before.len() - 1]));
                }
            }
            proof {
                if order0.len() == 0 {
                    assert(id == *old(root_id));
                    if visited@.contains(id) {
                        assert(order@.contains(id));
                        let k = choose|k: int| 0 <= k < order@.len() && order@[k] == id;
                    }
                }
            }
            if !visited.contains(&id) {
                let ghost before = *self;
                self.visit(v, id);
                proof {
                    lemma_grows_trans(old(self), &before, self);
                }
                let children = self.exprs[id].children();
                proof {
                    assert(expr_valid(self.exprs@[id as int]@, self.exprs@.len(), self.vars@.len()));
                }
                let ghost old_rem = remaining@;
                crate::text::push_ids(&mut remaining, &children);
                assert forall|k: int| 0 <= k < remaining@.len() implies #[trigger] remaining@[k] < self.exprs@.len() by {
                    if k >= old_rem.len() {
                        assert(remaining@[k] == children@[k - old_rem.len()]);
                    } else {
                        assert(remaining@[k] == old_rem[k]);
                    }
                }
                let ghost old_visited = visited@;
                let ghost old_order = order@;
                assert(!old_order.contains(id));
                visited.insert(id);
                order.push(id);
                assert(visited@ == old_visited.insert(id));
                assert(order@ == old_order.push(id));
                assert forall|x: ExprId| #[trigger] order@.contains(x) <==> visited@.contains(x) by {
                    if order@.contains(x) {
                        if x != id {
                            let k = choose|k: int| 0 <= k < order@.len() && order@[k] == x;
                            assert(k < old_order.len());
                            assert(old_order[k] == x);
                            assert(old_order.contains(x));
                            assert(old_visited.contains(x));
                        }
                    }
                    if visited@.contains(x) {
                        if x == id {
                            assert(order@[old_order.len() as int] == id);
                        } else {
                            assert(old_visited.contains(x));
                            assert(old_order.contains(x));
                            let k = choose|k: int| 0 <= k < old_order.len() && old_order[k] == x;
                            assert(order@[k] == x);
                        }
                    }
                }
                assert(order@.no_duplicates()) by {
                    assert forall|a: int, b: int| 0 <= a < b < order@.len() implies order@[a] != order@[b] by {
                        if b == old_order.len() {
                            assert(old_order.contains(old_order[a]));
                        } else {
                            assert(old_order[a] != old_order[b]);
                        }
                    }
                }
                proof {
                    lemma_unvisited_insert((usize::MAX + 1) as nat, old_visited, id);
                    if is_nothing {
                        assert(id < n);
                        assert(children@ == crate::expr::children(ev0[id as int]));
                        let p = choose|p: Seq<ExprId>| #[trigger] is_path(ev0, p) && p[0] == root0 && p.last() == id;
                        assert forall|k: int| 0 <= k < remaining@.len() implies reaches(ev0, root0, #[trigger] remaining@[k]) by {
                            if k >= old_rem.len() {
                                let c = remaining@[k];
                                assert(c == children@[k - old_rem.len()]);
                                let q = p.push(c);
                                assert(is_path(ev0, q)) by {
                                    assert forall|t: int| 0 <= t < q.len() - 1 implies #[trigger] crate::expr::children(ev0[q[t] as int]).contains(q[t + 1]) by {
                                        if t == q.len() - 2 {
                                            assert(q[t] == id);
                                            assert(children@.contains(c));
                                        } else {
                                            assert(crate::expr::children(ev0[p[t] as int]).contains(p[t + 1]));
                                        }
                                    }
                                }
                                assert(q[0] == root0 && q.last() == c);
                            } else {
                                assert(remaining@[k] == rem_before[k]);
                            }
                        }
                        assert forall|x: ExprId, c: ExprId| visited@.contains(x) && #[trigger] crate::expr::children(ev0[x as int]).contains(c)
                            implies visited@.contains(c) || remaining@.contains(c) by {
                            if x == id {
                                let t = choose|t: int| 0 <= t < children@.len() && children@[t] == c;
                                assert(remaining@[old_rem.len() + t] == c);
                            } else if !old_visited.contains(c) && rem_before.contains(c) {
                                let t = choose|t: int| 0 <= t < rem_before.len() && rem_before[t] == c;
                                if t < rem_before.len() - 1 {
                                    assert(remaining@[t] == c);
                                }
                            }
                        }
                    }
                }
            } else {
                proof {
                    if is_nothing {
                        assert forall|x: ExprId, c: ExprId| visited@.contains(x) && #[trigger] crate::expr::children(ev0[x as int]).contains(c)
                            implies visited@.contains(c) || remaining@.contains(c) by {
                            if !visited@.contains(c) && rem_before.contains(c) {
                                let t = choose|t: int| 0 <= t < rem_before.len() && rem_before[t] == c;
                                if t < rem_before.len() - 1 {
                                    assert(remaining@[t] == c);
                                }
                            }
                        }
                        assert forall|k: int| 0 <= k < remaining@.len() implies reaches(ev0, root0, #[trigger] remaining@[k]) by {
                            assert(remaining@[k] == rem_before[k]);
                        }
                    }
                }
            }
        }
        proof {
            if is_nothing {
                assert(remaining@.len() == 0);
                assert(order@.contains(root0)) by {
                    assert(order@[0] == root0);
                }
                assert forall|x: ExprId| #[trigger] order@.contains(x) <==> reaches(ev0, root0, x) by {
                    if reaches(ev0, root0, x) {
                        let p = choose|p: Seq<ExprId>| #[trigger] is_path(ev0, p) && p[0] == root0 && p.last() == x;
                        lemma_closed_reaches(ev0, visited@, root0, p);
                    }
                }
            }
        }
        self.reset_root_expr(root_id);
        order
    }
}

/// The negations of a list of expressions, each stored as the simplification of `Not(g)`, have the
/// opposite truth values of the expressions.
proof fn lemma_negations_value(ev0: Seq<ExprV>, ev1: Seq<ExprV>, n_vars: nat, gs: Seq<ExprId>, negs: Seq<ExprId>,
    value: spec_fn(ExprId) -> bool, value2: spec_fn(ExprId) -> bool, assignment: spec_fn(VarId) -> bool)
    requires
        crate::meaning::all_valid(ev0, n_vars),
        extends(ev1, ev0),
        evaluates(ev0, value, assignment),
        evaluates(ev1, value2, assignment),
        agrees(value2, value, ev0.len()),
        ids_valid(gs, ev0.len()),
        negs.len() == gs.len(),
        ids_valid(negs, ev1.len()),
        forall|i: int| 0 <= i < negs.len() ==> simplified(ev0, ExprV::Not(gs[i]), ev1[#[trigger] negs[i] as int]),
    ensures
        forall|i: int| 0 <= i < negs.len() ==> #[trigger] value2(negs[i]) == !value(gs[i]),
        some_true(value2, negs) == !all_true(value, gs),
        all_true(value2, negs) == !some_true(value, gs),
{
    assert forall|i: int| 0 <= i < negs.len() implies #[trigger] value2(negs[i]) == !value(gs[i]) by {
        let out = ev1[negs[i] as int];
        assert(simplified(ev0, ExprV::Not(gs[i]), out));
        assert(gs[i] < ev0.len());
        crate::laws::law_simplification_preserves_meaning(ev0, n_vars, ExprV::Not(gs[i]), out, value, assignment);
        crate::meaning::lemma_simplified_valid(ev0, ExprV::Not(gs[i]), out, ev0.len(), n_vars);
        crate::meaning::lemma_node_value_agrees(out, value2, value, assignment, ev0.len(), n_vars);
        assert(value2(negs[i]) == node_value(ev1[negs[i] as int], value2, assignment));
    }
    if some_true(value2, negs) {
        let i = choose|i: int| 0 <= i < negs.len() && #[trigger] value2(negs[i]);
        assert(!value(gs[i]));
    } else {
        assert forall|i: int| 0 <= i < gs.len() implies #[trigger] value(gs[i]) by {
            assert(!value2(negs[i]));
        }
    }
    if all_true(value2, negs) {
        if some_true(value, gs) {
            let i = choose|i: int| 0 <= i < gs.len() && #[trigger] value(gs[i]);
            assert(value2(negs[i]));
        }
    } else {
        let i = choose|i: int| !(0 <= i < negs.len() ==> #[trigger] value2(negs[i]));
        assert(value(gs[i]));
    }
}

/// Replacing the negation `id` of a conjunction (or disjunction) `c` by the disjunction (or
/// conjunction) of the negations of its children keeps the meaning of all expressions.
proof fn lemma_de_morgan_keeps_meaning(a0: &Arena, amid: &Arena, a1: &Arena, id: ExprId, c: ExprId,
    gs: Seq<ExprId>, negs: Seq<ExprId>, is_and: bool, e: ExprV)
    requires
        a0.wf(),
        id < a0.ev().len(),
        a0.ev()[id as int] == ExprV::Not(c),
        c < a0.ev().len(),
        a0.ev()[c as int] == (if is_and { ExprV::And(gs) } else { ExprV::Or(gs) }),
        amid.wf(),
        extends(amid.ev(), a0.ev()),
        amid.vars == a0.vars,
        crate::meaning::new_below(amid.ev(), a0.ev().len(), a0.vars@.len()),
        negs.len() == gs.len(),
        ids_valid(negs, amid.exprs@.len()),
        forall|i: int| 0 <= i < negs.len() ==> simplified(a0.ev(), ExprV::Not(gs[i]), amid.ev()[#[trigger] negs[i] as int]),
        e == (if is_and { ExprV::Or(negs) } else { ExprV::And(negs) }),
        expr_valid(e, amid.exprs@.len(), amid.vars@.len()),
        amid.ev()[id as int] is Var ==> *a1 == *amid,
        !(amid.ev()[id as int] is Var) ==> exists|c: ExprV| #[trigger] amid.canonicalized(e, c)
            && expr_valid(c, amid.exprs@.len(), amid.vars@.len())
            && expr_valid(flattened(amid.ev(), c), amid.exprs@.len(), amid.vars@.len())
            && simplified(amid.ev(), flattened(amid.ev(), c), a1.ev()[id as int])
            && a1.ev() == amid.ev().update(id as int, a1.ev()[id as int]),
    ensures
        keeps_meaning(a1.ev(), a0.ev()),
{
    let n_vars = a0.vars@.len();
    crate::meaning::lemma_wf_all_valid(a0);
    assert(expr_valid(a0.ev()[c as int], a0.ev().len(), n_vars));
    assert forall|value: spec_fn(ExprId) -> bool, assignment: spec_fn(VarId) -> bool|
        #[trigger] evaluates(a0.ev(), value, assignment) implies exists|value2: spec_fn(ExprId) -> bool|
            #[trigger] evaluates(a1.ev(), value2, assignment) && agrees(value2, value, a0.ev().len()) by {
        let value2 = extended_value(amid.ev(), a0.ev().len(), value, assignment);
        crate::meaning::lemma_extended_value(a0.ev(), amid.ev(), n_vars, value, assignment);
        lemma_negations_value(a0.ev(), amid.ev(), n_vars, gs, negs, value, value2, assignment);
        assert(value(id) == node_value(a0.ev()[id as int], value, assignment));
        assert(value(c) == node_value(a0.ev()[c as int], value, assignment));
        assert(value2(id) == value(id));
        assert(node_value(e, value2, assignment) == value2(id));
        crate::meaning::lemma_restore_evaluates(amid, a1, id, e, value2, assignment);
    }
}

/// Re-storing the expression at `id` (as `Arena::set_expr` does, from `a0` to `a1`) keeps the
/// meaning of all expressions.
proof fn lemma_restore_keeps_meaning(a0: &Arena, a1: &Arena, id: ExprId)
    requires
        a0.wf(),
        id < a0.ev().len(),
        a0.ev()[id as int] is Var ==> *a1 == *a0,
        !(a0.ev()[id as int] is Var) ==> exists|c: ExprV| #[trigger] a0.canonicalized(a0.ev()[id as int], c)
            && expr_valid(c, a0.exprs@.len(), a0.vars@.len())
            && expr_valid(flattened(a0.ev(), c), a0.exprs@.len(), a0.vars@.len())
            && simplified(a0.ev(), flattened(a0.ev(), c), a1.ev()[id as int])
            && a1.ev() == a0.ev().update(id as int, a1.ev()[id as int]),
    ensures
        keeps_meaning(a1.ev(), a0.ev()),
{
    let e = a0.ev()[id as int];
    assert(expr_valid(a0.exprs@[id as int]@, a0.exprs@.len(), a0.vars@.len()));
    assert forall|value: spec_fn(ExprId) -> bool, assignment: spec_fn(VarId) -> bool|
        #[trigger] evaluates(a0.ev(), value, assignment) implies exists|value2: spec_fn(ExprId) -> bool|
            #[trigger] evaluates(a1.ev(), value2, assignment) && agrees(value2, value, a0.ev().len()) by {
        assert(value(id) == node_value(e, value, assignment));
        crate::meaning::lemma_restore_evaluates(a0, a1, id, e, value, assignment);
        assert(agrees(value, value, a0.ev().len()));
    }
}

/// The literals that an expression contributes to a clause: the children of a disjunction, or the expression.
pub open spec fn clause_piece(ev: Seq<ExprV>, x: ExprId) -> Seq<ExprId> {
    match ev[x as int] {
        ExprV::Or(lits) => lits,
        _ => seq![x],
    }
}

/// The alternatives that a child of a disjunction offers when the disjunction is distributed
/// over it: the children of a conjunction, or the child.
pub open spec fn child_options(ev: Seq<ExprV>, c: ExprId) -> Seq<ExprId> {
    match ev[c as int] {
        ExprV::And(gs) => gs,
        _ => seq![c],
    }
}

/// The lists of identifiers that the vectors `v` hold.
pub open spec fn id_lists(v: Seq<Vec<ExprId>>) -> Seq<Seq<ExprId>> {
    v.map_values(|c: Vec<ExprId>| c@)
}

/// The clauses `prev`, each (in order) extended by the piece of each option (in order).
pub open spec fn rows(prev: Seq<Seq<ExprId>>, ev: Seq<ExprV>, opts: Seq<ExprId>) -> Seq<Seq<ExprId>>
    decreases prev.len(),
{
    if prev.len() == 0 {
        Seq::empty()
    } else {
        rows(prev.drop_last(), ev, opts) + opts.map_values(|o: ExprId| prev.last() + clause_piece(ev, o))
    }
}

/// The clauses of the disjunction of the children `cs`, distributed over the conjunctive children:
/// starting from the empty clause, each child multiplies the clauses by its options.
pub open spec fn dist_clauses(ev: Seq<ExprV>, cs: Seq<ExprId>) -> Seq<Seq<ExprId>>
    decreases cs.len(),
{
    if cs.len() == 0 {
        seq![Seq::empty()]
    } else {
        rows(dist_clauses(ev, cs.drop_last()), ev, child_options(ev, cs.last()))
    }
}

/// Whether `mid` is `old` after storing the disjunctions of the clauses `cls`, each at `ids[k]`.
pub open spec fn clauses_stored(mid: &Arena, old: &Arena, cls: Seq<Seq<ExprId>>, ids: Seq<ExprId>) -> bool {
    &&& mid.wf()
    &&& extends(mid.ev(), old.ev())
    &&& mid.vars == old.vars
    &&& mid.new_vars == old.new_vars
    &&& mid.new_exprs == old.new_exprs
    &&& ids.len() == cls.len()
    &&& forall|k: int| 0 <= k < ids.len() ==> #[trigger] ids[k] < mid.ev().len()
        && simplified(mid.ev(), ExprV::Or(cls[k]), mid.ev()[ids[k] as int])
}

/// What the distributive visitor does to the expression `id`: a disjunction becomes the
/// conjunction of the disjunctions of its distributed clauses (see `dist_clauses`), a conjunction
/// is stored again, and any other expression is left as it is.
pub open spec fn dist_step(new: &Arena, old: &Arena, id: ExprId) -> bool {
    match old.ev()[id as int] {
        ExprV::And(_) => stored_at(new, old, id, old.ev()[id as int]),
        ExprV::Or(cs) => exists|mid: Arena, ids: Seq<ExprId>| #[trigger] clauses_stored(&mid, old, dist_clauses(old.ev(), cs), ids)
            && stored_at(new, &mid, id, ExprV::And(ids)),
        _ => *new == *old,
    }
}

/// Whether every clause in `cls` has a true literal.
pub open spec fn clauses_true(value: spec_fn(ExprId) -> bool, cls: Seq<Vec<ExprId>>) -> bool {
    forall|k: int| 0 <= k < cls.len() ==> #[trigger] some_true(value, cls[k]@)
}

/// Whether the pieces of the first `k` options each have a true literal.
pub open spec fn pieces_true(value: spec_fn(ExprId) -> bool, ev: Seq<ExprV>, opts: Seq<ExprId>, k: int) -> bool {
    forall|t: int| 0 <= t < k ==> #[trigger] some_true(value, clause_piece(ev, opts[t]))
}

/// Whether each of the first `j` clauses has a true literal, or the pieces of all options do.
pub open spec fn rows_true(value: spec_fn(ExprId) -> bool, cls: Seq<Vec<ExprId>>, j: int, ev: Seq<ExprV>, opts: Seq<ExprId>) -> bool {
    forall|r: int| 0 <= r < j ==> (#[trigger] some_true(value, cls[r]@) || pieces_true(value, ev, opts, opts.len() as int))
}

/// A clause made of two parts has a true literal if and only if one of the parts has.
proof fn lemma_some_true_concat(value: spec_fn(ExprId) -> bool, a: Seq<ExprId>, b: Seq<ExprId>)
    ensures
        some_true(value, a + b) == (some_true(value, a) || some_true(value, b)),
{
    let ab = a + b;
    if some_true(value, ab) {
        let i = choose|i: int| 0 <= i < ab.len() && #[trigger] value(ab[i]);
        if i < a.len() {
            assert(ab[i] == a[i]);
        } else {
            assert(ab[i] == b[i - a.len()]);
        }
    }
    if some_true(value, a) {
        let i = choose|i: int| 0 <= i < a.len() && #[trigger] value(a[i]);
        assert(ab[i] == a[i]);
    }
    if some_true(value, b) {
        let i = choose|i: int| 0 <= i < b.len() && #[trigger] value(b[i]);
        assert(ab[a.len() + i] == b[i]);
    }
}

proof fn lemma_push_clause(prev: Seq<Vec<ExprId>>, c: Vec<ExprId>, clause: Seq<ExprId>, piece: Seq<ExprId>)
    requires
        c@ == clause + piece,
    ensures
        forall|value: spec_fn(ExprId) -> bool| #[trigger] clauses_true(value, prev.push(c))
            == (clauses_true(value, prev) && (some_true(value, clause) || some_true(value, piece))),
{
    assert forall|value: spec_fn(ExprId) -> bool| #[trigger] clauses_true(value, prev.push(c))
        == (clauses_true(value, prev) && (some_true(value, clause) || some_true(value, piece))) by {
        let next = prev.push(c);
        lemma_some_true_concat(value, clause, piece);
        assert(next[prev.len() as int] == c);
        if clauses_true(value, next) {
            assert forall|k: int| 0 <= k < prev.len() implies #[trigger] some_true(value, prev[k]@) by {
                assert(next[k] == prev[k]);
                assert(some_true(value, next[k]@));
            }
            assert(some_true(value, next[prev.len() as int]@));
        }
        if clauses_true(value, prev) && some_true(value, c@) {
            assert forall|k: int| 0 <= k < next.len() implies #[trigger] some_true(value, next[k]@) by {
                if k < prev.len() {
                    assert(next[k] == prev[k]);
                }
            }
        }
    }
}

proof fn lemma_pieces_step(ev: Seq<ExprV>, opts: Seq<ExprId>, k: int)
    requires
        0 <= k < opts.len(),
    ensures
        forall|value: spec_fn(ExprId) -> bool| #[trigger] pieces_true(value, ev, opts, k + 1)
            == (pieces_true(value, ev, opts, k) && some_true(value, clause_piece(ev, opts[k]))),
{
}

proof fn lemma_rows_step(cls: Seq<Vec<ExprId>>, j: int, ev: Seq<ExprV>, opts: Seq<ExprId>)
    requires
        0 <= j < cls.len(),
    ensures
        forall|value: spec_fn(ExprId) -> bool| #[trigger] rows_true(value, cls, j + 1, ev, opts)
            == (rows_true(value, cls, j, ev, opts) && (some_true(value, cls[j]@) || pieces_true(value, ev, opts, opts.len() as int))),
{
}

proof fn lemma_rows_all(cls: Seq<Vec<ExprId>>, ev: Seq<ExprV>, opts: Seq<ExprId>)
    ensures
        forall|value: spec_fn(ExprId) -> bool| #[trigger] rows_true(value, cls, cls.len() as int, ev, opts)
            == (clauses_true(value, cls) || pieces_true(value, ev, opts, opts.len() as int)),
{
}

/// The literals an expression contributes to a clause have a true one if and only if the expression is true.
proof fn lemma_piece_value(ev: Seq<ExprV>, x: ExprId, value: spec_fn(ExprId) -> bool, assignment: spec_fn(VarId) -> bool)
    requires
        x < ev.len(),
        evaluates(ev, value, assignment),
    ensures
        some_true(value, clause_piece(ev, x)) == value(x),
{
    assert(value(x) == node_value(ev[x as int], value, assignment));
    match ev[x as int] {
        ExprV::Or(_) => {},
        _ => {
            let p = seq![x];
            assert(p[0] == x);
            if value(x) {
                assert(0 <= 0 < p.len() && value(p[0]));
            }
        },
    }
}

/// The options of a child all contribute a true literal if and only if the child is true.
proof fn lemma_options_value(ev: Seq<ExprV>, n_vars: nat, c: ExprId, value: spec_fn(ExprId) -> bool, assignment: spec_fn(VarId) -> bool)
    requires
        crate::meaning::all_valid(ev, n_vars),
        c < ev.len(),
        evaluates(ev, value, assignment),
    ensures
        pieces_true(value, ev, child_options(ev, c), child_options(ev, c).len() as int) == value(c),
{
    let opts = child_options(ev, c);
    assert(expr_valid(ev[c as int], ev.len(), n_vars));
    assert(value(c) == node_value(ev[c as int], value, assignment));
    assert forall|t: int| 0 <= t < opts.len() implies #[trigger] some_true(value, clause_piece(ev, opts[t])) == value(opts[t]) by {
        assert(opts[t] < ev.len());
        lemma_piece_value(ev, opts[t], value, assignment);
    }
    match ev[c as int] {
        ExprV::And(gs) => {
            if pieces_true(value, ev, opts, opts.len() as int) {
                assert forall|t: int| 0 <= t < gs.len() implies #[trigger] value(gs[t]) by {
                    assert(some_true(value, clause_piece(ev, opts[t])));
                }
            }
            if value(c) {
                assert forall|t: int| 0 <= t < opts.len() implies #[trigger] some_true(value, clause_piece(ev, opts[t])) by {
                    assert(value(gs[t]));
                }
            }
        },
        _ => {
            assert(opts[0] == c);
            if value(c) {
                assert forall|t: int| 0 <= t < opts.len() implies #[trigger] some_true(value, clause_piece(ev, opts[t])) by {
                    assert(t == 0);
                }
            }
            if pieces_true(value, ev, opts, opts.len() as int) {
                assert(some_true(value, clause_piece(ev, opts[0])));
            }
        },
    }
}

/// Some of the first `i + 1` expressions is true if and only if some of the first `i` is, or the next one.
proof fn lemma_some_true_take(value: spec_fn(ExprId) -> bool, cs: Seq<ExprId>, i: int)
    requires
        0 <= i < cs.len(),
    ensures
        some_true(value, cs.take(i + 1)) == (some_true(value, cs.take(i)) || value(cs[i])),
{
    let a = cs.take(i);
    let b = cs.take(i + 1);
    assert(b == a.push(cs[i]));
    if some_true(value, b) {
        let k = choose|k: int| 0 <= k < b.len() && #[trigger] value(b[k]);
        if k < i {
            assert(a[k] == b[k]);
        }
    }
    if some_true(value, a) {
        let k = choose|k: int| 0 <= k < a.len() && #[trigger] value(a[k]);
        assert(b[k] == a[k]);
    }
    if value(cs[i]) {
        assert(b[i] == cs[i]);
    }
}

/// A disjunction stored with `Arena::expr` (from `before` to `after`) is true if and only if one of
/// its literals is, and it only refers to expressions that existed at the start.
proof fn lemma_clause_node(before: &Arena, after: &Arena, ev: Seq<ExprV>, n_vars: nat, nc: Seq<ExprId>, c: ExprId)
    requires
        before.wf(),
        before.vars@.len() == n_vars,
        extends(before.ev(), ev),
        crate::meaning::all_valid(ev, n_vars),
        crate::meaning::new_below(before.ev(), ev.len(), n_vars),
        ids_valid(nc, ev.len()),
        after.wf(),
        extends(after.ev(), before.ev()),
        after.ev().len() <= before.ev().len() + 1,
        after.ev().len() > before.ev().len() ==> c == before.ev().len(),
        c < after.ev().len(),
        simplified(before.ev(), ExprV::Or(nc), after.ev()[c as int]),
    ensures
        crate::meaning::new_below(after.ev(), ev.len(), n_vars),
        forall|value: spec_fn(ExprId) -> bool, assignment: spec_fn(VarId) -> bool|
            #[trigger] evaluates(after.ev(), value, assignment) ==> value(c) == some_true(value, nc),
{
    let out = after.ev()[c as int];
    crate::meaning::lemma_wf_all_valid(before);
    assert forall|k: int| 0 <= k < ev.len() implies expr_valid(#[trigger] before.ev()[k], ev.len(), n_vars) by {
        assert(before.ev()[k] == ev[k]);
    }
    crate::meaning::lemma_simplified_valid(before.ev(), ExprV::Or(nc), out, ev.len(), n_vars);
    assert forall|x: int| ev.len() <= x < after.ev().len() implies expr_valid(#[trigger] after.ev()[x], ev.len(), n_vars) by {
        if x < before.ev().len() {
            assert(after.ev()[x] == before.ev()[x]);
        } else {
            assert(x == c);
        }
    }
    assert forall|value: spec_fn(ExprId) -> bool, assignment: spec_fn(VarId) -> bool|
        #[trigger] evaluates(after.ev(), value, assignment) implies value(c) == some_true(value, nc) by {
        crate::meaning::lemma_evaluates_prefix(after.ev(), before.ev(), value, assignment);
        crate::laws::law_simplification_preserves_meaning(before.ev(), n_vars, ExprV::Or(nc), out, value, assignment);
        assert(value(c) == node_value(out, value, assignment));
    }
}

/// Replacing a disjunction `id` of `cs` by the conjunction of clause expressions `ids`, where the
/// clauses `cls` are all true exactly when one of `cs` is, keeps the meaning of all expressions.
proof fn lemma_distribution_keeps_meaning(a0: &Arena, amid: &Arena, a1: &Arena, id: ExprId,
    cs: Seq<ExprId>, cls: Seq<Vec<ExprId>>, ids: Seq<ExprId>)
    requires
        a0.wf(),
        id < a0.ev().len(),
        a0.ev()[id as int] == ExprV::Or(cs),
        forall|value: spec_fn(ExprId) -> bool, assignment: spec_fn(VarId) -> bool|
            #[trigger] evaluates(a0.ev(), value, assignment) ==> clauses_true(value, cls) == some_true(value, cs),
        amid.wf(),
        extends(amid.ev(), a0.ev()),
        amid.vars == a0.vars,
        crate::meaning::new_below(amid.ev(), a0.ev().len(), a0.vars@.len()),
        ids.len() == cls.len(),
        ids_valid(ids, amid.exprs@.len()),
        forall|value: spec_fn(ExprId) -> bool, assignment: spec_fn(VarId) -> bool|
            #[trigger] evaluates(amid.ev(), value, assignment) ==>
            forall|k: int| 0 <= k < ids.len() ==> #[trigger] value(ids[k]) == some_true(value, cls[k]@),
        amid.ev()[id as int] is Var ==> *a1 == *amid,
        !(amid.ev()[id as int] is Var) ==> exists|c: ExprV| #[trigger] amid.canonicalized(ExprV::And(ids), c)
            && expr_valid(c, amid.exprs@.len(), amid.vars@.len())
            && expr_valid(flattened(amid.ev(), c), amid.exprs@.len(), amid.vars@.len())
            && simplified(amid.ev(), flattened(amid.ev(), c), a1.ev()[id as int])
            && a1.ev() == amid.ev().update(id as int, a1.ev()[id as int]),
    ensures
        keeps_meaning(a1.ev(), a0.ev()),
{
    let n_vars = a0.vars@.len();
    crate::meaning::lemma_wf_all_valid(a0);
    assert forall|value: spec_fn(ExprId) -> bool, assignment: spec_fn(VarId) -> bool|
        #[trigger] evaluates(a0.ev(), value, assignment) implies exists|value2: spec_fn(ExprId) -> bool|
            #[trigger] evaluates(a1.ev(), value2, assignment) && agrees(value2, value, a0.ev().len()) by {
        let value2 = extended_value(amid.ev(), a0.ev().len(), value, assignment);
        crate::meaning::lemma_extended_value(a0.ev(), amid.ev(), n_vars, value, assignment);
        crate::meaning::lemma_evaluates_prefix(amid.ev(), a0.ev(), value2, assignment);
        assert(clauses_true(value2, cls) == some_true(value2, cs));
        assert(value2(id) == node_value(a0.ev()[id as int], value2, assignment));
        assert(all_true(value2, ids) == clauses_true(value2, cls)) by {
            assert forall|k: int| 0 <= k < ids.len() implies #[trigger] value2(ids[k]) == some_true(value2, cls[k]@) by {}
            if all_true(value2, ids) {
                assert forall|k: int| 0 <= k < cls.len() implies #[trigger] some_true(value2, cls[k]@) by {
                    assert(value2(ids[k]));
                }
            }
            if clauses_true(value2, cls) {
                assert forall|k: int| 0 <= k < ids.len() implies #[trigger] value2(ids[k]) by {
                    assert(some_true(value2, cls[k]@));
                }
            }
        }
        assert(node_value(ExprV::And(ids), value2, assignment) == value2(id));
        assert(expr_valid(ExprV::And(ids), amid.exprs@.len(), amid.vars@.len()));
        crate::meaning::lemma_restore_evaluates(amid, a1, id, ExprV::And(ids), value2, assignment);
    }
}

} // verus!

//! Feature-model formulas: views onto an arena.

use std::collections::HashSet;
use vstd::prelude::*;
use crate::arena::{Arena, FORMAT_DEPTH, expr_valid, extends, format_spec, ids_valid, simplified};
use crate::expr::{Expr, ExprId, ExprV};
use crate::file::File;
use crate::meaning::{agree_on, agree_on_set, agrees, evaluates, keeps_meaning, same_meaning};
use crate::var::{Var, VarId, VarV};
use crate::varset;
use crate::visit::{Visitor, grows, lemma_grows_trans};

verus! {

broadcast use vstd::std_specs::hash::group_hash_axioms;

/// A feature-model formula.
///
/// A formula is a view onto part of an arena: the set of its variables (its universe of solutions)
/// and the root expression of its syntax tree (constraining those variables).
#[derive(Debug)]
pub struct Formula {
    /// The identifiers of the variables of this formula.
    pub sub_var_ids: HashSet<VarId>,
    /// The identifier of the root expression of this formula.
    pub root_id: ExprId,
    /// The file this formula was parsed from, if any.
    pub file: Option<File>,
}

/// A formula paired with the arena it refers to.
pub struct FormulaRef<'a> {
    pub arena: &'a Arena,
    pub formula: &'a Formula,
}

/// The variable identifiers `1..n` (in ascending order) that satisfy a predicate.
pub open spec fn selected_ids(pred: spec_fn(VarId) -> bool, n: int) -> Seq<VarId>
    decreases n,
{
    if n <= 1 {
        Seq::empty()
    } else {
        selected_ids(pred, n - 1) + if pred((n - 1) as VarId) { seq![(n - 1) as VarId] } else { Seq::empty() }
    }
}

/// The identifiers `1..n` of all variables other than the unusable variable 0.
pub open spec fn all_var_ids(n: int) -> Set<VarId> {
    Set::new(|v: VarId| 0 < v < n)
}

impl Clone for Formula {
    fn clone(&self) -> (r: Self)
        ensures
            r.sub_var_ids@ == self.sub_var_ids@,
            r.root_id == self.root_id,
            r.file is Some == self.file is Some,
    {
        Formula {
            sub_var_ids: varset::copy_set(&self.sub_var_ids),
            root_id: self.root_id,
            file: match &self.file {
                Some(f) => Some(f.clone()),
                None => None,
            },
        }
    }
}

impl Arena {
    /// Returns the identifiers of all variables of this arena (other than the unusable variable 0).
    pub fn var_ids(&self) -> (r: HashSet<VarId>)
        requires
            self.wf(),
        ensures
            r@ == all_var_ids(self.vars@.len() as int),
    {
        let mut r: HashSet<VarId> = HashSet::new();
        let mut i: usize = 1;
        while i < self.vars.len()
            invariant
                self.wf(),
                1 <= i <= self.vars@.len(),
                r@ == all_var_ids(i as int),
            decreases self.vars@.len() - i,
        {
            r.insert(i as VarId);
            i = i + 1;
            assert(r@ =~= all_var_ids(i as int));
        }
        r
    }

    /// Returns the variables (with their identifiers, in ascending order) whose membership in `set`
    /// equals `member` and which are not in `exclude`.
    pub fn filter_vars(&self, set: &HashSet<VarId>, member: bool, exclude: &HashSet<VarId>) -> (r: Vec<(VarId, Var)>)
        requires
            self.wf(),
        ensures
            r@.map_values(|p: (VarId, Var)| p.0) == selected_ids(|v: VarId| set@.contains(v) == member && !exclude@.contains(v), self.vars@.len() as int),
            forall|i: int| 0 <= i < r@.len() ==> 0 < (#[trigger] r@[i]).0 < self.vars@.len() && r@[i].1@ == self.vv()[r@[i].0 as int],
    {
        let ghost pred = |v: VarId| set@.contains(v) == member && !exclude@.contains(v);
        let mut r: Vec<(VarId, Var)> = Vec::new();
        let mut i: usize = 1;
        while i < self.vars.len()
            invariant
                self.wf(),
                1 <= i <= self.vars@.len(),
                pred == (|v: VarId| set@.contains(v) == member && !exclude@.contains(v)),
                r@.map_values(|p: (VarId, Var)| p.0) == selected_ids(pred, i as int),
                forall|k: int| 0 <= k < r@.len() ==> 0 < (#[trigger] r@[k]).0 < self.vars@.len() && r@[k].1@ == self.vv()[r@[k].0 as int],
            decreases self.vars@.len() - i,
        {
            let v = i as VarId;
            let ghost before = r@;
            if set.contains(&v) == member && !exclude.contains(&v) {
                r.push((v, self.vars[i].clone()));
                assert(r@.map_values(|p: (VarId, Var)| p.0) =~= before.map_values(|p: (VarId, Var)| p.0) + seq![v]);
            } else {
                assert(r@.map_values(|p: (VarId, Var)| p.0) =~= before.map_values(|p: (VarId, Var)| p.0) + Seq::<VarId>::empty());
            }
            i = i + 1;
        }
        r
    }
}

impl Formula {
    /// Whether this formula refers to existing expressions and variables of an arena.
    pub open spec fn valid_in(&self, arena: &Arena) -> bool {
        &&& self.root_id < arena.exprs@.len()
        &&& forall|v: VarId| #[trigger] self.sub_var_ids@.contains(v) ==> 0 < v < arena.vars@.len()
    }

    /// Creates a new formula.
    pub fn new(sub_var_ids: HashSet<VarId>, root_id: ExprId, file: Option<File>) -> (r: Self)
        ensures
            r.sub_var_ids@ == sub_var_ids@,
            r.root_id == root_id,
            r.file is Some == file is Some,
    {
        Formula { sub_var_ids, root_id, file }
    }

    /// Returns this formula paired with its arena.
    pub fn as_ref<'a>(&'a self, arena: &'a Arena) -> (r: FormulaRef<'a>)
        ensures
            r.arena == arena,
            r.formula == self,
    {
        FormulaRef { arena, formula: self }
    }

    /// Returns the variables of this formula with their identifiers, in ascending order of identifiers.
    pub fn sub_vars(&self, arena: &Arena) -> (r: Vec<(VarId, Var)>)
        requires
            arena.wf(),
        ensures
            r@.map_values(|p: (VarId, Var)| p.0) == selected_ids(|v: VarId| self.sub_var_ids@.contains(v), arena.vars@.len() as int),
            forall|i: int| 0 <= i < r@.len() ==> 0 < (#[trigger] r@[i]).0 < arena.vars@.len() && r@[i].1@ == arena.vv()[r@[i].0 as int],
    {
        let empty: HashSet<VarId> = HashSet::new();
        let r = arena.filter_vars(&self.sub_var_ids, true, &empty);
        assert((|v: VarId| self.sub_var_ids@.contains(v) == true && !empty@.contains(v)) =~= (|v: VarId| self.sub_var_ids@.contains(v)));
        r
    }

    /// Returns the variable identifiers of this formula that are also in another formula.
    pub fn common_vars(&self, other: &Formula) -> (r: HashSet<VarId>)
        ensures
            r@ == self.sub_var_ids@.intersect(other.sub_var_ids@),
    {
        varset::intersection(&self.sub_var_ids, &other.sub_var_ids)
    }

    /// Returns the variable identifiers that are in this formula or in another formula.
    pub fn all_vars(&self, other: &Formula) -> (r: HashSet<VarId>)
        ensures
            r@ == self.sub_var_ids@.union(other.sub_var_ids@),
    {
        varset::union(&self.sub_var_ids, &other.sub_var_ids)
    }

    /// Returns the variable identifiers of this formula that are not in another formula.
    pub fn except_vars(&self, other: &Formula) -> (r: HashSet<VarId>)
        ensures
            r@ == self.sub_var_ids@.difference(other.sub_var_ids@),
    {
        varset::difference(&self.sub_var_ids, &other.sub_var_ids)
    }

    /// Returns the variable identifiers common to this and another formula, only in this one, and only in the other.
    pub fn diff_vars(&self, other: &Formula) -> (r: (HashSet<VarId>, HashSet<VarId>, HashSet<VarId>))
        ensures
            r.0@ == self.sub_var_ids@.intersect(other.sub_var_ids@),
            r.1@ == self.sub_var_ids@.difference(other.sub_var_ids@),
            r.2@ == other.sub_var_ids@.difference(self.sub_var_ids@),
    {
        (self.common_vars(other), self.except_vars(other), other.except_vars(self))
    }
}

impl<'a> FormulaRef<'a> {
    /// Returns the printed form of the formula's root expression, with auxiliary variables
    /// printed by their number only (see `format_spec`).
    pub fn to_string(&self) -> (r: String)
        requires
            self.arena.wf(),
            self.formula.root_id < self.arena.exprs@.len(),
        ensures
            r@ == format_spec(self.arena.ev(), self.arena.vv(), Seq::empty(), self.formula.root_id, FORMAT_DEPTH as nat),
    {
        let aux: Vec<char> = Vec::new();
        let r = self.to_string_with(&aux);
        assert(aux@ =~= Seq::<char>::empty());
        r
    }

    /// Returns the printed form of the formula's root expression, with auxiliary variables
    /// printed by the prefix `aux` and their number (see `format_spec`).
    pub fn to_string_with(&self, aux: &Vec<char>) -> (r: String)
        requires
            self.arena.wf(),
            self.formula.root_id < self.arena.exprs@.len(),
        ensures
            r@ == format_spec(self.arena.ev(), self.arena.vv(), aux@, self.formula.root_id, FORMAT_DEPTH as nat),
    {
        let mut out: Vec<char> = Vec::new();
        self.arena.format_expr(aux, self.formula.root_id, FORMAT_DEPTH, &mut out);
        assert(out@ =~= format_spec(self.arena.ev(), self.arena.vv(), aux@, self.formula.root_id, FORMAT_DEPTH as nat));
        crate::text::string_of(&out)
    }
}


/// How a formula may change under a transformation: it stays valid in the (grown) arena and keeps its variables.
pub open spec fn transformed(new_f: &Formula, old_f: &Formula, new_a: &Arena, old_a: &Arena) -> bool {
    &&& grows(new_a, old_a)
    &&& new_f.valid_in(new_a)
    &&& new_f.sub_var_ids@ == old_f.sub_var_ids@
    &&& new_f.file is Some == old_f.file is Some
}

impl Formula {
    /// Transforms this formula into canonical form.
    ///
    /// Every sub-expression is re-stored bottom-up, which canonicalizes its children (structural sharing),
    /// flattens nested conjunctions and disjunctions, and simplifies it.
    pub fn to_canon(&mut self, arena: &mut Arena)
        requires
            old(arena).wf(),
            old(self).valid_in(old(arena)),
        ensures
            transformed(final(self), old(self), final(arena), old(arena)),
            keeps_meaning(final(arena).ev(), old(arena).ev()),
            same_meaning(final(arena).ev(), final(self).root_id, old(arena).ev(), old(self).root_id),
            final(arena).vars == old(arena).vars,
            final(self).root_id == final(arena).canon_id(old(self).root_id),
            crate::expr::children(old(arena).ev()[old(self).root_id as int]).len() == 0
                ==> crate::visit::stored_at(final(arena), old(arena), old(self).root_id, old(arena).ev()[old(self).root_id as int]),
            exists|arenas: Seq<Arena>, steps: Seq<(Visitor, ExprId)>| #[trigger] crate::visit::visit_trace(arenas, steps)
                && arenas[0] == *old(arena) && arenas.last() == *final(arena)
                && (forall|k: int| 0 <= k < steps.len() ==> #[trigger] steps[k].0 == Visitor::Nothing || steps[k].0 == Visitor::Canon)
                && (forall|x: ExprId| crate::visit::reaches(old(arena).ev(), old(self).root_id, x) ==> #[trigger] steps.contains((Visitor::Canon, x)))
                && forall|k: int| 0 <= k < steps.len() ==> crate::visit::reaches(old(arena).ev(), old(self).root_id, #[trigger] steps[k].1),
    {
        arena.postorder_rev(&mut self.root_id, &Visitor::Canon);
        proof {
            crate::meaning::lemma_same_meaning(arena.ev(), self.root_id, old(arena).ev(), old(self).root_id);
        }
    }

    /// Transforms this formula into negation normal form by applying De Morgan's laws.
    ///
    /// Negations are pushed towards the variables top-down (each expression is entered with the
    /// negation-normal-form visitor, then its children are traversed), and expressions are
    /// re-stored bottom-up. The contract states this traversal and that the meaning is kept; it
    /// does not state the shape of the result, which an arena whose expressions were changed in
    /// place (a negation of a negation of a negated conjunction) can leave with a negated conjunction.
    pub fn to_nnf(&mut self, arena: &mut Arena)
        requires
            old(arena).wf(),
            old(self).valid_in(old(arena)),
        ensures
            transformed(final(self), old(self), final(arena), old(arena)),
            keeps_meaning(final(arena).ev(), old(arena).ev()),
            same_meaning(final(arena).ev(), final(self).root_id, old(arena).ev(), old(self).root_id),
            final(arena).vars == old(arena).vars,
            final(self).root_id == final(arena).canon_id(old(self).root_id),
            crate::expr::children(old(arena).ev()[old(self).root_id as int]).len() == 0
                ==> crate::visit::stored_at(final(arena), old(arena), old(self).root_id, old(arena).ev()[old(self).root_id as int]),
            exists|arenas: Seq<Arena>, steps: Seq<(Visitor, ExprId)>| #[trigger] crate::visit::visit_trace(arenas, steps)
                && arenas[0] == *old(arena) && arenas.last() == *final(arena)
                && (forall|k: int| 0 <= k < steps.len() ==> #[trigger] steps[k].0 == Visitor::Nnf || steps[k].0 == Visitor::Canon)
                && steps.contains((Visitor::Canon, old(self).root_id))
                && (crate::expr::children(old(arena).ev()[old(self).root_id as int]).len() > 0 ==> steps.contains((Visitor::Nnf, old(self).root_id)))
                && forall|x: ExprId| #[trigger] steps.contains((Visitor::Nnf, x)) ==> steps.contains((Visitor::Canon, x)),
            exists|arenas: Seq<Arena>, steps: Seq<(Visitor, ExprId)>, entered: Seq<bool>|
                #[trigger] crate::visit::traversal_done(arenas, steps, entered, *old(arena), *final(arena), old(self).root_id,
                    Visitor::Nnf, Visitor::Canon),
    {
        arena.prepostorder_rev(&mut self.root_id, &Visitor::Nnf, &Visitor::Canon);
        proof {
            crate::meaning::lemma_same_meaning(arena.ev(), self.root_id, old(arena).ev(), old(self).root_id);
        }
    }

    /// Transforms this formula into conjunctive normal form by applying distributivity laws.
    ///
    /// Negations are pushed towards the variables top-down, and disjunctions are distributed over
    /// conjunctions bottom-up. The contract states this traversal and that the meaning is kept,
    /// not the shape of the result (see `to_nnf`).
    pub fn to_cnf_dist(&mut self, arena: &mut Arena)
        requires
            old(arena).wf(),
            old(self).valid_in(old(arena)),
        ensures
            transformed(final(self), old(self), final(arena), old(arena)),
            keeps_meaning(final(arena).ev(), old(arena).ev()),
            same_meaning(final(arena).ev(), final(self).root_id, old(arena).ev(), old(self).root_id),
            final(arena).vars == old(arena).vars,
            final(self).root_id == final(arena).canon_id(old(self).root_id),
            crate::expr::children(old(arena).ev()[old(self).root_id as int]).len() == 0
                ==> crate::visit::dist_step(final(arena), old(arena), old(self).root_id),
            exists|arenas: Seq<Arena>, steps: Seq<(Visitor, ExprId)>| #[trigger] crate::visit::visit_trace(arenas, steps)
                && arenas[0] == *old(arena) && arenas.last() == *final(arena)
                && (forall|k: int| 0 <= k < steps.len() ==> #[trigger] steps[k].0 == Visitor::Nnf || steps[k].0 == Visitor::CnfDist)
                && steps.contains((Visitor::CnfDist, old(self).root_id))
                && (crate::expr::children(old(arena).ev()[old(self).root_id as int]).len() > 0 ==> steps.contains((Visitor::Nnf, old(self).root_id)))
                && forall|x: ExprId| #[trigger] steps.contains((Visitor::Nnf, x)) ==> steps.contains((Visitor::CnfDist, x)),
            exists|arenas: Seq<Arena>, steps: Seq<(Visitor, ExprId)>, entered: Seq<bool>|
                #[trigger] crate::visit::traversal_done(arenas, steps, entered, *old(arena), *final(arena), old(self).root_id,
                    Visitor::Nnf, Visitor::CnfDist),
    {
        arena.prepostorder_rev(&mut self.root_id, &Visitor::Nnf, &Visitor::CnfDist);
        proof {
            crate::meaning::lemma_same_meaning(arena.ev(), self.root_id, old(arena).ev(), old(self).root_id);
        }
    }

    /// Transforms this formula into conjunctive normal form by introducing auxiliary variables.
    ///
    /// Every conjunction and disjunction below the root is abbreviated with a new auxiliary variable,
    /// which is added to the variables of this formula; the new root is the conjunction of all defining
    /// clauses (and, if `assume_root`, of the abbreviated root).
    ///
    /// Where the arena has no cycles and no duplicate expressions (as an arena built by parsing and
    /// `Arena::expr` has), the models correspond: every model of the result is a model of the
    /// given expressions (and root), every model of those extends to a model of the result, and
    /// two models of the result that agree on the given variables agree on all variables.
    ///
    /// Where the arena keeps room for the auxiliary variables (`aux_room` of the result), every
    /// conjunction and disjunction that the root reaches becomes its auxiliary variable, so exactly
    /// one auxiliary variable is added per such expression (per sub-expression, where no expression
    /// occurs twice). That the defining clauses are clauses, and thus the result is in conjunctive
    /// normal form, is not stated.
    pub fn to_cnf_tseitin(&mut self, assume_root: bool, arena: &mut Arena)
        requires
            old(arena).wf(),
            old(self).valid_in(old(arena)),
            old(arena).new_vars is None,
            old(arena).new_exprs is None,
        ensures
            final(arena).wf(),
            final(arena).ev().len() >= old(arena).ev().len(),
            extends(final(arena).vv(), old(arena).vv()),
            final(arena).new_vars is None,
            final(arena).new_exprs is None,
            final(self).valid_in(final(arena)),
            old(self).sub_var_ids@.subset_of(final(self).sub_var_ids@),
            crate::tseitin::tseitin_hyp(old(arena).ev()) ==> forall|value: spec_fn(ExprId) -> bool, assignment: spec_fn(VarId) -> bool|
                #[trigger] evaluates(final(arena).ev(), value, assignment) && value(final(self).root_id)
                ==> evaluates(old(arena).ev(), value, assignment) && (assume_root ==> value(old(self).root_id)),
            crate::tseitin::tseitin_hyp(old(arena).ev()) ==> forall|value1: spec_fn(ExprId) -> bool, value2: spec_fn(ExprId) -> bool,
                assignment1: spec_fn(VarId) -> bool, assignment2: spec_fn(VarId) -> bool|
                #[trigger] evaluates(final(arena).ev(), value1, assignment1) && #[trigger] evaluates(final(arena).ev(), value2, assignment2)
                && value1(final(self).root_id) && value2(final(self).root_id)
                && agree_on(assignment1, assignment2, old(arena).vars@.len())
                ==> agree_on_set(assignment1, assignment2, final(self).sub_var_ids@),
            crate::tseitin::tseitin_hyp(old(arena).ev()) ==> forall|value: spec_fn(ExprId) -> bool, assignment: spec_fn(VarId) -> bool|
                #[trigger] evaluates(old(arena).ev(), value, assignment) && (assume_root ==> value(old(self).root_id))
                ==> exists|value2: spec_fn(ExprId) -> bool, assignment2: spec_fn(VarId) -> bool|
                    #[trigger] evaluates(final(arena).ev(), value2, assignment2) && value2(final(self).root_id)
                    && agree_on(assignment2, assignment, old(arena).vars@.len())
                    && agrees(value2, value, old(arena).ev().len()),
            crate::tseitin::tseitin_hyp(old(arena).ev()) ==> crate::tseitin::tseitin_hyp(final(arena).ev()),
            exists|arenas: Seq<Arena>, steps: Seq<(Visitor, ExprId)>| #[trigger] crate::visit::visit_trace(arenas, steps)
                && arenas[0].ev() == old(arena).ev() && arenas[0].vars == old(arena).vars
                && extends(final(arena).ev(), arenas.last().ev())
                && (forall|k: int| 0 <= k < steps.len() ==> #[trigger] steps[k].0 == Visitor::Nothing || steps[k].0 == Visitor::Tseitin)
                && (forall|x: ExprId| crate::visit::reaches(old(arena).ev(), old(self).root_id, x) ==> #[trigger] steps.contains((Visitor::Tseitin, x)))
                && forall|k: int| 0 <= k < steps.len() ==> crate::visit::reaches(old(arena).ev(), old(self).root_id, #[trigger] steps[k].1),
            forall|v: VarId| #[trigger] final(self).sub_var_ids@.contains(v) && !old(self).sub_var_ids@.contains(v)
                ==> old(arena).vars@.len() <= v < final(arena).vars@.len() && final(arena).vv()[v as int] is Aux,
            forall|v: VarId| old(arena).vars@.len() <= v < final(arena).vars@.len() ==> #[trigger] final(self).sub_var_ids@.contains(v),
            crate::visit::aux_room(final(arena)) ==> forall|x: ExprId|
                #[trigger] crate::tseitin::junctions_below(old(arena).ev(), old(self).root_id).contains(x) ==> final(arena).ev()[x as int] is Var,
            crate::visit::aux_room(final(arena)) ==> final(arena).vars@.len()
                == old(arena).vars@.len() + crate::tseitin::junctions_below(old(arena).ev(), old(self).root_id).len(),
    {
        arena.new_vars = Some(Vec::new());
        arena.new_exprs = Some(Vec::new());
        proof {
            crate::arena::lemma_wf_index_frame(old(arena), arena);
        }
        let ghost a1 = *arena;
        let ghost root0 = self.root_id;
        arena.postorder_rev(&mut self.root_id, &Visitor::Tseitin);
        let ghost a2 = *arena;
        let ghost root_t = self.root_id;
        let ghost (trace_arenas, trace_steps) = choose|arenas: Seq<Arena>, steps: Seq<(Visitor, ExprId)>| #[trigger] crate::visit::visit_trace(arenas, steps)
            && arenas[0] == a1 && arenas.last() == a2
            && (forall|k: int| 0 <= k < steps.len() ==> #[trigger] steps[k].0 == Visitor::Nothing || steps[k].0 == Visitor::Tseitin)
            && (forall|x: ExprId| crate::visit::reaches(a1.ev(), root0, x) ==> #[trigger] steps.contains((Visitor::Tseitin, x)))
            && forall|k: int| 0 <= k < steps.len() ==> crate::visit::reaches(a1.ev(), root0, #[trigger] steps[k].1);
        let new_vars = arena.new_vars.take().unwrap();
        let mut new_exprs = arena.new_exprs.take().unwrap();
        proof {
            crate::arena::lemma_wf_index_frame(&a2, arena);
            assert(crate::arena::var_ids_valid(new_vars@, arena.vars@.len()));
        }
        let ghost old_sub = self.sub_var_ids@;
        let ghost nv = new_vars@;
        varset::insert_all(&mut self.sub_var_ids, &new_vars);
        proof {
            assert forall|v: VarId| #[trigger] self.sub_var_ids@.contains(v) implies 0 < v < arena.vars@.len() by {
                if !old_sub.contains(v) {
                    assert(new_vars@.to_set().contains(v));
                    let k = choose|k: int| 0 <= k < new_vars@.len() && new_vars@[k] == v;
                }
            }
        }
        let ghost ne = new_exprs@;
        if assume_root {
            new_exprs.push(self.root_id);
        }
        let ghost a3 = *arena;
        let ghost ne2 = new_exprs@;
        let root = arena.expr(Expr::And(new_exprs));
        self.root_id = root;
        proof {
            assert(a1.ev() == old(arena).ev());
            assert(a3.ev() == a2.ev());
            assert forall|v: VarId| #[trigger] self.sub_var_ids@.contains(v) && !old(self).sub_var_ids@.contains(v)
                implies old(arena).vars@.len() <= v < arena.vars@.len() && arena.vv()[v as int] is Aux by {
                assert(nv.to_set().contains(v));
                let k = choose|k: int| 0 <= k < nv.len() && nv[k] == v;
                assert(a2.new_vars->0@[k] == v);
                assert(arena.vv() == a2.vv());
            }
            assert forall|v: VarId| old(arena).vars@.len() <= v < arena.vars@.len() implies #[trigger] self.sub_var_ids@.contains(v) by {
                assert(a2.new_vars->0@.contains(v));
                let k = choose|k: int| 0 <= k < nv.len() && nv[k] == v;
                assert(nv.to_set().contains(v));
            }
            if crate::tseitin::tseitin_hyp(old(arena).ev()) {
                assert(a1.ev() == old(arena).ev());
                assert(a1.vars == old(arena).vars);
                assert(a3.ev() == a2.ev());
                assert(ne == a2.new_exprs->0@);
                assert(nv == a2.new_vars->0@);
                crate::tseitin::lemma_stored_elim(arena, &a3, ExprV::And(ne2), root);
                assert(crate::tseitin::tseitin_outcome(&a1, &a2, arena, root0, root_t, root, ne2, assume_root));
                crate::tseitin::lemma_tseitin_sound(&a1, &a2, arena, root0, root_t, root, ne2, assume_root);
                crate::tseitin::lemma_tseitin_complete(&a1, &a2, arena, root0, root_t, root, ne2, assume_root);
                assert forall|x: VarId| #[trigger] self.sub_var_ids@.contains(x) implies (0 <= x < a1.vars@.len() || nv.contains(x)) by {
                    if !old_sub.contains(x) {
                        assert(nv.to_set().contains(x));
                    }
                }
                crate::tseitin::lemma_tseitin_unique(&a1, &a2, arena, root0, root_t, root, ne2, assume_root, self.sub_var_ids@);
                assert(crate::tseitin::tseitin_hyp(a3.ev()));
            }
            if crate::visit::aux_room(arena) {
                assert(arena.vars == a2.vars && arena.var_aux_id == a2.var_aux_id);
                assert(trace_arenas.last() == a2);
                crate::tseitin::lemma_trace_abbreviates_all(trace_arenas, trace_steps, root0);
                assert(a1.ev() == old(arena).ev());
                assert forall|x: ExprId| #[trigger] crate::tseitin::junctions_below(old(arena).ev(), old(self).root_id).contains(x)
                    implies arena.ev()[x as int] is Var by {
                    assert(crate::tseitin::junctions_below(a1.ev(), root0).contains(x));
                    assert(arena.ev()[x as int] == a2.ev()[x as int]);
                }
            }
        }
    }
}


/// Whether the expression `id` mentions a variable in `vars`, looking down to a nesting depth of `fuel`.
pub open spec fn mentions(ev: Seq<ExprV>, id: ExprId, vars: Set<VarId>, fuel: nat) -> bool
    decreases fuel, 0nat,
{
    if fuel == 0 {
        false
    } else {
        match ev[id as int] {
            ExprV::Var(v) => vars.contains(v),
            ExprV::Not(c) => mentions_any(ev, seq![c], vars, (fuel - 1) as nat),
            ExprV::And(cs) => mentions_any(ev, cs, vars, (fuel - 1) as nat),
            ExprV::Or(cs) => mentions_any(ev, cs, vars, (fuel - 1) as nat),
        }
    }
}

/// Whether one of the expressions `cs` mentions a variable in `vars` (see `mentions`).
pub open spec fn mentions_any(ev: Seq<ExprV>, cs: Seq<ExprId>, vars: Set<VarId>, fuel: nat) -> bool
    decreases fuel, cs.len(),
{
    if cs.len() == 0 {
        false
    } else {
        mentions_any(ev, cs.drop_last(), vars, fuel) || mentions(ev, cs.last(), vars, fuel)
    }
}

/// The identifiers among `cs` of the expressions that mention no variable in `vars`, in order.
pub open spec fn unmentioning(ev: Seq<ExprV>, cs: Seq<ExprId>, vars: Set<VarId>) -> Seq<ExprId>
    decreases cs.len(),
{
    if cs.len() == 0 {
        Seq::empty()
    } else {
        unmentioning(ev, cs.drop_last(), vars) + if mentions(ev, cs.last(), vars, FORMAT_DEPTH as nat) {
            Seq::empty()
        } else {
            seq![cs.last()]
        }
    }
}

/// The constraints that mention none of the variables are among the constraints.
proof fn lemma_unmentioning_subset(ev: Seq<ExprV>, cs: Seq<ExprId>, vars: Set<VarId>)
    ensures
        forall|k: int| 0 <= k < unmentioning(ev, cs, vars).len() ==>
            exists|j: int| 0 <= j < cs.len() && cs[j] == #[trigger] unmentioning(ev, cs, vars)[k],
    decreases cs.len(),
{
    if cs.len() > 0 {
        let init = cs.drop_last();
        lemma_unmentioning_subset(ev, init, vars);
        let u = unmentioning(ev, cs, vars);
        let ui = unmentioning(ev, init, vars);
        assert forall|k: int| 0 <= k < u.len() implies exists|j: int| 0 <= j < cs.len() && cs[j] == #[trigger] u[k] by {
            if k < ui.len() {
                assert(u[k] == ui[k]);
                let j = choose|j: int| 0 <= j < init.len() && init[j] == ui[k];
                assert(cs[j] == init[j]);
            } else {
                assert(u[k] == cs.last());
                assert(cs[cs.len() - 1] == cs.last());
            }
        }
    }
}

impl Arena {
    /// Returns whether the expression `id` mentions a variable in `vars` (see `mentions`).
    pub fn contains_var(&self, id: ExprId, vars: &HashSet<VarId>, fuel: u64) -> (r: bool)
        requires
            self.wf(),
            id < self.exprs@.len(),
        ensures
            r == mentions(self.ev(), id, vars@, fuel as nat),
        decreases fuel, 0nat,
    {
        if fuel == 0 {
            return false;
        }
        proof {
            assert(expr_valid(self.exprs@[id as int]@, self.exprs@.len(), self.vars@.len()));
        }
        match &self.exprs[id] {
            Expr::Var(v) => vars.contains(v),
            Expr::Not(c) => {
                let mut cs: Vec<ExprId> = Vec::new();
                cs.push(*c);
                assert(cs@ =~= seq![*c]);
                self.contains_var_any(&cs, vars, fuel - 1)
            },
            Expr::And(cs) => self.contains_var_any(cs, vars, fuel - 1),
            Expr::Or(cs) => self.contains_var_any(cs, vars, fuel - 1),
        }
    }

    /// Returns whether one of the expressions `cs` mentions a variable in `vars` (see `mentions_any`).
    pub fn contains_var_any(&self, cs: &Vec<ExprId>, vars: &HashSet<VarId>, fuel: u64) -> (r: bool)
        requires
            self.wf(),
            ids_valid(cs@, self.exprs@.len()),
        ensures
            r == mentions_any(self.ev(), cs@, vars@, fuel as nat),
        decreases fuel, cs@.len(),
    {
        let mut i: usize = 0;
        while i < cs.len()
            invariant
                self.wf(),
                ids_valid(cs@, self.exprs@.len()),
                i <= cs.len(),
                !mentions_any(self.ev(), cs@.take(i as int), vars@, fuel as nat),
            decreases cs.len() - i,
        {
            proof {
                assert(cs@.take(i + 1).drop_last() == cs@.take(i as int));
                assert(cs@.take(i + 1).last() == cs@[i as int]);
            }
            if self.contains_var(cs[i], vars, fuel) {
                proof {
                    lemma_mentions_any_prefix(self.ev(), cs@, vars@, fuel as nat, i + 1);
                }
                return true;
            }
            i = i + 1;
        }
        assert(cs@.take(cs.len() as int) == cs@);
        false
    }
}

/// If a prefix of `cs` mentions a variable, so does `cs`.
pub proof fn lemma_mentions_any_prefix(ev: Seq<ExprV>, cs: Seq<ExprId>, vars: Set<VarId>, fuel: nat, k: int)
    requires
        0 <= k <= cs.len(),
        mentions_any(ev, cs.take(k), vars, fuel),
    ensures
        mentions_any(ev, cs, vars, fuel),
    decreases cs.len() - k,
{
    if k < cs.len() {
        assert(cs.take(k + 1).drop_last() == cs.take(k));
        lemma_mentions_any_prefix(ev, cs, vars, fuel, k + 1);
    } else {
        assert(cs.take(k) == cs);
    }
}

impl Formula {
    /// Whether this formula is in proto-CNF: its root is a non-empty conjunction.
    pub open spec fn proto_cnf(&self, arena: &Arena) -> bool {
        arena.ev()[self.root_id as int] matches ExprV::And(cs) && cs.len() > 0
    }

    /// Returns whether this formula is in proto-CNF (its root is a non-empty conjunction).
    pub fn is_proto_cnf(&self, arena: &Arena) -> (r: bool)
        requires
            arena.wf(),
            self.valid_in(arena),
        ensures
            r == self.proto_cnf(arena),
    {
        match &arena.exprs[self.root_id] {
            Expr::And(cs) => cs.len() > 0,
            _ => false,
        }
    }

    /// Forces this formula's root to be a conjunction, wrapping it into a new `And` with a single child if needed.
    ///
    /// This bypasses simplification, which would reduce `And(x)` to `x`.
    pub fn ensure_proto_cnf(&mut self, arena: &mut Arena)
        requires
            old(arena).wf(),
            old(self).valid_in(old(arena)),
        ensures
            final(arena).wf(),
            extends(final(arena).ev(), old(arena).ev()),
            final(arena).vars == old(arena).vars,
            final(arena).new_vars == old(arena).new_vars,
            final(arena).new_exprs == old(arena).new_exprs,
            final(self).valid_in(final(arena)),
            final(self).sub_var_ids@ == old(self).sub_var_ids@,
            final(arena).ev()[final(self).root_id as int] is And,
            old(arena).ev()[old(self).root_id as int] is And ==> *final(self) == *old(self) && *final(arena) == *old(arena),
            !(old(arena).ev()[old(self).root_id as int] is And) ==> final(arena).ev()[final(self).root_id as int] == ExprV::And(seq![old(self).root_id]),
    {
        if let Expr::And(_) = &arena.exprs[self.root_id] {
            return;
        }
        let mut v: Vec<ExprId> = Vec::new();
        v.push(self.root_id);
        assert(v@ =~= seq![self.root_id]);
        let id = arena.add_expr(Expr::And(v));
        assert(arena.ev()[id as int] == ExprV::And(seq![old(self).root_id]));
        self.root_id = id;
    }

    /// Returns the root children common to this and another formula, only in this one, and only in the other.
    ///
    /// Both formulas must have conjunctions as roots; the children are their constraints.
    pub fn diff_constraints(&self, other: &Formula, arena: &Arena) -> (r: (HashSet<ExprId>, HashSet<ExprId>, HashSet<ExprId>))
        requires
            arena.wf(),
            self.valid_in(arena),
            other.valid_in(arena),
            arena.ev()[self.root_id as int] is And,
            arena.ev()[other.root_id as int] is And,
        ensures
            ({
                let a = crate::expr::children(arena.ev()[self.root_id as int]).to_set();
                let b = crate::expr::children(arena.ev()[other.root_id as int]).to_set();
                &&& r.0@ == a.intersect(b)
                &&& r.1@ == a.difference(b)
                &&& r.2@ == b.difference(a)
            }),
    {
        let a = varset::set_from_vec(&arena.exprs[self.root_id].children());
        let b = varset::set_from_vec(&arena.exprs[other.root_id].children());
        (varset::intersection(&a, &b), varset::difference(&a, &b), varset::difference(&b, &a))
    }

    /// Returns a formula that only keeps the constraints (root children) of this formula that mention
    /// none of the given variables, whose variables are those of this formula without the given ones.
    ///
    /// This formula must have a conjunction as its root. It is not modified.
    pub fn remove_constraints(&self, ids: &HashSet<VarId>, arena: &mut Arena) -> (r: Formula)
        requires
            old(arena).wf(),
            self.valid_in(old(arena)),
            old(arena).ev()[self.root_id as int] is And,
        ensures
            crate::tseitin::tseitin_hyp(old(arena).ev()) ==> crate::tseitin::tseitin_hyp(final(arena).ev()),
            final(arena).wf(),
            extends(final(arena).ev(), old(arena).ev()),
            final(arena).vars == old(arena).vars,
            final(arena).new_vars == old(arena).new_vars,
            final(arena).new_exprs == old(arena).new_exprs,
            r.valid_in(final(arena)),
            r.sub_var_ids@ == self.sub_var_ids@.difference(ids@),
            r.file is None,
            simplified(old(arena).ev(), ExprV::And(unmentioning(old(arena).ev(), crate::expr::children(old(arena).ev()[self.root_id as int]), ids@)),
                final(arena).ev()[r.root_id as int]),
            forall|value: spec_fn(ExprId) -> bool, assignment: spec_fn(VarId) -> bool|
                #[trigger] evaluates(final(arena).ev(), value, assignment)
                ==> (value(self.root_id) ==> value(r.root_id)),
    {
        let cs = arena.exprs[self.root_id].children();
        proof {
            assert(expr_valid(arena.exprs@[self.root_id as int]@, arena.exprs@.len(), arena.vars@.len()));
        }
        let ghost ev = arena.ev();
        let mut kept: Vec<ExprId> = Vec::new();
        let mut i: usize = 0;
        while i < cs.len()
            invariant
                arena.wf(),
                ev == arena.ev(),
                ids_valid(cs@, arena.exprs@.len()),
                i <= cs.len(),
                kept@ == unmentioning(ev, cs@.take(i as int), ids@),
                ids_valid(kept@, arena.exprs@.len()),
            decreases cs.len() - i,
        {
            proof {
                assert(cs@.take(i + 1).drop_last() == cs@.take(i as int));
                assert(cs@.take(i + 1).last() == cs@[i as int]);
            }
            if !arena.contains_var(cs[i], ids, FORMAT_DEPTH) {
                kept.push(cs[i]);
            }
            i = i + 1;
        }
        assert(cs@.take(cs.len() as int) == cs@);
        let sub = varset::difference(&self.sub_var_ids, ids);
        let ghost kept_v = kept@;
        let root = arena.expr(Expr::And(kept));
        proof {
            crate::meaning::lemma_wf_all_valid(old(arena));
            lemma_unmentioning_subset(ev, cs@, ids@);
            assert forall|value: spec_fn(ExprId) -> bool, assignment: spec_fn(VarId) -> bool|
                #[trigger] evaluates(arena.ev(), value, assignment) && value(self.root_id)
                implies value(root) by {
                crate::meaning::lemma_stored_value(ev, arena.ev(), old(arena).vars@.len(), ExprV::And(kept_v), root, value, assignment);
                assert(arena.ev()[self.root_id as int] == ev[self.root_id as int]);
                assert(value(self.root_id) == crate::meaning::node_value(ev[self.root_id as int], value, assignment));
                if value(self.root_id) {
                    assert forall|k: int| 0 <= k < kept_v.len() implies #[trigger] value(kept_v[k]) by {
                        let j = choose|j: int| 0 <= j < cs@.len() && cs@[j] == kept_v[k];
                        assert(value(cs@[j]));
                    }
                }
            }
        }
        Formula::new(sub, root, None)
    }

    /// Returns an expression for the conjunction of this and another formula.
    pub fn and_expr(&self, other: &Formula, arena: &mut Arena) -> (r: ExprId)
        requires
            old(arena).wf(),
            self.valid_in(old(arena)),
            other.valid_in(old(arena)),
        ensures
            crate::tseitin::tseitin_hyp(old(arena).ev()) ==> crate::tseitin::tseitin_hyp(final(arena).ev()),
            final(arena).wf(),
            extends(final(arena).ev(), old(arena).ev()),
            final(arena).vars == old(arena).vars,
            final(arena).new_vars == old(arena).new_vars,
            final(arena).new_exprs == old(arena).new_exprs,
            r < final(arena).exprs@.len(),
            simplified(old(arena).ev(), ExprV::And(seq![self.root_id, other.root_id]), final(arena).ev()[r as int]),
            forall|value: spec_fn(ExprId) -> bool, assignment: spec_fn(VarId) -> bool|
                #[trigger] evaluates(final(arena).ev(), value, assignment)
                ==> value(r) == (value(self.root_id) && value(other.root_id)),
    {
        let mut v: Vec<ExprId> = Vec::new();
        v.push(self.root_id);
        v.push(other.root_id);
        assert(v@ =~= seq![self.root_id, other.root_id]);
        let r = arena.expr(Expr::And(v));
        proof {
            crate::meaning::lemma_wf_all_valid(old(arena));
            assert forall|value: spec_fn(ExprId) -> bool, assignment: spec_fn(VarId) -> bool|
                #[trigger] evaluates(arena.ev(), value, assignment)
                implies value(r) == (value(self.root_id) && value(other.root_id)) by {
                crate::meaning::lemma_stored_value(old(arena).ev(), arena.ev(), old(arena).vars@.len(),
                    ExprV::And(seq![self.root_id, other.root_id]), r, value, assignment);
                crate::meaning::lemma_pair_value(value, self.root_id, other.root_id);
            }
        }
        r
    }

    /// Returns a formula for the common solutions of this and another formula (on the union of their variables).
    pub fn and(&self, other: &Formula, arena: &mut Arena) -> (r: Formula)
        requires
            old(arena).wf(),
            self.valid_in(old(arena)),
            other.valid_in(old(arena)),
        ensures
            crate::tseitin::tseitin_hyp(old(arena).ev()) ==> crate::tseitin::tseitin_hyp(final(arena).ev()),
            final(arena).wf(),
            extends(final(arena).ev(), old(arena).ev()),
            final(arena).vars == old(arena).vars,
            final(arena).new_vars == old(arena).new_vars,
            final(arena).new_exprs == old(arena).new_exprs,
            r.valid_in(final(arena)),
            r.sub_var_ids@ == self.sub_var_ids@.union(other.sub_var_ids@),
            r.file is None,
            simplified(old(arena).ev(), ExprV::And(seq![self.root_id, other.root_id]), final(arena).ev()[r.root_id as int]),
            forall|value: spec_fn(ExprId) -> bool, assignment: spec_fn(VarId) -> bool|
                #[trigger] evaluates(final(arena).ev(), value, assignment)
                ==> value(r.root_id) == (value(self.root_id) && value(other.root_id)),
    {
        let vars = self.all_vars(other);
        let root = self.and_expr(other, arena);
        Formula::new(vars, root, None)
    }

    /// Returns an expression for the solutions of this formula that are not solutions of another formula
    /// (`And(self, Not(other))`); it is unsatisfiable exactly if this formula implies the other.
    pub fn and_not_expr(&self, other: &Formula, arena: &mut Arena) -> (r: ExprId)
        requires
            old(arena).wf(),
            self.valid_in(old(arena)),
            other.valid_in(old(arena)),
        ensures
            crate::tseitin::tseitin_hyp(old(arena).ev()) ==> crate::tseitin::tseitin_hyp(final(arena).ev()),
            final(arena).wf(),
            extends(final(arena).ev(), old(arena).ev()),
            final(arena).vars == old(arena).vars,
            final(arena).new_vars == old(arena).new_vars,
            final(arena).new_exprs == old(arena).new_exprs,
            r < final(arena).exprs@.len(),
            exists|n: ExprId| n < final(arena).ev().len()
                && #[trigger] simplified(old(arena).ev(), ExprV::Not(other.root_id), final(arena).ev()[n as int])
                && simplified(final(arena).ev(), ExprV::And(seq![self.root_id, n]), final(arena).ev()[r as int]),
            forall|value: spec_fn(ExprId) -> bool, assignment: spec_fn(VarId) -> bool|
                #[trigger] evaluates(final(arena).ev(), value, assignment)
                ==> value(r) == (value(self.root_id) && !value(other.root_id)),
    {
        let ghost a0 = *arena;
        let n = arena.expr(Expr::Not(other.root_id));
        let ghost a1 = *arena;
        let mut v: Vec<ExprId> = Vec::new();
        v.push(self.root_id);
        v.push(n);
        assert(v@ =~= seq![self.root_id, n]);
        let r = arena.expr(Expr::And(v));
        proof {
            assert(arena.ev()[n as int] == a1.ev()[n as int]);
            crate::arena::lemma_simplified_extends(a1.ev(), arena.ev(), ExprV::And(seq![self.root_id, n]), arena.ev()[r as int], a1.vars@.len());
            crate::meaning::lemma_wf_all_valid(old(arena));
            crate::meaning::lemma_wf_all_valid(&a1);
            assert forall|value: spec_fn(ExprId) -> bool, assignment: spec_fn(VarId) -> bool|
                #[trigger] evaluates(arena.ev(), value, assignment)
                implies value(r) == (value(self.root_id) && !value(other.root_id)) by {
                crate::meaning::lemma_stored_value(old(arena).ev(), arena.ev(), old(arena).vars@.len(),
                    ExprV::Not(other.root_id), n, value, assignment);
                crate::meaning::lemma_stored_value(a1.ev(), arena.ev(), a1.vars@.len(),
                    ExprV::And(seq![self.root_id, n]), r, value, assignment);
                crate::meaning::lemma_pair_value(value, self.root_id, n);
            }
        }
        r
    }

    /// Returns a formula for the solutions of this formula that are not solutions of another formula
    /// (see `and_expr_not`), on the union of their variables.
    pub fn and_not(&self, other: &Formula, arena: &mut Arena) -> (r: Formula)
        requires
            old(arena).wf(),
            self.valid_in(old(arena)),
            other.valid_in(old(arena)),
        ensures
            crate::tseitin::tseitin_hyp(old(arena).ev()) ==> crate::tseitin::tseitin_hyp(final(arena).ev()),
            final(arena).wf(),
            extends(final(arena).ev(), old(arena).ev()),
            final(arena).vars == old(arena).vars,
            final(arena).new_vars == old(arena).new_vars,
            final(arena).new_exprs == old(arena).new_exprs,
            r.valid_in(final(arena)),
            r.sub_var_ids@ == self.sub_var_ids@.union(other.sub_var_ids@),
            r.file is None,
            exists|n: ExprId| n < final(arena).ev().len()
                && #[trigger] simplified(old(arena).ev(), ExprV::Not(other.root_id), final(arena).ev()[n as int])
                && simplified(final(arena).ev(), ExprV::And(seq![self.root_id, n]), final(arena).ev()[r.root_id as int]),
            forall|value: spec_fn(ExprId) -> bool, assignment: spec_fn(VarId) -> bool|
                #[trigger] evaluates(final(arena).ev(), value, assignment)
                ==> value(r.root_id) == (value(self.root_id) && !value(other.root_id)),
    {
        let vars = self.all_vars(other);
        let root = self.and_not_expr(other, arena);
        Formula::new(vars, root, None)
    }

    /// Returns a formula whose solutions show that this formula does not imply another one
    /// (the same as `and_not`).
    pub fn implies(&self, other: &Formula, arena: &mut Arena) -> (r: Formula)
        requires
            old(arena).wf(),
            self.valid_in(old(arena)),
            other.valid_in(old(arena)),
        ensures
            crate::tseitin::tseitin_hyp(old(arena).ev()) ==> crate::tseitin::tseitin_hyp(final(arena).ev()),
            final(arena).wf(),
            extends(final(arena).ev(), old(arena).ev()),
            final(arena).vars == old(arena).vars,
            r.valid_in(final(arena)),
            r.sub_var_ids@ == self.sub_var_ids@.union(other.sub_var_ids@),
            exists|n: ExprId| n < final(arena).ev().len()
                && #[trigger] simplified(old(arena).ev(), ExprV::Not(other.root_id), final(arena).ev()[n as int])
                && simplified(final(arena).ev(), ExprV::And(seq![self.root_id, n]), final(arena).ev()[r.root_id as int]),
            forall|value: spec_fn(ExprId) -> bool, assignment: spec_fn(VarId) -> bool|
                #[trigger] evaluates(final(arena).ev(), value, assignment)
                ==> value(r.root_id) == (value(self.root_id) && !value(other.root_id)),
    {
        self.and_not(other, arena)
    }

    /// Returns a formula that additionally assumes the expression `id`, with the same variables.
    ///
    /// The conjunction of the root and `id` is flattened and simplified.
    pub fn assuming(&self, id: ExprId, arena: &mut Arena) -> (r: Formula)
        requires
            old(arena).wf(),
            self.valid_in(old(arena)),
            id < old(arena).exprs@.len(),
        ensures
            crate::tseitin::tseitin_hyp(old(arena).ev()) ==> crate::tseitin::tseitin_hyp(final(arena).ev()),
            final(arena).wf(),
            extends(final(arena).ev(), old(arena).ev()),
            final(arena).vars == old(arena).vars,
            final(arena).new_vars == old(arena).new_vars,
            final(arena).new_exprs == old(arena).new_exprs,
            r.valid_in(final(arena)),
            r.sub_var_ids@ == self.sub_var_ids@,
            r.file is None,
            simplified(old(arena).ev(), crate::arena::flattened(old(arena).ev(), ExprV::And(seq![self.root_id, id])),
                final(arena).ev()[r.root_id as int]),
            forall|value: spec_fn(ExprId) -> bool, assignment: spec_fn(VarId) -> bool|
                #[trigger] evaluates(final(arena).ev(), value, assignment)
                ==> value(r.root_id) == (value(self.root_id) && value(id)),
    {
        let mut v: Vec<ExprId> = Vec::new();
        v.push(self.root_id);
        v.push(id);
        assert(v@ =~= seq![self.root_id, id]);
        let mut e = Expr::And(v);
        arena.flatten_expr(&mut e);
        let ghost flat = e@;
        let root = arena.expr(e);
        proof {
            let n_vars = old(arena).vars@.len();
            crate::meaning::lemma_wf_all_valid(old(arena));
            assert forall|value: spec_fn(ExprId) -> bool, assignment: spec_fn(VarId) -> bool|
                #[trigger] evaluates(arena.ev(), value, assignment)
                implies value(root) == (value(self.root_id) && value(id)) by {
                crate::meaning::lemma_stored_value(old(arena).ev(), arena.ev(), n_vars, flat, root, value, assignment);
                crate::meaning::lemma_evaluates_prefix(arena.ev(), old(arena).ev(), value, assignment);
                crate::laws::law_flattening_preserves_meaning(old(arena).ev(), n_vars,
                    ExprV::And(seq![self.root_id, id]), value, assignment);
                crate::meaning::lemma_pair_value(value, self.root_id, id);
            }
        }
        Formula::new(varset::copy_set(&self.sub_var_ids), root, None)
    }

    /// Adds the equivalence of two variables to this formula.
    ///
    /// The clauses `Or(Not(v1), v2)` and `Or(Not(v2), v1)` are added to the root's constraints
    /// (the root's children if it is a conjunction, otherwise the root itself), and both variables
    /// are added to this formula's variables.
    pub fn and_equivalent(&mut self, var1: VarId, var2: VarId, arena: &mut Arena)
        requires
            old(arena).wf(),
            old(self).valid_in(old(arena)),
            0 < var1 < old(arena).vars@.len(),
            0 < var2 < old(arena).vars@.len(),
        ensures
            crate::tseitin::tseitin_hyp(old(arena).ev()) ==> crate::tseitin::tseitin_hyp(final(arena).ev()),
            final(arena).wf(),
            extends(final(arena).ev(), old(arena).ev()),
            final(arena).vars == old(arena).vars,
            final(arena).new_vars == old(arena).new_vars,
            final(arena).new_exprs == old(arena).new_exprs,
            final(self).valid_in(final(arena)),
            final(self).sub_var_ids@ == old(self).sub_var_ids@.insert(var1).insert(var2),
            final(self).file is Some == old(self).file is Some,
            forall|value: spec_fn(ExprId) -> bool, assignment: spec_fn(VarId) -> bool|
                #[trigger] evaluates(final(arena).ev(), value, assignment)
                ==> value(final(self).root_id) == (value(old(self).root_id) && assignment(var1) == assignment(var2)),
    {
        let ghost a0 = *arena;
        let v1 = arena.expr(Expr::Var(var1));
        let ghost a1 = *arena;
        let v2 = arena.expr(Expr::Var(var2));
        let ghost a2 = *arena;
        let not_v1 = arena.expr(Expr::Not(v1));
        let ghost a3 = *arena;
        let not_v2 = arena.expr(Expr::Not(v2));
        let ghost a4 = *arena;
        let mut c1: Vec<ExprId> = Vec::new();
        c1.push(not_v1);
        c1.push(v2);
        assert(c1@ =~= seq![not_v1, v2]);
        let clause1 = arena.expr(Expr::Or(c1));
        let ghost a5 = *arena;
        let mut c2: Vec<ExprId> = Vec::new();
        c2.push(not_v2);
        c2.push(v1);
        assert(c2@ =~= seq![not_v2, v1]);
        let clause2 = arena.expr(Expr::Or(c2));
        let ghost a6 = *arena;
        proof {
            assert(expr_valid(arena.exprs@[self.root_id as int]@, arena.exprs@.len(), arena.vars@.len()));
        }
        let mut root_children: Vec<ExprId> = match &arena.exprs[self.root_id] {
            Expr::And(children) => children.clone(),
            _ => {
                let mut v = Vec::new();
                v.push(self.root_id);
                v
            },
        };
        let ghost before = root_children@;
        root_children.push(clause1);
        root_children.push(clause2);
        assert forall|k: int| 0 <= k < root_children@.len() implies #[trigger] root_children@[k] < arena.exprs@.len() by {
            if k < before.len() {
                assert(root_children@[k] == before[k]);
            }
        }
        let ghost rc = root_children@;
        self.root_id = arena.expr(Expr::And(root_children));
        proof {
            let n_vars = a0.vars@.len();
            crate::meaning::lemma_wf_all_valid(&a0);
            crate::meaning::lemma_wf_all_valid(&a1);
            crate::meaning::lemma_wf_all_valid(&a2);
            crate::meaning::lemma_wf_all_valid(&a3);
            crate::meaning::lemma_wf_all_valid(&a4);
            crate::meaning::lemma_wf_all_valid(&a5);
            crate::meaning::lemma_wf_all_valid(&a6);
            let fin = arena.ev();
            assert(extends(fin, a1.ev()));
            assert(extends(fin, a2.ev()));
            assert(extends(fin, a3.ev()));
            assert(extends(fin, a4.ev()));
            assert(extends(fin, a5.ev()));
            assert(extends(fin, a6.ev()));
            assert(fin[old(self).root_id as int] == a0.ev()[old(self).root_id as int]);
            assert forall|value: spec_fn(ExprId) -> bool, assignment: spec_fn(VarId) -> bool|
                #[trigger] evaluates(fin, value, assignment)
                implies value(self.root_id) == (value(old(self).root_id) && assignment(var1) == assignment(var2)) by {
                crate::meaning::lemma_stored_value(a0.ev(), fin, n_vars, ExprV::Var(var1), v1, value, assignment);
                crate::meaning::lemma_stored_value(a1.ev(), fin, n_vars, ExprV::Var(var2), v2, value, assignment);
                crate::meaning::lemma_stored_value(a2.ev(), fin, n_vars, ExprV::Not(v1), not_v1, value, assignment);
                crate::meaning::lemma_stored_value(a3.ev(), fin, n_vars, ExprV::Not(v2), not_v2, value, assignment);
                crate::meaning::lemma_stored_value(a4.ev(), fin, n_vars, ExprV::Or(seq![not_v1, v2]), clause1, value, assignment);
                crate::meaning::lemma_stored_value(a5.ev(), fin, n_vars, ExprV::Or(seq![not_v2, v1]), clause2, value, assignment);
                crate::meaning::lemma_stored_value(a6.ev(), fin, n_vars, ExprV::And(rc), self.root_id, value, assignment);
                crate::meaning::lemma_pair_value(value, not_v1, v2);
                crate::meaning::lemma_pair_value(value, not_v2, v1);
                crate::meaning::lemma_all_true_push(value, before, clause1);
                crate::meaning::lemma_all_true_push(value, before.push(clause1), clause2);
                assert(rc == before.push(clause1).push(clause2));
                let r0 = old(self).root_id;
                assert(value(r0) == crate::meaning::node_value(fin[r0 as int], value, assignment));
                if let ExprV::And(cs) = a0.ev()[r0 as int] {
                    assert(before == cs);
                } else {
                    assert(before == seq![r0]);
                    assert(crate::meaning::all_true(value, before) == value(r0)) by {
                        assert(before[0] == r0);
                        if value(r0) {
                            assert forall|i: int| 0 <= i < before.len() implies #[trigger] value(before[i]) by {
                                assert(i == 0);
                            }
                        }
                    }
                }
            }
        }
        self.sub_var_ids.insert(var1);
        self.sub_var_ids.insert(var2);
    }

    /// Renames a variable: every occurrence of `old_var` in this formula's syntax tree is replaced by `new_var`,
    /// and `old_var` is replaced by `new_var` in this formula's variables.
    pub fn rename_var(&mut self, old_var: VarId, new_var: VarId, arena: &mut Arena)
        requires
            old(arena).wf(),
            old(self).valid_in(old(arena)),
            0 < old_var < old(arena).vars@.len(),
            0 < new_var < old(arena).vars@.len(),
        ensures
            grows(final(arena), old(arena)),
            final(self).valid_in(final(arena)),
            final(self).sub_var_ids@ == old(self).sub_var_ids@.remove(old_var).insert(new_var),
            final(self).file is Some == old(self).file is Some,
    {
        let ghost a0 = *arena;
        let new_id = arena.expr(Expr::Var(new_var));
        let ghost a1 = *arena;
        proof {
            arena.lemma_grows_by_expr(&a0);
        }
        arena.postorder_rev(&mut self.root_id, &Visitor::RenameVar(old_var, new_id));
        proof {
            lemma_grows_trans(&a0, &a1, arena);
        }
        let is_old = match &arena.exprs[self.root_id] {
            Expr::Var(v) => *v == old_var,
            _ => false,
        };
        if is_old {
            self.root_id = new_id;
        }
        self.sub_var_ids.remove(&old_var);
        self.sub_var_ids.insert(new_var);
    }

    /// Returns the identifiers of all sub-expressions of this formula, each once, in reverse preorder.
    ///
    /// The root is replaced by the canonical identifier of its expression; the arena is not modified.
    pub fn sub_exprs(&mut self, arena: &mut Arena) -> (r: Vec<ExprId>)
        requires
            old(arena).wf(),
            old(self).valid_in(old(arena)),
        ensures
            *final(arena) == *old(arena),
            final(self).valid_in(final(arena)),
            final(self).sub_var_ids@ == old(self).sub_var_ids@,
            ids_valid(r@, final(arena).exprs@.len()),
            r@.no_duplicates(),
            r@.len() > 0,
            r@[0] == old(self).root_id,
            final(self).root_id == final(arena).canon_id(old(self).root_id),
            crate::expr::children(old(arena).ev()[old(self).root_id as int]).len() == 0 ==> r@ == seq![old(self).root_id],
            forall|x: ExprId| #[trigger] r@.contains(x) <==> crate::visit::reaches(old(arena).ev(), old(self).root_id, x),
            final(self).file == old(self).file,
    {
        arena.preorder_rev(&mut self.root_id, &Visitor::Nothing)
    }

    /// Checks that structural sharing holds for this formula: every sub-expression's identifier is
    /// the canonical identifier of its expression. Sharing is required (a formula without it is a
    /// fault of the caller), so the check succeeds.
    #[verifier::loop_isolation(false)]
    pub fn assert_shared(&mut self, arena: &mut Arena) -> (r: bool)
        requires
            old(arena).wf(),
            old(self).valid_in(old(arena)),
            forall|x: ExprId| #[trigger] crate::visit::reaches(old(arena).ev(), old(self).root_id, x)
                ==> old(arena).lookup(old(arena).ev()[x as int]) == Some(x),
        ensures
            *final(arena) == *old(arena),
            final(self).valid_in(final(arena)),
            final(self).sub_var_ids@ == old(self).sub_var_ids@,
            r ==> final(arena).lookup(final(arena).ev()[final(self).root_id as int]) == Some(final(self).root_id),
            final(self).file == old(self).file,
            final(self).root_id == final(arena).canon_id(old(self).root_id),
            r <==> forall|x: ExprId| #[trigger] crate::visit::reaches(old(arena).ev(), old(self).root_id, x)
                ==> final(arena).lookup(final(arena).ev()[x as int]) == Some(x),
            r,
    {
        let ids = self.sub_exprs(arena);
        let mut i: usize = 0;
        while i < ids.len()
            invariant
                arena.wf(),
                ids_valid(ids@, arena.exprs@.len()),
                i <= ids.len(),
                forall|k: int| 0 <= k < i ==> arena.lookup(arena.ev()[ids@[k] as int]) == Some(#[trigger] ids@[k]),
            decreases ids.len() - i,
        {
            let id = ids[i];
            match arena.get_expr(&arena.exprs[id]) {
                Some(c) => {
                    if c != id {
                        assert(arena.lookup(arena.ev()[id as int]) != Some(id));
                        assert(ids@.contains(ids@[i as int]));
                        return false;
                    }
                },
                None => {
                    assert(arena.lookup(arena.ev()[id as int]) != Some(id));
                    assert(ids@.contains(ids@[i as int]));
                    return false;
                },
            }
            i = i + 1;
        }
        proof {
            arena.lemma_canon_id(self.root_id);
        }
        let r = match arena.get_expr(&arena.exprs[self.root_id]) {
            Some(c) => c == self.root_id,
            None => false,
        };
        proof {
            assert(ids@[0] == old(self).root_id);
            assert(arena.ev()[self.root_id as int] == arena.ev()[old(self).root_id as int]);
            assert(r);
            assert forall|x: ExprId| #[trigger] crate::visit::reaches(old(arena).ev(), old(self).root_id, x)
                implies arena.lookup(arena.ev()[x as int]) == Some(x) by {
                assert(ids@.contains(x));
                let k = choose|k: int| 0 <= k < ids@.len() && ids@[k] == x;
            }
        }
        r
    }

    /// The constraints of this formula: the root's children if it is a conjunction, otherwise the root itself.
    pub open spec fn constraints(&self, arena: &Arena) -> Seq<ExprId> {
        match arena.ev()[self.root_id as int] {
            ExprV::And(cs) => cs,
            _ => seq![self.root_id],
        }
    }

    /// Whether a variable is foreign to this formula: it is in the arena, but neither in this formula
    /// nor among the excluded variables.
    pub open spec fn foreign(&self, v: VarId, exclude: Set<VarId>, n_vars: nat) -> bool {
        0 < v < n_vars && !self.sub_var_ids@.contains(v) && !exclude.contains(v)
    }

    /// Returns a formula that fixes all variables foreign to this formula to a value:
    /// those in `core_vars` to true, those in `dead_vars` to false, and all others to `default`.
    ///
    /// The literals are added to this formula's constraints, in ascending order of variable identifiers.
    /// The new formula has all variables of the arena except the excluded ones. This formula is not modified.
    pub fn force_foreign_vars_fixed(
        &self,
        default: bool,
        core_vars: &HashSet<VarId>,
        dead_vars: &HashSet<VarId>,
        exclude_vars: &HashSet<VarId>,
        arena: &mut Arena,
    ) -> (r: Formula)
        requires
            old(arena).wf(),
            self.valid_in(old(arena)),
            forall|v: VarId| #[trigger] core_vars@.contains(v) ==> self.foreign(v, exclude_vars@, old(arena).vars@.len()),
            forall|v: VarId| #[trigger] dead_vars@.contains(v) ==> self.foreign(v, exclude_vars@, old(arena).vars@.len()),
            core_vars@.disjoint(dead_vars@),
        ensures
            crate::tseitin::tseitin_hyp(old(arena).ev()) ==> crate::tseitin::tseitin_hyp(final(arena).ev()),
            final(arena).wf(),
            extends(final(arena).ev(), old(arena).ev()),
            final(arena).vars == old(arena).vars,
            final(arena).new_vars == old(arena).new_vars,
            final(arena).new_exprs == old(arena).new_exprs,
            r.valid_in(final(arena)),
            r.sub_var_ids@ == all_var_ids(old(arena).vars@.len() as int).difference(exclude_vars@),
            r.file is None,
            ({
                let ids = selected_ids(|v: VarId| self.foreign(v, exclude_vars@, old(arena).vars@.len()), old(arena).vars@.len() as int);
                exists|lits: Seq<ExprId>| {
                    &&& #[trigger] lits.len() == ids.len()
                    &&& forall|i: int| 0 <= i < lits.len() ==> {
                        let v = ids[i];
                        let positive = if core_vars@.contains(v) { true } else if dead_vars@.contains(v) { false } else { default };
                        &&& lits[i] < final(arena).ev().len()
                        &&& positive ==> final(arena).ev()[#[trigger] lits[i] as int] == ExprV::Var(v)
                        &&& !positive ==> (final(arena).ev()[lits[i] as int] matches ExprV::Not(x)
                            && x < final(arena).ev().len() && final(arena).ev()[x as int] == ExprV::Var(v))
                    }
                    &&& simplified(final(arena).ev(), ExprV::And(self.constraints(old(arena)) + lits), final(arena).ev()[r.root_id as int])
                }
            }),
    {
        proof {
            assert(expr_valid(arena.exprs@[self.root_id as int]@, arena.exprs@.len(), arena.vars@.len()));
        }
        let base: Vec<ExprId> = match &arena.exprs[self.root_id] {
            Expr::And(cs) => cs.clone(),
            _ => {
                let mut v = Vec::new();
                v.push(self.root_id);
                assert(v@ =~= seq![self.root_id]);
                v
            },
        };
        let ghost a0 = *arena;
        let foreign = arena.filter_vars(&self.sub_var_ids, false, exclude_vars);
        let ghost pred = |v: VarId| self.foreign(v, exclude_vars@, old(arena).vars@.len());
        proof {
            lemma_selected_ids_congruent(
                |v: VarId| self.sub_var_ids@.contains(v) == false && !exclude_vars@.contains(v), pred, old(arena).vars@.len() as int);
        }
        let ghost ids = foreign@.map_values(|p: (VarId, Var)| p.0);
        let mut lits: Vec<ExprId> = Vec::new();
        let mut i: usize = 0;
        while i < foreign.len()
            invariant
                arena.wf(),
                extends(arena.ev(), old(arena).ev()),
                arena.vars == old(arena).vars,
                arena.new_vars == old(arena).new_vars,
                arena.new_exprs == old(arena).new_exprs,
                crate::tseitin::tseitin_hyp(old(arena).ev()) ==> crate::tseitin::tseitin_hyp(arena.ev()),
                ids == foreign@.map_values(|p: (VarId, Var)| p.0),
                forall|k: int| 0 <= k < foreign@.len() ==> 0 < (#[trigger] foreign@[k]).0 < arena.vars@.len(),
                ids_valid(base@, old(arena).exprs@.len()),
                i <= foreign.len(),
                lits@.len() == i,
                forall|k: int| 0 <= k < i ==> {
                    let v = ids[k];
                    let positive = if core_vars@.contains(v) { true } else if dead_vars@.contains(v) { false } else { default };
                    &&& lits@[k] < arena.ev().len()
                    &&& positive ==> arena.ev()[#[trigger] lits@[k] as int] == ExprV::Var(v)
                    &&& !positive ==> (arena.ev()[lits@[k] as int] matches ExprV::Not(x)
                        && x < arena.ev().len() && arena.ev()[x as int] == ExprV::Var(v))
                },
            decreases foreign.len() - i,
        {
            let v = foreign[i].0;
            let positive = if core_vars.contains(&v) {
                true
            } else if dead_vars.contains(&v) {
                false
            } else {
                default
            };
            let ghost before = arena.ev();
            let e = arena.expr(Expr::Var(v));
            assert(arena.ev()[e as int] == ExprV::Var(v));
            let lit = if positive {
                e
            } else {
                let ghost mid = arena.ev();
                let n = arena.expr(Expr::Not(e));
                proof {
                    assert(mid[e as int] == ExprV::Var(v));
                    assert(arena.ev()[e as int] == ExprV::Var(v));
                }
                n
            };
            proof {
                assert forall|k: int| 0 <= k < i implies #[trigger] lits@[k] < arena.ev().len() && arena.ev()[lits@[k] as int] == before[lits@[k] as int] by {}
                assert forall|k: int| 0 <= k < i implies {
                    let x = arena.ev()[#[trigger] lits@[k] as int];
                    x matches ExprV::Not(y) ==> y < before.len() && arena.ev()[y as int] == before[y as int]
                } by {
                    let x = before[lits@[k] as int];
                    assert(expr_valid(x, before.len(), arena.vars@.len()));
                }
                assert(ids[i as int] == v);
            }
            lits.push(lit);
            i = i + 1;
        }
        let mut children = base.clone();
        crate::text::push_ids(&mut children, &lits);
        assert forall|k: int| 0 <= k < children@.len() implies #[trigger] children@[k] < arena.exprs@.len() by {
            if k >= base@.len() {
                assert(children@[k] == lits@[k - base@.len()]);
            }
        }
        let ghost before_root = *arena;
        let root = arena.expr(Expr::And(children));
        proof {
            crate::arena::lemma_simplified_extends(before_root.ev(), arena.ev(), ExprV::And(self.constraints(old(arena)) + lits@),
                arena.ev()[root as int], arena.vars@.len());
            assert(children@ == self.constraints(old(arena)) + lits@);
            assert forall|k: int| 0 <= k < lits@.len() implies {
                let v = ids[k];
                let positive = if core_vars@.contains(v) { true } else if dead_vars@.contains(v) { false } else { default };
                &&& lits@[k] < arena.ev().len()
                &&& positive ==> arena.ev()[#[trigger] lits@[k] as int] == ExprV::Var(v)
                &&& !positive ==> (arena.ev()[lits@[k] as int] matches ExprV::Not(x)
                    && x < arena.ev().len() && arena.ev()[x as int] == ExprV::Var(v))
            } by {
                assert(arena.ev()[lits@[k] as int] == before_root.ev()[lits@[k] as int]);
                if let ExprV::Not(x) = before_root.ev()[lits@[k] as int] {
                    assert(arena.ev()[x as int] == before_root.ev()[x as int]);
                }
            }
            assert(lits@.len() == ids.len());
        }
        let all = arena.var_ids();
        let sub = varset::difference(&all, exclude_vars);
        Formula::new(sub, root, None)
    }

    /// Returns a formula that fixes all variables foreign to this formula (and not excluded) to `default`
    /// (see `force_foreign_vars_fixed`).
    pub fn force_foreign_vars(&self, default: bool, exclude_vars: &HashSet<VarId>, arena: &mut Arena) -> (r: Formula)
        requires
            old(arena).wf(),
            self.valid_in(old(arena)),
        ensures
            crate::tseitin::tseitin_hyp(old(arena).ev()) ==> crate::tseitin::tseitin_hyp(final(arena).ev()),
            final(arena).wf(),
            extends(final(arena).ev(), old(arena).ev()),
            final(arena).vars == old(arena).vars,
            final(arena).new_vars == old(arena).new_vars,
            final(arena).new_exprs == old(arena).new_exprs,
            r.valid_in(final(arena)),
            r.sub_var_ids@ == all_var_ids(old(arena).vars@.len() as int).difference(exclude_vars@),
            r.file is None,
            ({
                let ids = selected_ids(|v: VarId| self.foreign(v, exclude_vars@, old(arena).vars@.len()), old(arena).vars@.len() as int);
                exists|lits: Seq<ExprId>| {
                    &&& #[trigger] lits.len() == ids.len()
                    &&& forall|i: int| 0 <= i < lits.len() ==> {
                        let v = ids[i];
                        &&& lits[i] < final(arena).ev().len()
                        &&& default ==> final(arena).ev()[#[trigger] lits[i] as int] == ExprV::Var(v)
                        &&& !default ==> (final(arena).ev()[lits[i] as int] matches ExprV::Not(x)
                            && x < final(arena).ev().len() && final(arena).ev()[x as int] == ExprV::Var(v))
                    }
                    &&& simplified(final(arena).ev(), ExprV::And(self.constraints(old(arena)) + lits), final(arena).ev()[r.root_id as int])
                }
            }),
    {
        let empty1: HashSet<VarId> = HashSet::new();
        let empty2: HashSet<VarId> = HashSet::new();
        self.force_foreign_vars_fixed(default, &empty1, &empty2, exclude_vars, arena)
    }
}

/// `selected_ids` only depends on the predicate within the range of identifiers.
/// Every identifier that `selected_ids` selects satisfies the predicate.
pub proof fn lemma_selected_ids_sound(p: spec_fn(VarId) -> bool, n: int)
    ensures
        forall|i: int| 0 <= i < selected_ids(p, n).len() ==> p(#[trigger] selected_ids(p, n)[i]),
    decreases n,
{
    if n > 1 {
        lemma_selected_ids_sound(p, n - 1);
        let s = selected_ids(p, n);
        let t = selected_ids(p, n - 1);
        assert forall|i: int| 0 <= i < s.len() implies p(#[trigger] s[i]) by {
            if i < t.len() {
                assert(s[i] == t[i]);
            }
        }
    }
}

pub proof fn lemma_selected_ids_congruent(p: spec_fn(VarId) -> bool, q: spec_fn(VarId) -> bool, n: int)
    requires
        n <= i32::MAX + 1,
        forall|v: VarId| 0 < v < n ==> #[trigger] p(v) == q(v),
    ensures
        selected_ids(p, n) == selected_ids(q, n),
    decreases n,
{
    if n > 1 {
        lemma_selected_ids_congruent(p, q, n - 1);
        assert(((n - 1) as VarId) as int == n - 1);
        assert(p((n - 1) as VarId) == q((n - 1) as VarId));
    }
}

} // verus!

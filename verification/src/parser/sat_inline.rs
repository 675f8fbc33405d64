//! Parser for inline formulas in a .sat-like syntax.
//!
//! In this syntax (see `sat_expr`), the number `k` refers to the `k`-th of the formulas parsed before.

use std::collections::HashSet;
use vstd::prelude::*;
use crate::arena::{Arena, expr_valid, extends, ids_valid, simplified};
use crate::expr::{ExprId, ExprV};
use crate::meaning::{all_true, evaluates};
use crate::formula::{Formula, all_var_ids, selected_ids};
use crate::parser::ParseError;
use crate::parser::expr::{build_sat_expr, lemma_sat_expr_bounds, sat_expr, sat_expr_end};
use crate::syntax::{skip_ws, skip_ws_exec};
use crate::text::chars_of;
use crate::tree::{Tree, lemma_realizes_valid, realizes, refs_ok};
use crate::var::VarId;
use crate::varset;

verus! {

broadcast use vstd::std_specs::hash::group_hash_axioms;

/// Parses an inline formula: its syntax tree, if the whole text is one expression.
pub open spec fn inline_formula(s: Seq<char>) -> Option<Tree> {
    match sat_expr(s, 0) {
        Some((t, q)) => if skip_ws(s, q) == s.len() { Some(t) } else { None },
        None => None,
    }
}

/// The union of the variables of a list of formulas.
pub open spec fn formulas_vars(fs: Seq<Formula>) -> Set<VarId>
    decreases fs.len(),
{
    if fs.len() == 0 {
        Set::empty()
    } else {
        formulas_vars(fs.drop_last()).union(fs.last().sub_var_ids@)
    }
}

/// Parses inline formulas that refer to previously parsed formulas.
///
/// Optionally, each referenced formula is first extended by literals that fix the variables it
/// does not mention (see `Formula::force_foreign_vars`), so that formulas over differing sets of
/// variables can be compared.
pub struct SatInlineFormulaParser<'a> {
    /// The formulas that the numbers `1, 2, ...` refer to.
    pub formulas: &'a Vec<Formula>,
    /// Whether (and to which value) to fix the variables a referenced formula does not mention.
    pub force_foreign_vars: Option<bool>,
}

impl<'a> SatInlineFormulaParser<'a> {
    /// Creates a parser for inline formulas over the given formulas.
    pub fn new(formulas: &'a Vec<Formula>, force_foreign_vars: Option<bool>) -> (r: Self)
        ensures
            r.formulas@ == formulas@,
            r.force_foreign_vars == force_foreign_vars,
    {
        SatInlineFormulaParser { formulas, force_foreign_vars }
    }

    /// Returns whether a text is an inline formula (see `inline_formula`).
    pub fn can_parse(file: &String) -> (r: bool)
        ensures
            r == (inline_formula(file@) is Some),
    {
        let s = chars_of(file.as_str());
        match sat_expr_end(&s, 0) {
            Some(q) => {
                proof {
                    lemma_sat_expr_bounds(s@, 0);
                }
                skip_ws_exec(&s, q) == s.len()
            },
            None => false,
        }
    }

    /// Parses an inline formula into an arena.
    ///
    /// The parsed formula has the union of the variables of all given formulas, or, when foreign
    /// variables are fixed, all variables of the arena. Fails with `Syntax` if the text is not an
    /// inline formula and with `UnknownVariable` if it refers to a formula that was not given.
    pub fn parse_into(&self, file: &String, arena: &mut Arena) -> (r: Result<Formula, ParseError>)
        requires
            old(arena).wf(),
            forall|i: int| 0 <= i < self.formulas@.len() ==> (#[trigger] self.formulas@[i]).valid_in(old(arena)),
        ensures
            crate::tseitin::tseitin_hyp(old(arena).ev()) ==> crate::tseitin::tseitin_hyp(final(arena).ev()),
            final(arena).wf(),
            extends(final(arena).ev(), old(arena).ev()),
            final(arena).vars == old(arena).vars,
            match inline_formula(file@) {
                None => r == Err::<Formula, ParseError>(ParseError::Syntax),
                Some(t) => if !refs_ok(t, self.formulas@.len() as int) {
                    r == Err::<Formula, ParseError>(ParseError::UnknownVariable)
                } else {
                    r matches Ok(f) && f.valid_in(final(arena)) && f.file is None
                        && exists|leaves: Seq<ExprId>| #[trigger] leaves.len() == self.formulas@.len()
                            && ids_valid(leaves, final(arena).ev().len())
                            && (self.force_foreign_vars is None ==> forall|k: int| 0 <= k < leaves.len() ==> #[trigger] leaves[k] == self.formulas@[k].root_id)
                            && (self.force_foreign_vars matches Some(d) ==> forall|k: int| 0 <= k < leaves.len()
                                ==> #[trigger] forced_leaf(final(arena).ev(), leaves[k], self.formulas@[k], old(arena).vars@.len(), d))
                            && realizes(final(arena).ev(), final(arena).vv(), f.root_id, t, leaves)
                        && (self.force_foreign_vars is None ==> f.sub_var_ids@ == formulas_vars(self.formulas@))
                        && (self.force_foreign_vars is Some ==> f.sub_var_ids@ == all_var_ids(old(arena).vars@.len() as int))
                },
            },
    {
        let s = chars_of(file.as_str());
        let q = match sat_expr_end(&s, 0) {
            None => {
                return Err(ParseError::Syntax);
            },
            Some(q) => q,
        };
        proof {
            lemma_sat_expr_bounds(s@, 0);
        }
        if skip_ws_exec(&s, q) != s.len() {
            return Err(ParseError::Syntax);
        }
        let ghost t = sat_expr(s@, 0).unwrap().0;
        let leaves = self.leaves(arena);
        let ghost a_leaves = *arena;
        let root = match build_sat_expr(&s, 0, &leaves, arena) {
            None => {
                return Err(ParseError::UnknownVariable);
            },
            Some((root, _)) => root,
        };
        proof {
            if let Some(d) = self.force_foreign_vars {
                assert forall|k: int| 0 <= k < leaves@.len()
                    implies #[trigger] forced_leaf(arena.ev(), leaves@[k], self.formulas@[k], old(arena).vars@.len(), d) by {
                    assert(forced_leaf(a_leaves.ev(), leaves@[k], self.formulas@[k], old(arena).vars@.len(), d));
                    lemma_forced_leaf_extends(a_leaves.ev(), arena.ev(), leaves@[k], self.formulas@[k], old(arena).vars@.len(), d);
                }
            }
            lemma_realizes_valid(arena.ev(), arena.vv(), root, t, leaves@);
            assert(leaves@.len() == self.formulas@.len());
        }
        let sub = if self.force_foreign_vars.is_some() {
            arena.var_ids()
        } else {
            self.union_vars()
        };
        proof {
            if self.force_foreign_vars is None {
                lemma_formulas_vars_valid(self.formulas@, *old(arena));
            }
        }
        Ok(Formula::new(sub, root, None))
    }

    /// Returns the expressions the numbers `1, 2, ...` refer to: the roots of the formulas, or the
    /// roots of the formulas extended by literals fixing their foreign variables.
    fn leaves(&self, arena: &mut Arena) -> (r: Vec<ExprId>)
        requires
            old(arena).wf(),
            forall|i: int| 0 <= i < self.formulas@.len() ==> (#[trigger] self.formulas@[i]).valid_in(old(arena)),
        ensures
            crate::tseitin::tseitin_hyp(old(arena).ev()) ==> crate::tseitin::tseitin_hyp(final(arena).ev()),
            final(arena).wf(),
            extends(final(arena).ev(), old(arena).ev()),
            final(arena).vars == old(arena).vars,
            r@.len() == self.formulas@.len(),
            ids_valid(r@, final(arena).exprs@.len()),
            self.force_foreign_vars is None ==> forall|k: int| 0 <= k < r@.len() ==> #[trigger] r@[k] == self.formulas@[k].root_id,
            self.force_foreign_vars matches Some(d) ==> forall|k: int| 0 <= k < r@.len()
                ==> #[trigger] forced_leaf(final(arena).ev(), r@[k], self.formulas@[k], old(arena).vars@.len(), d),
    {
        let mut r: Vec<ExprId> = Vec::new();
        let mut k: usize = 0;
        while k < self.formulas.len()
            invariant
                arena.wf(),
                old(arena).wf(),
                extends(arena.ev(), old(arena).ev()),
                arena.vars == old(arena).vars,
                crate::tseitin::tseitin_hyp(old(arena).ev()) ==> crate::tseitin::tseitin_hyp(arena.ev()),
                forall|i: int| 0 <= i < self.formulas@.len() ==> (#[trigger] self.formulas@[i]).valid_in(old(arena)),
                k <= self.formulas@.len(),
                r@.len() == k,
                ids_valid(r@, arena.exprs@.len()),
                self.force_foreign_vars is None ==> forall|j: int| 0 <= j < k ==> #[trigger] r@[j] == self.formulas@[j].root_id,
                self.force_foreign_vars matches Some(d) ==> forall|j: int| 0 <= j < k
                    ==> #[trigger] forced_leaf(arena.ev(), r@[j], self.formulas@[j], old(arena).vars@.len(), d),
            decreases self.formulas.len() - k,
        {
            let f = &self.formulas[k];
            assert(f.valid_in(old(arena)));
            match self.force_foreign_vars {
                None => {
                    r.push(f.root_id);
                },
                Some(default) => {
                    proof {
                        assert(f.valid_in(arena));
                    }
                    let ghost before = *arena;
                    let ghost r0 = r@;
                    let root = forced_root(f, default, arena);
                    r.push(root);
                    proof {
                        assert forall|j: int| 0 <= j < k + 1
                            implies #[trigger] forced_leaf(arena.ev(), r@[j], self.formulas@[j], old(arena).vars@.len(), default) by {
                            if j < k {
                                assert(r@[j] == r0[j]);
                                lemma_forced_leaf_extends(before.ev(), arena.ev(), r0[j], self.formulas@[j], old(arena).vars@.len(), default);
                            }
                        }
                    }
                },
            }
            k = k + 1;
        }
        r
    }

    /// Returns the union of the variables of all formulas.
    fn union_vars(&self) -> (r: HashSet<VarId>)
        ensures
            r@ == formulas_vars(self.formulas@),
    {
        let mut r: HashSet<VarId> = HashSet::new();
        let mut k: usize = 0;
        assert(self.formulas@.take(0) =~= Seq::<Formula>::empty());
        while k < self.formulas.len()
            invariant
                k <= self.formulas@.len(),
                r@ == formulas_vars(self.formulas@.take(k as int)),
            decreases self.formulas.len() - k,
        {
            r = varset::union(&r, &self.formulas[k].sub_var_ids);
            proof {
                assert(self.formulas@.take(k + 1).drop_last() =~= self.formulas@.take(k as int));
                assert(self.formulas@.take(k + 1).last() == self.formulas@[k as int]);
            }
            k = k + 1;
        }
        assert(self.formulas@.take(self.formulas@.len() as int) =~= self.formulas@);
        r
    }
}

/// Returns the root of a formula extended by literals that fix all variables it does not mention
/// (see `Formula::force_foreign_vars`).
fn forced_root(f: &Formula, default: bool, arena: &mut Arena) -> (r: ExprId)
    requires
        old(arena).wf(),
        f.valid_in(old(arena)),
    ensures
        crate::tseitin::tseitin_hyp(old(arena).ev()) ==> crate::tseitin::tseitin_hyp(final(arena).ev()),
        final(arena).wf(),
        extends(final(arena).ev(), old(arena).ev()),
        final(arena).vars == old(arena).vars,
        r < final(arena).exprs@.len(),
        forced_leaf(final(arena).ev(), r, *f, old(arena).vars@.len(), default),
{
    let ghost a0 = *arena;
    let empty: HashSet<VarId> = HashSet::new();
    let forced = f.force_foreign_vars(default, &empty, arena);
    proof {
        let n = a0.vars@.len();
        let ev = arena.ev();
        let pred = |v: VarId| f.foreign(v, empty@, n);
        let ids = selected_ids(pred, n as int);
        let cs = f.constraints(&a0);
        let lits = choose|lits: Seq<ExprId>| {
            &&& #[trigger] lits.len() == ids.len()
            &&& forall|i: int| 0 <= i < lits.len() ==> {
                let v = ids[i];
                &&& lits[i] < ev.len()
                &&& default ==> ev[#[trigger] lits[i] as int] == ExprV::Var(v)
                &&& !default ==> (ev[lits[i] as int] matches ExprV::Not(x)
                    && x < ev.len() && ev[x as int] == ExprV::Var(v))
            }
            &&& simplified(ev, ExprV::And(cs + lits), ev[forced.root_id as int])
        };
        crate::meaning::lemma_wf_all_valid(arena);
        crate::meaning::lemma_wf_all_valid(&a0);
        crate::formula::lemma_selected_ids_sound(pred, n as int);
        assert(expr_valid(a0.ev()[f.root_id as int], a0.ev().len(), n));
        assert(ids_valid(cs, ev.len()));
        assert(expr_valid(ExprV::And(cs + lits), ev.len(), arena.vars@.len())) by {
            assert forall|k: int| 0 <= k < (cs + lits).len() implies #[trigger] (cs + lits)[k] < ev.len() by {
                if k >= cs.len() {
                    assert((cs + lits)[k] == lits[k - cs.len()]);
                }
            }
        }
        assert forall|value: spec_fn(ExprId) -> bool, assignment: spec_fn(VarId) -> bool|
            #[trigger] evaluates(ev, value, assignment)
            implies value(forced.root_id) == (value(f.root_id) && fixed_to(assignment, *f, n, default)) by {
            crate::laws::law_simplification_preserves_meaning(ev, arena.vars@.len(), ExprV::And(cs + lits), ev[forced.root_id as int],
                value, assignment);
            assert(value(forced.root_id) == all_true(value, cs + lits));
            assert(ev[f.root_id as int] == a0.ev()[f.root_id as int]);
            assert(all_true(value, cs) == value(f.root_id)) by {
                if !(a0.ev()[f.root_id as int] is And) {
                    assert(cs[0] == f.root_id);
                }
            }
            assert(all_true(value, lits) == fixed_to(assignment, *f, n, default)) by {
                if all_true(value, lits) {
                    assert forall|v: VarId| #[trigger] f.foreign(v, Set::<VarId>::empty(), n) implies assignment(v) == default by {
                        assert(pred(v));
                        crate::clauses::lemma_selected_ids_complete(pred, n as int, v);
                        let k = choose|k: int| 0 <= k < ids.len() && ids[k] == v;
                        assert(value(lits[k]));
                        if !default {
                            let x = ev[lits[k] as int]->Not_0;
                            assert(value(x) == assignment(v));
                        }
                    }
                }
                if fixed_to(assignment, *f, n, default) {
                    assert forall|k: int| 0 <= k < lits.len() implies #[trigger] value(lits[k]) by {
                        assert(pred(ids[k]));
                        assert(f.foreign(ids[k], Set::<VarId>::empty(), n));
                        if !default {
                            let x = ev[lits[k] as int]->Not_0;
                            assert(value(x) == assignment(ids[k]));
                        }
                    }
                }
            }
            assert(all_true(value, cs + lits) == (all_true(value, cs) && all_true(value, lits))) by {
                if all_true(value, cs) && all_true(value, lits) {
                    assert forall|k: int| 0 <= k < (cs + lits).len() implies #[trigger] value((cs + lits)[k]) by {
                        if k >= cs.len() {
                            assert((cs + lits)[k] == lits[k - cs.len()]);
                        }
                    }
                }
                if all_true(value, cs + lits) {
                    assert forall|k: int| 0 <= k < cs.len() implies #[trigger] value(cs[k]) by {
                        assert((cs + lits)[k] == cs[k]);
                    }
                    assert forall|k: int| 0 <= k < lits.len() implies #[trigger] value(lits[k]) by {
                        assert((cs + lits)[k + cs.len()] == lits[k]);
                    }
                }
            }
        }
    }
    forced.root_id
}

/// Whether the expression `leaf` holds exactly where the formula `f` holds and every variable
/// foreign to it (among the first `n_vars`) has the value `default`.
pub open spec fn forced_leaf(ev: Seq<ExprV>, leaf: ExprId, f: Formula, n_vars: nat, default: bool) -> bool {
    forall|value: spec_fn(ExprId) -> bool, assignment: spec_fn(VarId) -> bool|
        #[trigger] evaluates(ev, value, assignment) ==> value(leaf) == (value(f.root_id) && fixed_to(assignment, f, n_vars, default))
}

/// Every model of a formula reference whose foreign variables are fixed to `default` is a model of
/// the referenced formula that gives each foreign variable the value `default`; and every such
/// model is a model of the reference.
pub proof fn law_forced_leaf_fixes_default(ev: Seq<ExprV>, leaf: ExprId, f: Formula, n_vars: nat, default: bool,
    value: spec_fn(ExprId) -> bool, assignment: spec_fn(VarId) -> bool)
    requires
        forced_leaf(ev, leaf, f, n_vars, default),
        evaluates(ev, value, assignment),
    ensures
        value(leaf) ==> value(f.root_id) && forall|v: VarId| #[trigger] f.foreign(v, Set::<VarId>::empty(), n_vars) ==> assignment(v) == default,
        value(f.root_id) && (forall|v: VarId| #[trigger] f.foreign(v, Set::<VarId>::empty(), n_vars) ==> assignment(v) == default) ==> value(leaf),
{
}

/// What an expression means is kept when expressions are appended.
proof fn lemma_forced_leaf_extends(ev1: Seq<ExprV>, ev2: Seq<ExprV>, leaf: ExprId, f: Formula, n_vars: nat, default: bool)
    requires
        extends(ev2, ev1),
        forced_leaf(ev1, leaf, f, n_vars, default),
    ensures
        forced_leaf(ev2, leaf, f, n_vars, default),
{
    assert forall|value: spec_fn(ExprId) -> bool, assignment: spec_fn(VarId) -> bool|
        #[trigger] evaluates(ev2, value, assignment)
        implies value(leaf) == (value(f.root_id) && fixed_to(assignment, f, n_vars, default)) by {
        crate::meaning::lemma_evaluates_prefix(ev2, ev1, value, assignment);
    }
}

/// Whether an assignment gives every variable foreign to the formula `f` (among the first `n_vars`)
/// the value `default`.
pub open spec fn fixed_to(assignment: spec_fn(VarId) -> bool, f: Formula, n_vars: nat, default: bool) -> bool {
    forall|v: VarId| #[trigger] f.foreign(v, Set::<VarId>::empty(), n_vars) ==> assignment(v) == default
}

/// The variables of valid formulas are variables of the arena other than variable 0.
proof fn lemma_formulas_vars_valid(fs: Seq<Formula>, arena: Arena)
    requires
        forall|i: int| 0 <= i < fs.len() ==> (#[trigger] fs[i]).valid_in(&arena),
    ensures
        forall|v: VarId| #[trigger] formulas_vars(fs).contains(v) ==> 0 < v < arena.vars@.len(),
    decreases fs.len(),
{
    if fs.len() > 0 {
        assert forall|i: int| 0 <= i < fs.drop_last().len() implies (#[trigger] fs.drop_last()[i]).valid_in(&arena) by {
            assert(fs.drop_last()[i] == fs[i]);
        }
        lemma_formulas_vars_valid(fs.drop_last(), arena);
        assert(fs.last().valid_in(&arena));
        assert forall|v: VarId| #[trigger] formulas_vars(fs).contains(v) implies 0 < v < arena.vars@.len() by {
            if !formulas_vars(fs.drop_last()).contains(v) {
                assert(fs.last().sub_var_ids@.contains(v));
            }
        }
    }
}

} // verus!

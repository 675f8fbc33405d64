//! Clause representation of a feature-model formula.

use std::collections::{HashMap, HashSet};
use vstd::prelude::*;
use crate::arena::{Arena, expr_valid, ids_valid};
use crate::expr::{Expr, ExprId, ExprV};
use crate::formula::{Formula, selected_ids};
use crate::meaning::{all_true, evaluates, node_value, some_true};
use crate::text::{decimal, signed_decimal, push_decimal, push_signed_decimal, string_of};
use crate::var::{Var, VarId, VarV, var_name};

verus! {

broadcast use vstd::std_specs::hash::group_hash_axioms;

/// A formula in its clause representation (conjunctive normal form).
///
/// A clause is a list of literals; a literal is a (possibly negated) index into `vars`.
/// Index 0 of `vars` is an unused placeholder.
#[derive(Debug)]
pub struct Clauses {
    /// The clauses.
    pub clauses: Vec<Vec<VarId>>,
    /// The variables, indexed by the absolute values of literals.
    pub vars: Vec<Var>,
    /// Maps arena variable identifiers to the indices used in literals.
    pub var_remap: HashMap<VarId, VarId>,
}

/// Errors when a formula has no clause representation.
#[derive(Debug)]
pub enum ClausesError {
    /// The formula contains an expression that cannot appear in a clause (a nested conjunction,
    /// a double negation, or a non-empty conjunction or disjunction where a literal is expected).
    NotInCnf,
    /// The formula mentions a variable that is not among its variables.
    UnknownVariable,
}

/// What a single expression contributes to a clause.
pub enum LitOutcome {
    /// A literal.
    Lit(VarId),
    /// The expression is true, so the clause is satisfied.
    Taut,
    /// The expression is false and is omitted from the clause.
    Skip,
    /// The expression is not a literal.
    NotInCnf,
    /// The expression mentions an unknown variable.
    Unknown,
}

/// What an expression contributes to a clause, given the remapping of variables.
pub open spec fn literal_spec(ev: Seq<ExprV>, remap: Map<VarId, VarId>, id: ExprId) -> LitOutcome {
    match ev[id as int] {
        ExprV::Var(v) => if remap.contains_key(v) { LitOutcome::Lit(remap[v]) } else { LitOutcome::Unknown },
        ExprV::Not(c) => match ev[c as int] {
            ExprV::Var(v) => if remap.contains_key(v) { LitOutcome::Lit((-remap[v]) as VarId) } else { LitOutcome::Unknown },
            ExprV::Not(_) => LitOutcome::NotInCnf,
            ExprV::And(cs) => if cs.len() == 0 { LitOutcome::Skip } else { LitOutcome::NotInCnf },
            ExprV::Or(cs) => if cs.len() == 0 { LitOutcome::Taut } else { LitOutcome::NotInCnf },
        },
        ExprV::And(cs) => if cs.len() == 0 { LitOutcome::Taut } else { LitOutcome::NotInCnf },
        ExprV::Or(cs) => if cs.len() == 0 { LitOutcome::Skip } else { LitOutcome::NotInCnf },
    }
}

/// The result of collecting the literals of a clause.
pub enum ClauseOutcome {
    /// The clause holds these literals.
    Lits(Seq<VarId>),
    /// The clause is a tautology.
    Taut,
    /// The clause cannot be represented.
    Error(ClausesError),
}

/// Collects the literals of the expressions `ids`, left to right; collection stops at the first tautology.
pub open spec fn clause_spec(ev: Seq<ExprV>, remap: Map<VarId, VarId>, ids: Seq<ExprId>) -> ClauseOutcome
    decreases ids.len(),
{
    if ids.len() == 0 {
        ClauseOutcome::Lits(Seq::empty())
    } else {
        match clause_spec(ev, remap, ids.drop_last()) {
            ClauseOutcome::Lits(ls) => match literal_spec(ev, remap, ids.last()) {
                LitOutcome::Lit(l) => ClauseOutcome::Lits(ls.push(l)),
                LitOutcome::Taut => ClauseOutcome::Taut,
                LitOutcome::Skip => ClauseOutcome::Lits(ls),
                LitOutcome::NotInCnf => ClauseOutcome::Error(ClausesError::NotInCnf),
                LitOutcome::Unknown => ClauseOutcome::Error(ClausesError::UnknownVariable),
            },
            other => other,
        }
    }
}

/// The clauses emitted for one clause outcome.
///
/// A tautological clause is emitted as `[1, -1]` and an empty (contradictory) clause as `[1], [-1]`,
/// as not all solvers handle these cases; without variables, a tautological clause is omitted
/// and a contradictory one emitted as the empty clause.
pub open spec fn emitted(outcome: ClauseOutcome, has_vars: bool) -> Seq<Seq<VarId>> {
    match outcome {
        ClauseOutcome::Taut => if has_vars { seq![seq![1i32, -1i32]] } else { Seq::empty() },
        ClauseOutcome::Lits(ls) => if ls.len() == 0 {
            if has_vars { seq![seq![1i32], seq![-1i32]] } else { seq![Seq::empty()] }
        } else {
            seq![ls]
        },
        ClauseOutcome::Error(_) => Seq::empty(),
    }
}

/// The clause formed by one constraint (a root child) of a conjunction.
pub open spec fn constraint_clause(ev: Seq<ExprV>, remap: Map<VarId, VarId>, c: ExprId) -> ClauseOutcome {
    match ev[c as int] {
        ExprV::Or(cs) => clause_spec(ev, remap, cs),
        ExprV::And(_) => ClauseOutcome::Error(ClausesError::NotInCnf),
        _ => clause_spec(ev, remap, seq![c]),
    }
}

/// The clauses of the constraints `cs` of a conjunction, or the first error.
pub open spec fn constraints_spec(ev: Seq<ExprV>, remap: Map<VarId, VarId>, cs: Seq<ExprId>, has_vars: bool)
    -> Result<Seq<Seq<VarId>>, ClausesError>
    decreases cs.len(),
{
    if cs.len() == 0 {
        Ok(Seq::empty())
    } else {
        match constraints_spec(ev, remap, cs.drop_last(), has_vars) {
            Ok(done) => match constraint_clause(ev, remap, cs.last()) {
                ClauseOutcome::Error(e) => Err(e),
                o => Ok(done + emitted(o, has_vars)),
            },
            Err(e) => Err(e),
        }
    }
}

/// The clauses of a formula in conjunctive normal form with root `root`, or why it has none.
pub open spec fn clauses_spec(ev: Seq<ExprV>, remap: Map<VarId, VarId>, root: ExprId, has_vars: bool)
    -> Result<Seq<Seq<VarId>>, ClausesError>
{
    match ev[root as int] {
        ExprV::And(cs) => constraints_spec(ev, remap, cs, has_vars),
        ExprV::Or(cs) => match clause_spec(ev, remap, cs) {
            ClauseOutcome::Error(e) => Err(e),
            o => Ok(emitted(o, has_vars)),
        },
        _ => match clause_spec(ev, remap, seq![root]) {
            ClauseOutcome::Error(e) => Err(e),
            o => Ok(emitted(o, has_vars)),
        },
    }
}

/// Whether a literal is true under an assignment of the arena's variables: literal `l` stands for
/// variable `ids[|l| - 1]`, negated if `l` is negative.
pub open spec fn lit_true(l: VarId, ids: Seq<VarId>, assignment: spec_fn(VarId) -> bool) -> bool {
    if l > 0 { assignment(ids[l - 1]) } else { !assignment(ids[-l - 1]) }
}

/// Whether a clause has a true literal.
pub open spec fn clause_true(c: Seq<VarId>, ids: Seq<VarId>, assignment: spec_fn(VarId) -> bool) -> bool {
    exists|k: int| 0 <= k < c.len() && #[trigger] lit_true(c[k], ids, assignment)
}

/// Whether every clause has a true literal.
pub open spec fn satisfies(cs: Seq<Seq<VarId>>, ids: Seq<VarId>, assignment: spec_fn(VarId) -> bool) -> bool {
    forall|j: int| 0 <= j < cs.len() ==> #[trigger] clause_true(cs[j], ids, assignment)
}

/// What an expression contributes to a clause agrees with its truth value.
proof fn lemma_literal_meaning(ev: Seq<ExprV>, n_vars: nat, ids: Seq<VarId>, id: ExprId,
    value: spec_fn(ExprId) -> bool, assignment: spec_fn(VarId) -> bool)
    requires
        crate::meaning::all_valid(ev, n_vars),
        id < ev.len(),
        ids.len() <= i32::MAX,
        evaluates(ev, value, assignment),
    ensures
        match literal_spec(ev, remap_of(ids), id) {
            LitOutcome::Lit(l) => lit_true(l, ids, assignment) == value(id),
            LitOutcome::Taut => value(id),
            LitOutcome::Skip => !value(id),
            _ => true,
        },
{
    let remap = remap_of(ids);
    assert(value(id) == node_value(ev[id as int], value, assignment));
    assert(expr_valid(ev[id as int], ev.len(), n_vars));
    match ev[id as int] {
        ExprV::Var(v) => {
            if remap.contains_key(v) {
                let k = ids.index_of(v);
                assert(0 <= k < ids.len() && ids[k] == v);
                assert(remap[v] == k + 1);
            }
        },
        ExprV::Not(c) => {
            assert(value(c) == node_value(ev[c as int], value, assignment));
            if let ExprV::Var(v) = ev[c as int] {
                if remap.contains_key(v) {
                    let k = ids.index_of(v);
                    assert(0 <= k < ids.len() && ids[k] == v);
                    assert(remap[v] == k + 1);
                    assert(((-remap[v]) as VarId) == -(k + 1));
                }
            }
        },
        _ => {},
    }
}

/// The literals collected for a list of expressions have a true one if and only if one of the
/// expressions is true (a tautology if one of them is).
proof fn lemma_clause_meaning(ev: Seq<ExprV>, n_vars: nat, ids: Seq<VarId>, xs: Seq<ExprId>,
    value: spec_fn(ExprId) -> bool, assignment: spec_fn(VarId) -> bool)
    requires
        crate::meaning::all_valid(ev, n_vars),
        ids_valid(xs, ev.len()),
        ids.len() <= i32::MAX,
        evaluates(ev, value, assignment),
    ensures
        match clause_spec(ev, remap_of(ids), xs) {
            ClauseOutcome::Lits(ls) => clause_true(ls, ids, assignment) == some_true(value, xs),
            ClauseOutcome::Taut => some_true(value, xs),
            ClauseOutcome::Error(_) => true,
        },
    decreases xs.len(),
{
    if xs.len() > 0 {
        let init = xs.drop_last();
        let last = xs.last();
        lemma_clause_meaning(ev, n_vars, ids, init, value, assignment);
        lemma_literal_meaning(ev, n_vars, ids, last, value, assignment);
        assert(some_true(value, xs) == (some_true(value, init) || value(last))) by {
            if some_true(value, xs) {
                let k = choose|k: int| 0 <= k < xs.len() && #[trigger] value(xs[k]);
                if k < init.len() {
                    assert(init[k] == xs[k]);
                }
            }
            if some_true(value, init) {
                let k = choose|k: int| 0 <= k < init.len() && #[trigger] value(init[k]);
                assert(xs[k] == init[k]);
            }
            if value(last) {
                assert(xs[xs.len() - 1] == last);
            }
        }
        if let ClauseOutcome::Lits(ls) = clause_spec(ev, remap_of(ids), init) {
            if let LitOutcome::Lit(l) = literal_spec(ev, remap_of(ids), last) {
                let ls2 = ls.push(l);
                assert(clause_true(ls2, ids, assignment) == (clause_true(ls, ids, assignment) || lit_true(l, ids, assignment))) by {
                    if clause_true(ls2, ids, assignment) {
                        let k = choose|k: int| 0 <= k < ls2.len() && #[trigger] lit_true(ls2[k], ids, assignment);
                        if k < ls.len() {
                            assert(ls[k] == ls2[k]);
                        }
                    }
                    if clause_true(ls, ids, assignment) {
                        let k = choose|k: int| 0 <= k < ls.len() && #[trigger] lit_true(ls[k], ids, assignment);
                        assert(ls2[k] == ls[k]);
                    }
                    if lit_true(l, ids, assignment) {
                        assert(ls2[ls.len() as int] == l);
                    }
                }
            }
        }
    }
}

/// The clauses emitted for a clause outcome are satisfied if and only if the clause is.
proof fn lemma_emitted_meaning(o: ClauseOutcome, ids: Seq<VarId>, assignment: spec_fn(VarId) -> bool)
    requires
        !(o is Error),
    ensures
        satisfies(emitted(o, ids.len() > 0), ids, assignment) == match o {
            ClauseOutcome::Lits(ls) => clause_true(ls, ids, assignment),
            _ => true,
        },
{
    let has_vars = ids.len() > 0;
    let em = emitted(o, has_vars);
    match o {
        ClauseOutcome::Taut => {
            if has_vars {
                let c = seq![1i32, -1i32];
                assert(em[0] == c);
                assert(lit_true(c[0], ids, assignment) || lit_true(c[1], ids, assignment));
                assert(clause_true(c, ids, assignment));
            }
        },
        ClauseOutcome::Lits(ls) => {
            if ls.len() == 0 {
                if has_vars {
                    let c0 = seq![1i32];
                    let c1 = seq![-1i32];
                    assert(em[0] == c0 && em[1] == c1);
                    if clause_true(c0, ids, assignment) && clause_true(c1, ids, assignment) {
                        let k0 = choose|k: int| 0 <= k < c0.len() && #[trigger] lit_true(c0[k], ids, assignment);
                        let k1 = choose|k: int| 0 <= k < c1.len() && #[trigger] lit_true(c1[k], ids, assignment);
                    }
                    if satisfies(em, ids, assignment) {
                        assert(clause_true(em[0], ids, assignment));
                        assert(clause_true(em[1], ids, assignment));
                    }
                } else {
                    assert(em[0] == ls);
                    if satisfies(em, ids, assignment) {
                        assert(clause_true(em[0], ids, assignment));
                    }
                }
            } else {
                assert(em[0] == ls);
                if clause_true(ls, ids, assignment) {
                    assert forall|j: int| 0 <= j < em.len() implies #[trigger] clause_true(em[j], ids, assignment) by {
                        assert(j == 0);
                    }
                }
                if satisfies(em, ids, assignment) {
                    assert(clause_true(em[0], ids, assignment));
                }
            }
        },
        ClauseOutcome::Error(_) => {},
    }
}

/// The clauses of the constraints of a conjunction are satisfied if and only if all constraints are true.
proof fn lemma_constraints_meaning(ev: Seq<ExprV>, n_vars: nat, ids: Seq<VarId>, cs: Seq<ExprId>, done: Seq<Seq<VarId>>,
    value: spec_fn(ExprId) -> bool, assignment: spec_fn(VarId) -> bool)
    requires
        crate::meaning::all_valid(ev, n_vars),
        ids_valid(cs, ev.len()),
        ids.len() <= i32::MAX,
        evaluates(ev, value, assignment),
        constraints_spec(ev, remap_of(ids), cs, ids.len() > 0) == Ok::<Seq<Seq<VarId>>, ClausesError>(done),
    ensures
        satisfies(done, ids, assignment) == all_true(value, cs),
    decreases cs.len(),
{
    let has_vars = ids.len() > 0;
    let remap = remap_of(ids);
    if cs.len() > 0 {
        let init = cs.drop_last();
        let last = cs.last();
        let prev = match constraints_spec(ev, remap, init, has_vars) {
            Ok(d) => d,
            Err(_) => Seq::empty(),
        };
        assert(constraints_spec(ev, remap, init, has_vars) == Ok::<Seq<Seq<VarId>>, ClausesError>(prev));
        lemma_constraints_meaning(ev, n_vars, ids, init, prev, value, assignment);
        let o = constraint_clause(ev, remap, last);
        assert(!(o is Error));
        let em = emitted(o, has_vars);
        assert(done == prev + em);
        lemma_emitted_meaning(o, ids, assignment);
        // The constraint's clause is true if and only if the constraint is.
        assert(satisfies(em, ids, assignment) == value(last)) by {
            assert(value(last) == node_value(ev[last as int], value, assignment));
            match ev[last as int] {
                ExprV::Or(xs) => {
                    assert(expr_valid(ev[last as int], ev.len(), n_vars));
                    lemma_clause_meaning(ev, n_vars, ids, xs, value, assignment);
                },
                ExprV::And(_) => {},
                _ => {
                    let one = seq![last];
                    assert(one[0] == last);
                    lemma_clause_meaning(ev, n_vars, ids, one, value, assignment);
                    if value(last) {
                        assert(0 <= 0 < one.len() && value(one[0]));
                    }
                },
            }
        }
        assert(satisfies(done, ids, assignment) == (satisfies(prev, ids, assignment) && satisfies(em, ids, assignment))) by {
            if satisfies(done, ids, assignment) {
                assert forall|j: int| 0 <= j < prev.len() implies #[trigger] clause_true(prev[j], ids, assignment) by {
                    assert(done[j] == prev[j]);
                }
                assert forall|j: int| 0 <= j < em.len() implies #[trigger] clause_true(em[j], ids, assignment) by {
                    assert(done[prev.len() + j] == em[j]);
                }
            }
            if satisfies(prev, ids, assignment) && satisfies(em, ids, assignment) {
                assert forall|j: int| 0 <= j < done.len() implies #[trigger] clause_true(done[j], ids, assignment) by {
                    if j < prev.len() {
                        assert(done[j] == prev[j]);
                    } else {
                        assert(done[j] == em[j - prev.len()]);
                    }
                }
            }
        }
        assert(all_true(value, cs) == (all_true(value, init) && value(last))) by {
            if all_true(value, cs) {
                assert forall|i: int| 0 <= i < init.len() implies #[trigger] value(init[i]) by {
                    assert(cs[i] == init[i]);
                }
                assert(value(cs[cs.len() - 1]));
            }
            if all_true(value, init) && value(last) {
                assert forall|i: int| 0 <= i < cs.len() implies #[trigger] value(cs[i]) by {
                    if i < init.len() {
                        assert(cs[i] == init[i]);
                    }
                }
            }
        }
    }
}

/// The clauses of a formula are satisfied by an assignment if and only if the formula's root is
/// true under it.
pub proof fn lemma_clauses_meaning(ev: Seq<ExprV>, n_vars: nat, ids: Seq<VarId>, root: ExprId, cs: Seq<Seq<VarId>>,
    value: spec_fn(ExprId) -> bool, assignment: spec_fn(VarId) -> bool)
    requires
        crate::meaning::all_valid(ev, n_vars),
        root < ev.len(),
        ids.len() <= i32::MAX,
        evaluates(ev, value, assignment),
        clauses_spec(ev, remap_of(ids), root, ids.len() > 0) == Ok::<Seq<Seq<VarId>>, ClausesError>(cs),
    ensures
        value(root) == satisfies(cs, ids, assignment),
{
    let remap = remap_of(ids);
    assert(value(root) == node_value(ev[root as int], value, assignment));
    assert(expr_valid(ev[root as int], ev.len(), n_vars));
    match ev[root as int] {
        ExprV::And(xs) => {
            lemma_constraints_meaning(ev, n_vars, ids, xs, cs, value, assignment);
        },
        ExprV::Or(xs) => {
            let o = clause_spec(ev, remap, xs);
            lemma_clause_meaning(ev, n_vars, ids, xs, value, assignment);
            lemma_emitted_meaning(o, ids, assignment);
        },
        _ => {
            let one = seq![root];
            assert(one[0] == root);
            let o = clause_spec(ev, remap, one);
            lemma_clause_meaning(ev, n_vars, ids, one, value, assignment);
            lemma_emitted_meaning(o, ids, assignment);
            if value(root) {
                assert(0 <= 0 < one.len() && value(one[0]));
            }
        },
    }
}

/// The identifiers selected by a predicate are strictly increasing and within range.
pub proof fn lemma_selected_ids_increasing(p: spec_fn(VarId) -> bool, n: int)
    requires
        n <= i32::MAX + 1,
    ensures
        forall|i: int, j: int| 0 <= i < j < selected_ids(p, n).len() ==> #[trigger] selected_ids(p, n)[i] < #[trigger] selected_ids(p, n)[j],
        forall|i: int| 0 <= i < selected_ids(p, n).len() ==> 0 < #[trigger] selected_ids(p, n)[i] < n,
        selected_ids(p, n).len() <= if n < 1 { 0 } else { n - 1 },
    decreases n,
{
    if n > 1 {
        lemma_selected_ids_increasing(p, n - 1);
        assert(((n - 1) as VarId) as int == n - 1);
    }
}


/// The clauses of a vector of clause vectors.
pub open spec fn clauses_view(cs: Seq<Vec<VarId>>) -> Seq<Seq<VarId>> {
    cs.map_values(|c: Vec<VarId>| c@)
}

/// Returns what an expression contributes to a clause (see `literal_spec`).
fn literal(arena: &Arena, remap: &HashMap<VarId, VarId>, id: ExprId) -> (r: LitOutcome)
    requires
        arena.wf(),
        id < arena.exprs@.len(),
        forall|v: VarId| #[trigger] remap@.contains_key(v) ==> 0 < remap@[v] <= i32::MAX,
    ensures
        r == literal_spec(arena.ev(), remap@, id),
{
    proof {
        assert(expr_valid(arena.exprs@[id as int]@, arena.exprs@.len(), arena.vars@.len()));
    }
    match &arena.exprs[id] {
        Expr::Var(v) => match remap.get(v) {
            Some(l) => LitOutcome::Lit(*l),
            None => LitOutcome::Unknown,
        },
        Expr::Not(c) => match &arena.exprs[*c] {
            Expr::Var(v) => match remap.get(v) {
                Some(l) => LitOutcome::Lit(-*l),
                None => LitOutcome::Unknown,
            },
            Expr::Not(_) => LitOutcome::NotInCnf,
            Expr::And(cs) => if cs.len() == 0 { LitOutcome::Skip } else { LitOutcome::NotInCnf },
            Expr::Or(cs) => if cs.len() == 0 { LitOutcome::Taut } else { LitOutcome::NotInCnf },
        },
        Expr::And(cs) => if cs.len() == 0 { LitOutcome::Taut } else { LitOutcome::NotInCnf },
        Expr::Or(cs) => if cs.len() == 0 { LitOutcome::Skip } else { LitOutcome::NotInCnf },
    }
}

/// Collects the literals of a clause (see `clause_spec`); `None` stands for a tautology.
fn collect_clause(arena: &Arena, remap: &HashMap<VarId, VarId>, ids: &Vec<ExprId>) -> (r: Result<Option<Vec<VarId>>, ClausesError>)
    requires
        arena.wf(),
        ids_valid(ids@, arena.exprs@.len()),
        forall|v: VarId| #[trigger] remap@.contains_key(v) ==> 0 < remap@[v] <= i32::MAX,
    ensures
        match clause_spec(arena.ev(), remap@, ids@) {
            ClauseOutcome::Lits(ls) => r matches Ok(Some(v)) && v@ == ls,
            ClauseOutcome::Taut => r matches Ok(None),
            ClauseOutcome::Error(e) => r == Err::<Option<Vec<VarId>>, ClausesError>(e),
        },
{
    let mut lits: Vec<VarId> = Vec::new();
    let mut i: usize = 0;
    while i < ids.len()
        invariant
            arena.wf(),
            ids_valid(ids@, arena.exprs@.len()),
            forall|v: VarId| #[trigger] remap@.contains_key(v) ==> 0 < remap@[v] <= i32::MAX,
            i <= ids.len(),
            clause_spec(arena.ev(), remap@, ids@.take(i as int)) == ClauseOutcome::Lits(lits@),
        decreases ids.len() - i,
    {
        proof {
            assert(ids@.take(i + 1).drop_last() == ids@.take(i as int));
            assert(ids@.take(i + 1).last() == ids@[i as int]);
            lemma_clause_spec_prefix(arena.ev(), remap@, ids@, i + 1);
        }
        match literal(arena, remap, ids[i]) {
            LitOutcome::Lit(l) => {
                lits.push(l);
            },
            LitOutcome::Taut => {
                return Ok(None);
            },
            LitOutcome::Skip => {},
            LitOutcome::NotInCnf => {
                return Err(ClausesError::NotInCnf);
            },
            LitOutcome::Unknown => {
                return Err(ClausesError::UnknownVariable);
            },
        }
        i = i + 1;
    }
    assert(ids@.take(ids.len() as int) == ids@);
    Ok(Some(lits))
}

/// Once `constraints_spec` fails on a prefix, it fails in the same way on the whole list.
proof fn lemma_constraints_spec_prefix(ev: Seq<ExprV>, remap: Map<VarId, VarId>, cs: Seq<ExprId>, k: int, has_vars: bool)
    requires
        0 <= k <= cs.len(),
    ensures
        constraints_spec(ev, remap, cs.take(k), has_vars) is Err ==> constraints_spec(ev, remap, cs, has_vars) == constraints_spec(ev, remap, cs.take(k), has_vars),
    decreases cs.len() - k,
{
    if k < cs.len() {
        assert(cs.take(k + 1).drop_last() == cs.take(k));
        lemma_constraints_spec_prefix(ev, remap, cs, k + 1, has_vars);
    } else {
        assert(cs.take(k) == cs);
    }
}

/// Once `clause_spec` stops with a tautology or an error on a prefix, it stops there for the whole list.
proof fn lemma_clause_spec_prefix(ev: Seq<ExprV>, remap: Map<VarId, VarId>, ids: Seq<ExprId>, k: int)
    requires
        0 <= k <= ids.len(),
    ensures
        !(clause_spec(ev, remap, ids.take(k)) is Lits) ==> clause_spec(ev, remap, ids) == clause_spec(ev, remap, ids.take(k)),
    decreases ids.len() - k,
{
    if k < ids.len() {
        assert(ids.take(k + 1).drop_last() == ids.take(k));
        lemma_clause_spec_prefix(ev, remap, ids, k + 1);
    } else {
        assert(ids.take(k) == ids);
    }
}

/// Appending one clause to a list of clause vectors appends its view.
pub proof fn lemma_clauses_view_push(cs: Seq<Vec<VarId>>, c: Vec<VarId>)
    ensures
        clauses_view(cs.push(c)) == clauses_view(cs).push(c@),
{
    assert(clauses_view(cs.push(c)) =~= clauses_view(cs).push(c@));
}

/// Appends the clauses emitted for a collected clause (see `emitted`).
fn emit(out: &mut Vec<Vec<VarId>>, collected: Option<Vec<VarId>>, has_vars: bool)
    ensures
        collected matches Some(v) ==> clauses_view(final(out)@) == clauses_view(old(out)@) + emitted(ClauseOutcome::Lits(v@), has_vars),
        collected is None ==> clauses_view(final(out)@) == clauses_view(old(out)@) + emitted(ClauseOutcome::Taut, has_vars),
{
    let ghost before = out@;
    match collected {
        None => {
            if has_vars {
                let mut c: Vec<VarId> = Vec::new();
                c.push(1);
                c.push(-1);
                assert(c@ =~= seq![1i32, -1i32]);
                proof { lemma_clauses_view_push(before, c); }
                out.push(c);
                assert(clauses_view(out@) =~= clauses_view(before) + seq![seq![1i32, -1i32]]);
            } else {
                assert(clauses_view(out@) =~= clauses_view(before) + Seq::<Seq<VarId>>::empty());
            }
        },
        Some(lits) => {
            if lits.len() == 0 {
                if has_vars {
                    let mut c1: Vec<VarId> = Vec::new();
                    c1.push(1);
                    let mut c2: Vec<VarId> = Vec::new();
                    c2.push(-1);
                    assert(c1@ =~= seq![1i32]);
                    assert(c2@ =~= seq![-1i32]);
                    proof {
                        lemma_clauses_view_push(before, c1);
                        lemma_clauses_view_push(before.push(c1), c2);
                    }
                    out.push(c1);
                    out.push(c2);
                    assert(clauses_view(out@) =~= clauses_view(before) + seq![seq![1i32], seq![-1i32]]);
                } else {
                    let ghost l = lits@;
                    proof { lemma_clauses_view_push(before, lits); }
                    out.push(lits);
                    assert(l =~= Seq::<VarId>::empty());
                    assert(clauses_view(out@) =~= clauses_view(before) + seq![l]);
                }
            } else {
                let ghost l = lits@;
                proof { lemma_clauses_view_push(before, lits); }
                out.push(lits);
                assert(clauses_view(out@) =~= clauses_view(before) + seq![l]);
            }
        },
    }
}

/// The views of a list of variables.
pub open spec fn vars_view(vs: Seq<Var>) -> Seq<VarV> {
    vs.map_values(|v: Var| v@)
}

/// The variables of a clause representation: a placeholder, then the variables `ids` in order.
pub open spec fn clause_vars(vv: Seq<VarV>, ids: Seq<VarId>) -> Seq<VarV> {
    seq![VarV::Aux(0)] + ids.map_values(|v: VarId| vv[v as int])
}

/// Numbers the variables `ids` from 1, in their order.
pub open spec fn remap_of(ids: Seq<VarId>) -> Map<VarId, VarId> {
    Map::new(|v: VarId| ids.contains(v), |v: VarId| (ids.index_of(v) + 1) as VarId)
}

/// The variables of a formula, in ascending order of their identifiers.
pub open spec fn formula_var_ids(formula: &Formula, arena: &Arena) -> Seq<VarId> {
    selected_ids(|v: VarId| formula.sub_var_ids@.contains(v), arena.vars@.len() as int)
}

impl Clauses {
    /// Returns the clauses of a formula in conjunctive normal form (see `clauses_spec`).
    ///
    /// The formula's variables are numbered from 1 in ascending order of their identifiers.
    pub fn from_formula(formula: &Formula, arena: &Arena) -> (r: Result<Clauses, ClausesError>)
        requires
            arena.wf(),
            formula.valid_in(arena),
        ensures
            ({
                let ids = formula_var_ids(formula, arena);
                match clauses_spec(arena.ev(), remap_of(ids), formula.root_id, ids.len() > 0) {
                    Ok(cs) => r matches Ok(c) && clauses_view(c.clauses@) == cs
                        && vars_view(c.vars@) == clause_vars(arena.vv(), ids)
                        && c.var_remap@ == remap_of(ids),
                    Err(e) => r matches Err(e2) && e2 == e,
                }
            }),
            r matches Ok(c) ==> forall|value: spec_fn(ExprId) -> bool, assignment: spec_fn(VarId) -> bool|
                #[trigger] evaluates(arena.ev(), value, assignment)
                ==> value(formula.root_id) == satisfies(clauses_view(c.clauses@), formula_var_ids(formula, arena), assignment),
    {
        let sub = formula.sub_vars(arena);
        let ghost ids = formula_var_ids(formula, arena);
        proof {
            lemma_selected_ids_increasing(|v: VarId| formula.sub_var_ids@.contains(v), arena.vars@.len() as int);
            assert(sub@.map_values(|p: (VarId, Var)| p.0).len() == sub@.len());
        }
        let mut vars: Vec<Var> = Vec::new();
        vars.push(Var::Aux(0));
        let mut remap: HashMap<VarId, VarId> = HashMap::new();
        proof {
            assert(vars_view(vars@) =~= clause_vars(arena.vv(), ids.take(0)));
            assert(remap@ =~= remap_of(ids.take(0)));
        }
        let mut k: usize = 0;
        while k < sub.len()
            invariant
                arena.wf(),
                sub@.map_values(|p: (VarId, Var)| p.0) == ids,
                sub@.len() == ids.len(),
                forall|i: int| 0 <= i < sub@.len() ==> 0 < (#[trigger] sub@[i]).0 < arena.vars@.len() && sub@[i].1@ == arena.vv()[sub@[i].0 as int],
                forall|i: int, j: int| 0 <= i < j < ids.len() ==> #[trigger] ids[i] < #[trigger] ids[j],
                ids.len() <= arena.vars@.len(),
                k <= sub.len(),
                vars_view(vars@) == clause_vars(arena.vv(), ids.take(k as int)),
                remap@ == remap_of(ids.take(k as int)),
            decreases sub.len() - k,
        {
            let (v, var) = (sub[k].0, sub[k].1.clone());
            assert(ids[k as int] == v);
            let ghost old_vars = vars@;
            let ghost old_remap = remap@;
            let ghost var_v = sub@[k as int].1@;
            let ghost var_g = var;
            vars.push(var);
            remap.insert(v, (k + 1) as VarId);
            proof {
                let t = ids.take(k as int);
                let t2 = ids.take(k + 1);
                assert(t2 =~= t.push(v));
                assert(!t.contains(v)) by {
                    if t.contains(v) {
                        let j = choose|j: int| 0 <= j < t.len() && t[j] == v;
                        assert(ids[j] < ids[k as int]);
                    }
                }
                assert forall|x: VarId| #[trigger] t2.contains(x) <==> (t.contains(x) || x == v) by {
                    if x == v {
                        assert(t2[k as int] == v);
                    }
                    if t.contains(x) {
                        let j = choose|j: int| 0 <= j < t.len() && t[j] == x;
                        assert(t2[j] == x);
                    }
                    if t2.contains(x) && x != v {
                        let j = choose|j: int| 0 <= j < t2.len() && t2[j] == x;
                        assert(j < k);
                        assert(t[j] == x);
                    }
                }
                assert forall|x: VarId| t2.contains(x) && x != v implies t2.index_of(x) == t.index_of(x) by {
                    let i = t2.index_of(x);
                    assert(0 <= i < t2.len() && t2[i] == x);
                    assert(t.contains(x));
                    let j = t.index_of(x);
                    assert(0 <= j < t.len() && t[j] == x);
                    assert(t2[j] == x);
                    if i < j {
                        assert(ids[i] < ids[j]);
                    } else if j < i {
                        assert(ids[j] < ids[i]);
                    }
                }
                assert(t2.index_of(v) == k as int) by {
                    assert(t2[k as int] == v);
                    assert(t2.contains(v));
                    let i = t2.index_of(v);
                    assert(0 <= i < t2.len() && t2[i] == v);
                    if i < k {
                        assert(ids[i] < ids[k as int]);
                    }
                }
                assert(remap@ =~= remap_of(t2));
                assert(vars@ =~= old_vars.push(var_g));
                assert(vars_view(vars@) =~= vars_view(old_vars).push(var_v));
                assert(t2.map_values(|v: VarId| arena.vv()[v as int]) =~= t.map_values(|v: VarId| arena.vv()[v as int]).push(arena.vv()[v as int]));
                assert(vars_view(vars@) =~= clause_vars(arena.vv(), t2));
            }
            k = k + 1;
        }
        proof {
            assert(ids.take(sub.len() as int) =~= ids);
            assert forall|v: VarId| #[trigger] remap@.contains_key(v) implies 0 < remap@[v] <= i32::MAX by {
                let i = ids.index_of(v);
                assert(0 <= i < ids.len() && ids[i] == v);
            }
            assert(expr_valid(arena.exprs@[formula.root_id as int]@, arena.exprs@.len(), arena.vars@.len()));
        }
        let has_vars = sub.len() > 0;
        let mut out: Vec<Vec<VarId>> = Vec::new();
        assert(clauses_view(out@) =~= Seq::<Seq<VarId>>::empty());
        match &arena.exprs[formula.root_id] {
            Expr::And(cs) => {
                assert(cs@.take(0) =~= Seq::<ExprId>::empty());
                let mut i: usize = 0;
                while i < cs.len()
                    invariant
                        arena.wf(),
                        ids_valid(cs@, arena.exprs@.len()),
                        formula.root_id < arena.exprs@.len(),
                        arena.ev()[formula.root_id as int] == ExprV::And(cs@),
                        forall|v: VarId| #[trigger] remap@.contains_key(v) ==> 0 < remap@[v] <= i32::MAX,
                        ids == formula_var_ids(formula, arena),
                        remap@ == remap_of(ids),
                        has_vars == (ids.len() > 0),
                        i <= cs.len(),
                        constraints_spec(arena.ev(), remap@, cs@.take(i as int), has_vars) == Ok::<Seq<Seq<VarId>>, ClausesError>(clauses_view(out@)),
                    decreases cs.len() - i,
                {
                    let c = cs[i];
                    proof {
                        assert(cs@.take(i + 1).drop_last() =~= cs@.take(i as int));
                        assert(cs@.take(i + 1).last() == c);
                        assert(expr_valid(arena.exprs@[c as int]@, arena.exprs@.len(), arena.vars@.len()));
                        lemma_constraints_spec_prefix(arena.ev(), remap@, cs@, i + 1, has_vars);
                    }
                    let collected = match &arena.exprs[c] {
                        Expr::Or(lits) => collect_clause(arena, &remap, lits),
                        Expr::And(_) => {
                            assert(constraint_clause(arena.ev(), remap@, c) == ClauseOutcome::Error(ClausesError::NotInCnf));
                            assert(constraints_spec(arena.ev(), remap@, cs@.take(i + 1), has_vars) == Err::<Seq<Seq<VarId>>, ClausesError>(ClausesError::NotInCnf));
                            return Err(ClausesError::NotInCnf);
                        },
                        _ => {
                            let mut v = Vec::new();
                            v.push(c);
                            assert(v@ =~= seq![c]);
                            collect_clause(arena, &remap, &v)
                        },
                    };
                    match collected {
                        Ok(collected) => {
                            emit(&mut out, collected, has_vars);
                        },
                        Err(e) => {
                            assert(constraint_clause(arena.ev(), remap@, c) == ClauseOutcome::Error(e));
                            assert(constraints_spec(arena.ev(), remap@, cs@.take(i + 1), has_vars) == Err::<Seq<Seq<VarId>>, ClausesError>(e));
                            return Err(e);
                        },
                    }
                    i = i + 1;
                }
                assert(cs@.take(cs.len() as int) =~= cs@);
            },
            Expr::Or(cs) => {
                match collect_clause(arena, &remap, cs) {
                    Ok(collected) => {
                        emit(&mut out, collected, has_vars);
                    },
                    Err(e) => {
                        return Err(e);
                    },
                }
            },
            _ => {
                let mut v = Vec::new();
                v.push(formula.root_id);
                assert(v@ =~= seq![formula.root_id]);
                match collect_clause(arena, &remap, &v) {
                    Ok(collected) => {
                        emit(&mut out, collected, has_vars);
                    },
                    Err(e) => {
                        return Err(e);
                    },
                }
            },
        }
        let r = Clauses { clauses: out, vars, var_remap: remap };
        proof {
            let cs = clauses_view(r.clauses@);
            assert(clauses_spec(arena.ev(), remap_of(ids), formula.root_id, ids.len() > 0) == Ok::<Seq<Seq<VarId>>, ClausesError>(cs));
            crate::meaning::lemma_wf_all_valid(arena);
            assert forall|value: spec_fn(ExprId) -> bool, assignment: spec_fn(VarId) -> bool|
                #[trigger] evaluates(arena.ev(), value, assignment)
                implies value(formula.root_id) == satisfies(cs, ids, assignment) by {
                lemma_clauses_meaning(arena.ev(), arena.vars@.len(), ids, formula.root_id, cs, value, assignment);
            }
        }
        Ok(r)
    }
}

/// The comment line that names variable `i`: `c <i> <name>`.
pub open spec fn comment_line(i: nat, v: VarV, aux: Seq<char>) -> Seq<char> {
    seq!['c', ' '] + decimal(i) + seq![' '] + var_name(v, aux) + seq!['\n']
}

/// The comment lines naming the variables `1..n`.
pub open spec fn comment_lines(vars: Seq<VarV>, aux: Seq<char>, n: int) -> Seq<char>
    decreases n,
{
    if n <= 1 {
        Seq::empty()
    } else {
        comment_lines(vars, aux, n - 1) + comment_line((n - 1) as nat, vars[n - 1], aux)
    }
}

/// The literals of a clause, each followed by a space.
pub open spec fn literals_text(c: Seq<VarId>) -> Seq<char>
    decreases c.len(),
{
    if c.len() == 0 {
        Seq::empty()
    } else {
        literals_text(c.drop_last()) + signed_decimal(c.last() as int) + seq![' ']
    }
}

/// The line of a clause: its literals, then the terminating `0`.
pub open spec fn clause_line(c: Seq<VarId>) -> Seq<char> {
    literals_text(c) + seq!['0', '\n']
}

/// The lines of a list of clauses.
pub open spec fn clause_lines(cs: Seq<Seq<VarId>>) -> Seq<char>
    decreases cs.len(),
{
    if cs.len() == 0 {
        Seq::empty()
    } else {
        clause_lines(cs.drop_last()) + clause_line(cs.last())
    }
}

/// The DIMACS text of a clause representation: the variable comments, the problem line
/// `p cnf <variables> <clauses>`, and one line per clause.
pub open spec fn dimacs(vars: Seq<VarV>, aux: Seq<char>, cs: Seq<Seq<VarId>>) -> Seq<char> {
    comment_lines(vars, aux, vars.len() as int)
        + seq!['p', ' ', 'c', 'n', 'f', ' '] + decimal((vars.len() - 1) as nat)
        + seq![' '] + decimal(cs.len()) + seq!['\n']
        + clause_lines(cs)
}

/// The text of one literal of a solution: its sign and the name of its variable.
pub open spec fn solution_literal(vars: Seq<VarV>, aux: Seq<char>, l: VarId) -> Seq<char> {
    (if l > 0 { seq!['+'] } else { seq!['-'] }) + var_name(vars[if l < 0 { -(l as int) } else { l as int }], aux)
}

/// The text of a solution: its literals, separated by spaces.
pub open spec fn solution_text(vars: Seq<VarV>, aux: Seq<char>, sol: Seq<VarId>) -> Seq<char>
    decreases sol.len(),
{
    if sol.len() == 0 {
        Seq::empty()
    } else if sol.len() == 1 {
        solution_literal(vars, aux, sol[0])
    } else {
        solution_text(vars, aux, sol.drop_last()) + seq![' '] + solution_literal(vars, aux, sol.last())
    }
}

/// The absolute value of a literal.
pub open spec fn lit_abs(l: VarId) -> int {
    if l < 0 { -(l as int) } else { l as int }
}

impl Clauses {
    /// Appends the DIMACS text of this clause representation (see `dimacs`).
    pub fn push_dimacs(&self, aux: &Vec<char>, out: &mut Vec<char>)
        requires
            self.vars@.len() >= 1,
        ensures
            final(out)@ == old(out)@ + dimacs(vars_view(self.vars@), aux@, clauses_view(self.clauses@)),
    {
        let ghost vv = vars_view(self.vars@);
        let ghost start = out@;
        let mut i: usize = 1;
        while i < self.vars.len()
            invariant
                1 <= i <= self.vars@.len(),
                vv == vars_view(self.vars@),
                out@ == start + comment_lines(vv, aux@, i as int),
            decreases self.vars.len() - i,
        {
            out.push('c');
            out.push(' ');
            push_decimal(out, i as u64);
            out.push(' ');
            self.vars[i].push_name(aux, out);
            out.push('\n');
            proof {
                assert(vv[i as int] == self.vars@[i as int]@);
                assert(comment_lines(vv, aux@, i + 1) == comment_lines(vv, aux@, i as int) + comment_line(i as nat, vv[i as int], aux@));
                assert(out@ =~= start + comment_lines(vv, aux@, i + 1));
            }
            i = i + 1;
        }
        let ghost header_start = out@;
        out.push('p');
        out.push(' ');
        out.push('c');
        out.push('n');
        out.push('f');
        out.push(' ');
        push_decimal(out, (self.vars.len() - 1) as u64);
        out.push(' ');
        push_decimal(out, self.clauses.len() as u64);
        out.push('\n');
        let ghost cv = clauses_view(self.clauses@);
        assert(out@ =~= header_start + seq!['p', ' ', 'c', 'n', 'f', ' '] + decimal((vv.len() - 1) as nat)
            + seq![' '] + decimal(cv.len()) + seq!['\n']);
        let ghost body_start = out@;
        let mut j: usize = 0;
        assert(clause_lines(cv.take(0)) =~= Seq::<char>::empty()) by {
            assert(cv.take(0) =~= Seq::<Seq<VarId>>::empty());
        }
        assert(out@ =~= body_start + clause_lines(cv.take(0)));
        while j < self.clauses.len()
            invariant
                j <= self.clauses@.len(),
                cv == clauses_view(self.clauses@),
                cv.len() == self.clauses@.len(),
                out@ == body_start + clause_lines(cv.take(j as int)),
            decreases self.clauses.len() - j,
        {
            let clause = &self.clauses[j];
            let ghost line_start = out@;
            let mut k: usize = 0;
            assert(literals_text(clause@.take(0)) =~= Seq::<char>::empty()) by {
                assert(clause@.take(0) =~= Seq::<VarId>::empty());
            }
            assert(out@ =~= line_start + literals_text(clause@.take(0)));
            while k < clause.len()
                invariant
                    k <= clause@.len(),
                    out@ == line_start + literals_text(clause@.take(k as int)),
                decreases clause.len() - k,
            {
                push_signed_decimal(out, clause[k] as i64);
                out.push(' ');
                proof {
                    assert(clause@.take(k + 1).drop_last() =~= clause@.take(k as int));
                    assert(clause@.take(k + 1).last() == clause@[k as int]);
                    assert(out@ =~= line_start + literals_text(clause@.take(k + 1)));
                }
                k = k + 1;
            }
            out.push('0');
            out.push('\n');
            proof {
                assert(clause@.take(clause@.len() as int) =~= clause@);
                assert(cv[j as int] == clause@);
                assert(cv.take(j + 1).drop_last() =~= cv.take(j as int));
                assert(cv.take(j + 1).last() == cv[j as int]);
                assert(out@ =~= body_start + clause_lines(cv.take(j + 1)));
            }
            j = j + 1;
        }
        proof {
            assert(cv.take(cv.len() as int) =~= cv);
            assert(comment_lines(vv, aux@, self.vars@.len() as int) == comment_lines(vv, aux@, vv.len() as int));
            assert(out@ =~= start + dimacs(vv, aux@, cv));
        }
    }

    /// Returns the DIMACS text of this clause representation, with auxiliary variables named by
    /// their number only (see `dimacs`).
    pub fn to_string(&self) -> (r: String)
        requires
            self.vars@.len() >= 1,
        ensures
            r@ == dimacs(vars_view(self.vars@), Seq::empty(), clauses_view(self.clauses@)),
    {
        let aux: Vec<char> = Vec::new();
        let r = self.to_string_with(&aux);
        assert(aux@ =~= Seq::<char>::empty());
        r
    }

    /// Returns the DIMACS text of this clause representation, with auxiliary variables named by
    /// the prefix `aux` and their number (see `dimacs`).
    pub fn to_string_with(&self, aux: &Vec<char>) -> (r: String)
        requires
            self.vars@.len() >= 1,
        ensures
            r@ == dimacs(vars_view(self.vars@), aux@, clauses_view(self.clauses@)),
    {
        let mut out: Vec<char> = Vec::new();
        self.push_dimacs(aux, &mut out);
        assert(out@ =~= dimacs(vars_view(self.vars@), aux@, clauses_view(self.clauses@)));
        string_of(&out)
    }

    /// Returns a solution as human-readable text (see `solution_text`).
    ///
    /// Each literal is printed as its sign (`+` if positive, `-` otherwise) and the name of its variable,
    /// with the prefix `aux` for auxiliary variables.
    pub fn solution_to_string(&self, aux: &Vec<char>, solution: &Vec<VarId>) -> (r: String)
        requires
            forall|i: int| 0 <= i < solution@.len() ==> lit_abs(#[trigger] solution@[i]) < self.vars@.len(),
        ensures
            r@ == solution_text(vars_view(self.vars@), aux@, solution@),
    {
        let ghost vv = vars_view(self.vars@);
        let mut out: Vec<char> = Vec::new();
        let mut i: usize = 0;
        assert(solution@.take(0) =~= Seq::<VarId>::empty());
        while i < solution.len()
            invariant
                i <= solution@.len(),
                vv == vars_view(self.vars@),
                forall|i: int| 0 <= i < solution@.len() ==> lit_abs(#[trigger] solution@[i]) < self.vars@.len(),
                out@ == solution_text(vv, aux@, solution@.take(i as int)),
            decreases solution.len() - i,
        {
            let l = solution[i];
            let ghost before = out@;
            if i > 0 {
                out.push(' ');
            }
            if l > 0 {
                out.push('+');
            } else {
                out.push('-');
            }
            let idx: usize = if l < 0 { (-(l as i64)) as usize } else { l as usize };
            assert(lit_abs(solution@[i as int]) < self.vars@.len());
            assert(idx as int == lit_abs(l));
            self.vars[idx].push_name(aux, &mut out);
            proof {
                assert(vv[idx as int] == self.vars@[idx as int]@);
                assert(solution@.take(i + 1).drop_last() =~= solution@.take(i as int));
                assert(solution@.take(i + 1).last() == l);
                if i == 0 {
                    assert(solution@.take(1)[0] == l);
                }
                assert(out@ =~= solution_text(vv, aux@, solution@.take(i + 1)));
            }
            i = i + 1;
        }
        assert(solution@.take(solution@.len() as int) =~= solution@);
        string_of(&out)
    }
}

/// Whether the expression `x` is a literal over the variables `vars`: a variable of `vars`, its
/// negation, or a constant (an empty conjunction or disjunction, or the negation of one).
pub open spec fn is_literal(ev: Seq<ExprV>, x: ExprId, vars: Set<VarId>) -> bool {
    match ev[x as int] {
        ExprV::Var(v) => vars.contains(v),
        ExprV::Not(c) => match ev[c as int] {
            ExprV::Var(v) => vars.contains(v),
            ExprV::Not(_) => false,
            ExprV::And(gs) => gs.len() == 0,
            ExprV::Or(gs) => gs.len() == 0,
        },
        ExprV::And(cs) => cs.len() == 0,
        ExprV::Or(cs) => cs.len() == 0,
    }
}

/// Whether the expression `x` is a clause over the variables `vars`: a disjunction of literals,
/// or a literal that is no conjunction.
pub open spec fn is_clause(ev: Seq<ExprV>, x: ExprId, vars: Set<VarId>) -> bool {
    match ev[x as int] {
        ExprV::Or(ls) => forall|k: int| 0 <= k < ls.len() ==> is_literal(ev, #[trigger] ls[k], vars),
        ExprV::And(_) => false,
        _ => is_literal(ev, x, vars),
    }
}

/// Whether the expression `root` is in conjunctive normal form over the variables `vars`: a
/// conjunction of clauses, or a clause.
pub open spec fn is_cnf(ev: Seq<ExprV>, root: ExprId, vars: Set<VarId>) -> bool {
    match ev[root as int] {
        ExprV::And(cs) => forall|k: int| 0 <= k < cs.len() ==> is_clause(ev, #[trigger] cs[k], vars),
        _ => is_clause(ev, root, vars),
    }
}

/// The literals of a clause over known variables collect without error.
proof fn lemma_clause_collects(ev: Seq<ExprV>, remap: Map<VarId, VarId>, ids: Seq<ExprId>, vars: Set<VarId>)
    requires
        forall|k: int| 0 <= k < ids.len() ==> is_literal(ev, #[trigger] ids[k], vars),
        forall|v: VarId| #[trigger] vars.contains(v) ==> remap.contains_key(v),
    ensures
        !(clause_spec(ev, remap, ids) is Error),
    decreases ids.len(),
{
    if ids.len() > 0 {
        lemma_clause_collects(ev, remap, ids.drop_last(), vars);
        assert(is_literal(ev, ids[ids.len() - 1], vars));
    }
}

/// The constraints of a conjunction of clauses over known variables yield clauses.
proof fn lemma_constraints_collect(ev: Seq<ExprV>, remap: Map<VarId, VarId>, cs: Seq<ExprId>, has_vars: bool, vars: Set<VarId>)
    requires
        forall|k: int| 0 <= k < cs.len() ==> is_clause(ev, #[trigger] cs[k], vars),
        forall|v: VarId| #[trigger] vars.contains(v) ==> remap.contains_key(v),
    ensures
        constraints_spec(ev, remap, cs, has_vars) is Ok,
    decreases cs.len(),
{
    if cs.len() > 0 {
        lemma_constraints_collect(ev, remap, cs.drop_last(), has_vars, vars);
        let c = cs.last();
        assert(is_clause(ev, cs[cs.len() - 1], vars));
        match ev[c as int] {
            ExprV::Or(ls) => lemma_clause_collects(ev, remap, ls, vars),
            _ => {
                assert(is_literal(ev, seq![c][0], vars));
                lemma_clause_collects(ev, remap, seq![c], vars);
            },
        }
    }
}

/// The variables `1..n` that satisfy `p` are all selected.
pub proof fn lemma_selected_ids_complete(p: spec_fn(VarId) -> bool, n: int, v: VarId)
    requires
        0 < v < n,
        p(v),
    ensures
        selected_ids(p, n).contains(v),
    decreases n,
{
    if v < n - 1 {
        lemma_selected_ids_complete(p, n - 1, v);
        let t = selected_ids(p, n - 1);
        let k = choose|k: int| 0 <= k < t.len() && t[k] == v;
        assert(selected_ids(p, n)[k] == v);
    } else {
        assert(selected_ids(p, n).last() == v);
    }
}

/// A formula in conjunctive normal form over its variables has a clause representation.
pub proof fn law_cnf_has_clauses(formula: Formula, arena: Arena, r: Result<Clauses, ClausesError>)
    requires
        formula.valid_in(&arena),
        is_cnf(arena.ev(), formula.root_id, formula.sub_var_ids@),
        clauses_result(formula, arena, r),
    ensures
        r is Ok,
{
    let ids = formula_var_ids(&formula, &arena);
    let remap = remap_of(ids);
    let vars = formula.sub_var_ids@;
    assert forall|v: VarId| #[trigger] vars.contains(v) implies remap.contains_key(v) by {
        lemma_selected_ids_complete(|w: VarId| formula.sub_var_ids@.contains(w), arena.vars@.len() as int, v);
    }
    let root = formula.root_id;
    match arena.ev()[root as int] {
        ExprV::And(cs) => lemma_constraints_collect(arena.ev(), remap, cs, ids.len() > 0, vars),
        ExprV::Or(ls) => lemma_clause_collects(arena.ev(), remap, ls, vars),
        _ => {
            assert(is_literal(arena.ev(), seq![root][0], vars));
            lemma_clause_collects(arena.ev(), remap, seq![root], vars);
        },
    }
}

/// Whether `r` is the clause representation of `formula` in `arena`, or the error met while
/// building it (see `Clauses::from_formula`).
pub closed spec fn clauses_result(formula: Formula, arena: Arena, r: Result<Clauses, ClausesError>) -> bool {
    let ids = formula_var_ids(&formula, &arena);
    match clauses_spec(arena.ev(), remap_of(ids), formula.root_id, ids.len() > 0) {
        Ok(cs) => r matches Ok(c) && clauses_view(c.clauses@) == cs
            && vars_view(c.vars@) == clause_vars(arena.vv(), ids)
            && c.var_remap@ == remap_of(ids),
        Err(e) => r matches Err(e2) && e2 == e,
    }
}

/// A clause representation built from a formula has the placeholder variable at index 0.
pub proof fn lemma_clauses_result_vars(formula: Formula, arena: Arena, r: Result<Clauses, ClausesError>)
    requires
        clauses_result(formula, arena, r),
    ensures
        r matches Ok(c) ==> c.vars@.len() >= 1,
        r matches Ok(c) ==> (arena.wf() ==> c.vars@.len() <= i32::MAX),
        r matches Ok(c) ==> (arena.wf() ==> forall|v: VarId| #[trigger] c.var_remap@.contains_key(v) ==> 0 < c.var_remap@[v] <= i32::MAX),
{
    if let Ok(c) = r {
        let ids = formula_var_ids(&formula, &arena);
        assert(vars_view(c.vars@).len() == clause_vars(arena.vv(), ids).len());
        if arena.wf() {
            lemma_selected_ids_increasing(|v: VarId| formula.sub_var_ids@.contains(v), arena.vars@.len() as int);
            assert forall|v: VarId| #[trigger] c.var_remap@.contains_key(v) implies 0 < c.var_remap@[v] <= i32::MAX by {
                assert(ids.contains(v));
                let k = ids.index_of(v);
                assert(0 <= k < ids.len());
            }
        }
    }
}

/// A clause representation built from a formula is satisfied by an assignment of the variables
/// exactly when the formula is true under it.
pub proof fn law_clause_representation_meaning(formula: Formula, arena: Arena, r: Result<Clauses, ClausesError>)
    requires
        clauses_result(formula, arena, r),
        arena.wf(),
        formula.valid_in(&arena),
    ensures
        r matches Ok(c) ==> forall|value: spec_fn(ExprId) -> bool, assignment: spec_fn(VarId) -> bool|
            #[trigger] evaluates(arena.ev(), value, assignment)
            ==> value(formula.root_id) == satisfies(clauses_view(c.clauses@), formula_var_ids(&formula, &arena), assignment),
{
    if let Ok(c) = r {
        let ids = formula_var_ids(&formula, &arena);
        let cs = clauses_view(c.clauses@);
        lemma_selected_ids_increasing(|v: VarId| formula.sub_var_ids@.contains(v), arena.vars@.len() as int);
        crate::meaning::lemma_wf_all_valid(&arena);
        assert(ids.len() <= i32::MAX) by {
            assert(ids.len() <= arena.vars@.len());
        }
        assert forall|value: spec_fn(ExprId) -> bool, assignment: spec_fn(VarId) -> bool|
            #[trigger] evaluates(arena.ev(), value, assignment)
            implies value(formula.root_id) == satisfies(cs, ids, assignment) by {
            lemma_clauses_meaning(arena.ev(), arena.vars@.len(), ids, formula.root_id, cs, value, assignment);
        }
    }
}

/// The indices (in ascending order) of the variables in `proj`: the arena identifiers below `n`
/// that are in `proj` and in the remapping, mapped by it.
pub open spec fn projected_indices(remap: Map<VarId, VarId>, proj: Set<VarId>, n: int) -> Seq<VarId> {
    selected_ids(|v: VarId| proj.contains(v) && remap.contains_key(v), n).map_values(|v: VarId| remap[v])
}

/// The text of a list of indices, each preceded by a space.
pub open spec fn spaced_indices(xs: Seq<VarId>) -> Seq<char>
    decreases xs.len(),
{
    if xs.len() == 0 {
        Seq::empty()
    } else {
        spaced_indices(xs.drop_last()) + seq![' '] + decimal(xs.last() as nat)
    }
}

/// The DIMACS text for projected model counting: the line `c t pmc`, the DIMACS text, and the
/// line `c p show` with the indices of the variables projected to, terminated by `0`.
pub open spec fn projected_dimacs(vars: Seq<VarV>, aux: Seq<char>, cs: Seq<Seq<VarId>>, shown: Seq<VarId>) -> Seq<char> {
    "c t pmc\n"@ + dimacs(vars, aux, cs) + "c p show"@ + spaced_indices(shown) + " 0\n"@
}

impl Clauses {
    /// Returns the DIMACS text of this clause representation for projected model counting onto the
    /// arena variables `proj` (see `projected_dimacs`); variables of `proj` that this representation
    /// does not have are left out.
    pub fn to_projected_string(&self, aux: &Vec<char>, proj: &HashSet<VarId>, arena: &Arena) -> (r: String)
        requires
            self.vars@.len() >= 1,
            arena.wf(),
            forall|v: VarId| #[trigger] self.var_remap@.contains_key(v) ==> 0 < self.var_remap@[v] <= i32::MAX,
        ensures
            r@ == projected_dimacs(vars_view(self.vars@), aux@, clauses_view(self.clauses@),
                projected_indices(self.var_remap@, proj@, arena.vars@.len() as int)),
    {
        let n_vars = arena.vars.len();
        let mut out: Vec<char> = Vec::new();
        crate::text::push_str_chars(&mut out, "c t pmc\n");
        self.push_dimacs(aux, &mut out);
        crate::text::push_str_chars(&mut out, "c p show");
        let ghost start = out@;
        let ghost pred = |v: VarId| proj@.contains(v) && self.var_remap@.contains_key(v);
        let ghost shown: Seq<VarId> = Seq::empty();
        let mut i: usize = 1;
        assert(selected_ids(pred, 1) =~= Seq::<VarId>::empty());
        while i < n_vars
            invariant
                1 <= i <= n_vars,
                n_vars <= i32::MAX + 1,
                pred == (|v: VarId| proj@.contains(v) && self.var_remap@.contains_key(v)),
                forall|v: VarId| #[trigger] self.var_remap@.contains_key(v) ==> 0 < self.var_remap@[v] <= i32::MAX,
                out@ == start + spaced_indices(selected_ids(pred, i as int).map_values(|v: VarId| self.var_remap@[v])),
            decreases n_vars - i,
        {
            let v = i as VarId;
            let ghost before = selected_ids(pred, i as int).map_values(|v: VarId| self.var_remap@[v]);
            if proj.contains(&v) {
                match self.var_remap.get(&v) {
                    Some(local) => {
                        out.push(' ');
                        push_decimal(&mut out, *local as u64);
                        proof {
                            let after = selected_ids(pred, i + 1).map_values(|v: VarId| self.var_remap@[v]);
                            assert(selected_ids(pred, i + 1) == selected_ids(pred, i as int) + seq![v]);
                            assert(after =~= before.push(self.var_remap@[v]));
                            assert(after.drop_last() =~= before);
                        }
                    },
                    None => {
                        proof {
                            assert(selected_ids(pred, i + 1) =~= selected_ids(pred, i as int));
                        }
                    },
                }
            } else {
                proof {
                    assert(selected_ids(pred, i + 1) =~= selected_ids(pred, i as int));
                }
            }
            i = i + 1;
        }
        crate::text::push_str_chars(&mut out, " 0\n");
        proof {
            let shown = projected_indices(self.var_remap@, proj@, arena.vars@.len() as int);
            assert(pred == (|v: VarId| proj@.contains(v) && self.var_remap@.contains_key(v)));
            assert(out@ =~= projected_dimacs(vars_view(self.vars@), aux@, clauses_view(self.clauses@), shown));
        }
        string_of(&out)
    }
}

impl Formula {
    /// Returns the clause representation of this formula, which must be in conjunctive normal form
    /// (see `Clauses::from_formula`).
    pub fn to_clauses(&self, arena: &Arena) -> (r: Result<Clauses, ClausesError>)
        requires
            arena.wf(),
            self.valid_in(arena),
        ensures
            ({
                let ids = formula_var_ids(self, arena);
                match clauses_spec(arena.ev(), remap_of(ids), self.root_id, ids.len() > 0) {
                    Ok(cs) => r matches Ok(c) && clauses_view(c.clauses@) == cs
                        && vars_view(c.vars@) == clause_vars(arena.vv(), ids)
                        && c.var_remap@ == remap_of(ids),
                    Err(e) => r matches Err(e2) && e2 == e,
                }
            }),
            clauses_result(*self, *arena, r),
            r matches Ok(c) ==> forall|value: spec_fn(ExprId) -> bool, assignment: spec_fn(VarId) -> bool|
                #[trigger] evaluates(arena.ev(), value, assignment)
                ==> value(self.root_id) == satisfies(clauses_view(c.clauses@), formula_var_ids(self, arena), assignment),
    {
        Clauses::from_formula(self, arena)
    }
}

} // verus!

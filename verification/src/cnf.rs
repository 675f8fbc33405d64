//! A plain clause representation of a formula in conjunctive normal form, over the arena's variables.
//!
//! Unlike `Clauses`, literals refer to the arena's variable identifiers directly, and only
//! variables and negated variables are accepted as literals.

use vstd::prelude::*;
use crate::arena::{Arena, expr_valid, ids_valid};
use crate::clauses::{clauses_view, dimacs, lemma_clauses_view_push, vars_view};
use crate::expr::{Expr, ExprId, ExprV};
use crate::formula::Formula;
use crate::var::{Var, VarId, VarV};

verus! {

/// The literal an expression stands for: a variable, or a negated variable.
pub open spec fn plain_literal(ev: Seq<ExprV>, id: ExprId) -> Option<VarId> {
    match ev[id as int] {
        ExprV::Var(v) => Some(v),
        ExprV::Not(c) => match ev[c as int] {
            ExprV::Var(v) => Some((-v) as VarId),
            _ => None,
        },
        _ => None,
    }
}

/// The literals of a list of expressions, or `None` if one of them is no literal.
pub open spec fn plain_clause(ev: Seq<ExprV>, ids: Seq<ExprId>) -> Option<Seq<VarId>>
    decreases ids.len(),
{
    if ids.len() == 0 {
        Some(Seq::empty())
    } else {
        match (plain_clause(ev, ids.drop_last()), plain_literal(ev, ids.last())) {
            (Some(ls), Some(l)) => Some(ls.push(l)),
            _ => None,
        }
    }
}

/// The clause of one constraint of a conjunction: a literal, or a disjunction of literals.
pub open spec fn plain_constraint(ev: Seq<ExprV>, c: ExprId) -> Option<Seq<VarId>> {
    match ev[c as int] {
        ExprV::Or(cs) => plain_clause(ev, cs),
        ExprV::And(_) => None,
        _ => plain_clause(ev, seq![c]),
    }
}

/// The clauses of a list of constraints, or `None` if one of them is no clause.
pub open spec fn plain_constraints(ev: Seq<ExprV>, cs: Seq<ExprId>) -> Option<Seq<Seq<VarId>>>
    decreases cs.len(),
{
    if cs.len() == 0 {
        Some(Seq::empty())
    } else {
        match (plain_constraints(ev, cs.drop_last()), plain_constraint(ev, cs.last())) {
            (Some(done), Some(c)) => Some(done.push(c)),
            _ => None,
        }
    }
}

/// The clauses of a formula in conjunctive normal form with root `root`, or `None` if it is in none.
pub open spec fn plain_clauses(ev: Seq<ExprV>, root: ExprId) -> Option<Seq<Seq<VarId>>> {
    match ev[root as int] {
        ExprV::And(cs) => plain_constraints(ev, cs),
        ExprV::Or(cs) => match plain_clause(ev, cs) {
            Some(c) => Some(seq![c]),
            None => None,
        },
        _ => match plain_clause(ev, seq![root]) {
            Some(c) => Some(seq![c]),
            None => None,
        },
    }
}

/// Why a clause representation cannot be built or printed.
#[derive(Debug, PartialEq, Eq, Structural)]
pub enum CnfError {
    /// The formula is not in conjunctive normal form with plain literals.
    NotInCnf,
    /// The representation has no variables or no clauses.
    Invalid,
    /// A named variable has an empty name.
    EmptyName,
    /// A clause is empty.
    EmptyClause,
    /// A literal is 0 or refers to a variable that does not exist.
    BadLiteral,
}

/// A clause representation of a feature-model formula over the variables of its arena.
#[derive(Debug)]
pub struct CNF {
    /// The clauses: lists of literals, each a (possibly negated) variable identifier.
    pub clauses: Vec<Vec<VarId>>,
    /// The variables, indexed by the absolute values of literals.
    pub vars: Vec<Var>,
}

/// Returns the literal an expression stands for (see `plain_literal`).
fn plain_literal_exec(arena: &Arena, id: ExprId) -> (r: Option<VarId>)
    requires
        arena.wf(),
        id < arena.exprs@.len(),
    ensures
        r == plain_literal(arena.ev(), id),
{
    proof {
        assert(expr_valid(arena.exprs@[id as int]@, arena.exprs@.len(), arena.vars@.len()));
    }
    match &arena.exprs[id] {
        Expr::Var(v) => Some(*v),
        Expr::Not(c) => match &arena.exprs[*c] {
            Expr::Var(v) => {
                assert(0 <= *v < arena.vars@.len());
                Some(-*v)
            },
            _ => None,
        },
        _ => None,
    }
}

/// Returns the literals of a list of expressions (see `plain_clause`).
fn plain_clause_exec(arena: &Arena, ids: &Vec<ExprId>) -> (r: Option<Vec<VarId>>)
    requires
        arena.wf(),
        ids_valid(ids@, arena.exprs@.len()),
    ensures
        match plain_clause(arena.ev(), ids@) {
            Some(ls) => r matches Some(v) && v@ == ls,
            None => r is None,
        },
{
    let mut lits: Vec<VarId> = Vec::new();
    let mut i: usize = 0;
    assert(ids@.take(0) =~= Seq::<ExprId>::empty());
    while i < ids.len()
        invariant
            arena.wf(),
            ids_valid(ids@, arena.exprs@.len()),
            i <= ids@.len(),
            plain_clause(arena.ev(), ids@.take(i as int)) == Some(lits@),
        decreases ids.len() - i,
    {
        proof {
            assert(ids@.take(i + 1).drop_last() =~= ids@.take(i as int));
            assert(ids@.take(i + 1).last() == ids@[i as int]);
            lemma_plain_clause_prefix(arena.ev(), ids@, i + 1);
        }
        match plain_literal_exec(arena, ids[i]) {
            Some(l) => {
                lits.push(l);
            },
            None => {
                return None;
            },
        }
        i = i + 1;
    }
    assert(ids@.take(ids@.len() as int) =~= ids@);
    Some(lits)
}

/// Once `plain_clause` fails on a prefix, it fails on the whole list.
proof fn lemma_plain_clause_prefix(ev: Seq<ExprV>, ids: Seq<ExprId>, k: int)
    requires
        0 <= k <= ids.len(),
    ensures
        plain_clause(ev, ids.take(k)) is None ==> plain_clause(ev, ids) is None,
    decreases ids.len() - k,
{
    if k < ids.len() {
        assert(ids.take(k + 1).drop_last() =~= ids.take(k));
        lemma_plain_clause_prefix(ev, ids, k + 1);
    } else {
        assert(ids.take(k) =~= ids);
    }
}

/// Once `plain_constraints` fails on a prefix, it fails on the whole list.
proof fn lemma_plain_constraints_prefix(ev: Seq<ExprV>, cs: Seq<ExprId>, k: int)
    requires
        0 <= k <= cs.len(),
    ensures
        plain_constraints(ev, cs.take(k)) is None ==> plain_constraints(ev, cs) is None,
    decreases cs.len() - k,
{
    if k < cs.len() {
        assert(cs.take(k + 1).drop_last() =~= cs.take(k));
        lemma_plain_constraints_prefix(ev, cs, k + 1);
    } else {
        assert(cs.take(k) =~= cs);
    }
}

impl CNF {
    /// Returns the clauses of a formula in conjunctive normal form (see `plain_clauses`), or
    /// `NotInCnf` if it is in none.
    #[verifier::loop_isolation(false)]
    pub fn get_clauses(formula: &Formula, arena: &Arena) -> (r: Result<Vec<Vec<VarId>>, CnfError>)
        requires
            arena.wf(),
            formula.valid_in(arena),
        ensures
            match plain_clauses(arena.ev(), formula.root_id) {
                Some(cs) => r matches Ok(v) && clauses_view(v@) == cs,
                None => r == Err::<Vec<Vec<VarId>>, CnfError>(CnfError::NotInCnf),
            },
    {
        proof {
            assert(expr_valid(arena.exprs@[formula.root_id as int]@, arena.exprs@.len(), arena.vars@.len()));
        }
        let mut out: Vec<Vec<VarId>> = Vec::new();
        match &arena.exprs[formula.root_id] {
            Expr::And(cs) => {
                let mut i: usize = 0;
                assert(cs@.take(0) =~= Seq::<ExprId>::empty());
                assert(clauses_view(out@) =~= Seq::<Seq<VarId>>::empty());
                while i < cs.len()
                    invariant
                        arena.wf(),
                        ids_valid(cs@, arena.exprs@.len()),
                        i <= cs@.len(),
                        plain_constraints(arena.ev(), cs@.take(i as int)) == Some(clauses_view(out@)),
                    decreases cs.len() - i,
                {
                    let c = cs[i];
                    proof {
                        assert(cs@.take(i + 1).drop_last() =~= cs@.take(i as int));
                        assert(cs@.take(i + 1).last() == c);
                        assert(expr_valid(arena.exprs@[c as int]@, arena.exprs@.len(), arena.vars@.len()));
                        lemma_plain_constraints_prefix(arena.ev(), cs@, i + 1);
                    }
                    let clause = match &arena.exprs[c] {
                        Expr::Or(lits) => plain_clause_exec(arena, lits),
                        Expr::And(_) => None,
                        _ => {
                            let mut v = Vec::new();
                            v.push(c);
                            assert(v@ =~= seq![c]);
                            plain_clause_exec(arena, &v)
                        },
                    };
                    match clause {
                        Some(cl) => {
                            proof {
                                lemma_clauses_view_push(out@, cl);
                            }
                            out.push(cl);
                        },
                        None => {
                            assert(plain_constraint(arena.ev(), c) is None);
                            assert(plain_constraints(arena.ev(), cs@.take(i + 1)) is None);
                            return Err(CnfError::NotInCnf);
                        },
                    }
                    i = i + 1;
                }
                assert(cs@.take(cs@.len() as int) =~= cs@);
            },
            Expr::Or(cs) => {
                match plain_clause_exec(arena, cs) {
                    Some(cl) => {
                        proof {
                            lemma_clauses_view_push(out@, cl);
                        }
                        out.push(cl);
                        assert(clauses_view(out@) =~= seq![cl@]);
                    },
                    None => {
                        return Err(CnfError::NotInCnf);
                    },
                }
            },
            _ => {
                let mut v = Vec::new();
                v.push(formula.root_id);
                assert(v@ =~= seq![formula.root_id]);
                match plain_clause_exec(arena, &v) {
                    Some(cl) => {
                        proof {
                            lemma_clauses_view_push(out@, cl);
                        }
                        out.push(cl);
                        assert(clauses_view(out@) =~= seq![cl@]);
                    },
                    None => {
                        return Err(CnfError::NotInCnf);
                    },
                }
            },
        }
        Ok(out)
    }

    /// Returns the clause representation of a formula in conjunctive normal form, over all
    /// variables of the arena.
    pub fn from_formula(formula: &Formula, arena: &Arena) -> (r: Result<CNF, CnfError>)
        requires
            arena.wf(),
            formula.valid_in(arena),
        ensures
            match plain_clauses(arena.ev(), formula.root_id) {
                Some(cs) => r matches Ok(c) && clauses_view(c.clauses@) == cs && vars_view(c.vars@) == arena.vv(),
                None => r == Err::<CNF, CnfError>(CnfError::NotInCnf),
            },
    {
        let clauses = match CNF::get_clauses(formula, arena) {
            Ok(c) => c,
            Err(e) => {
                return Err(e);
            },
        };
        let mut vars: Vec<Var> = Vec::new();
        let mut i: usize = 0;
        while i < arena.vars.len()
            invariant
                i <= arena.vars@.len(),
                vars@.len() == i,
                vars_view(vars@) == arena.vv().take(i as int),
            decreases arena.vars.len() - i,
        {
            let ghost before = vars@;
            let v = arena.vars[i].clone();
            let ghost vg = v;
            vars.push(v);
            proof {
                assert(vars@ =~= before.push(vg));
                assert(vars_view(vars@) =~= arena.vv().take(i + 1));
            }
            i = i + 1;
        }
        assert(arena.vv().take(arena.vars@.len() as int) =~= arena.vv());
        Ok(CNF { clauses, vars })
    }

    /// Returns whether this representation has variables and clauses.
    pub fn is_valid(&self) -> (r: bool)
        ensures
            r == (self.vars@.len() > 0 && self.clauses@.len() > 0),
    {
        self.vars.len() > 0 && self.clauses.len() > 0
    }

    /// Returns the DIMACS text of this representation (see `dimacs`).
    ///
    /// Fails with `Invalid` if it has no variables or no clauses, with `EmptyName` if a named
    /// variable other than variable 0 has an empty name, with `EmptyClause` if a clause is empty,
    /// and with `BadLiteral` if a literal is 0 or refers to no variable.
    #[verifier::loop_isolation(false)]
    pub fn to_string(&self) -> (r: Result<String, CnfError>)
        ensures
            !(self.vars@.len() > 0 && self.clauses@.len() > 0) ==> r == Err::<String, CnfError>(CnfError::Invalid),
            (self.vars@.len() > 0 && self.clauses@.len() > 0) ==> {
                if exists|i: int| 1 <= i < self.vars@.len() && #[trigger] vars_view(self.vars@)[i] == VarV::Named(Seq::<char>::empty()) {
                    r == Err::<String, CnfError>(CnfError::EmptyName)
                } else if exists|i: int| 0 <= i < self.clauses@.len() && #[trigger] self.clauses@[i]@.len() == 0 {
                    r == Err::<String, CnfError>(CnfError::EmptyClause)
                } else if exists|i: int, k: int| 0 <= i < self.clauses@.len() && 0 <= k < self.clauses@[i]@.len()
                    && !(0 < lit_abs(#[trigger] self.clauses@[i]@[k]) < self.vars@.len()) {
                    r == Err::<String, CnfError>(CnfError::BadLiteral)
                } else {
                    r matches Ok(s) && s@ == dimacs(vars_view(self.vars@), Seq::empty(), clauses_view(self.clauses@))
                }
            },
    {
        if !self.is_valid() {
            return Err(CnfError::Invalid);
        }
        let mut i: usize = 1;
        while i < self.vars.len()
            invariant
                1 <= i <= self.vars@.len(),
                forall|j: int| 1 <= j < i ==> #[trigger] vars_view(self.vars@)[j] != VarV::Named(Seq::<char>::empty()),
            decreases self.vars.len() - i,
        {
            let empty = match &self.vars[i] {
                Var::Named(n) => {
                    let e = n.as_str().unicode_len() == 0;
                    if e {
                        assert(n@ =~= Seq::<char>::empty());
                    }
                    e
                },
                Var::Aux(_) => false,
            };
            if empty {
                assert(vars_view(self.vars@)[i as int] == VarV::Named(Seq::<char>::empty()));
                return Err(CnfError::EmptyName);
            }
            i = i + 1;
        }
        let mut j: usize = 0;
        while j < self.clauses.len()
            invariant
                j <= self.clauses@.len(),
                forall|x: int| 0 <= x < j ==> #[trigger] self.clauses@[x]@.len() != 0,
            decreases self.clauses.len() - j,
        {
            if self.clauses[j].len() == 0 {
                return Err(CnfError::EmptyClause);
            }
            j = j + 1;
        }
        j = 0;
        while j < self.clauses.len()
            invariant
                j <= self.clauses@.len(),
                forall|x: int, k: int| 0 <= x < j && 0 <= k < self.clauses@[x]@.len() ==> 0 < #[trigger] lit_abs(self.clauses@[x]@[k]) < self.vars@.len(),
            decreases self.clauses.len() - j,
        {
            let c = &self.clauses[j];
            let mut k: usize = 0;
            while k < c.len()
                invariant
                    j < self.clauses@.len(),
                    c@ == self.clauses@[j as int]@,
                    k <= c@.len(),
                    forall|x: int, k: int| 0 <= x < j && 0 <= k < self.clauses@[x]@.len() ==> 0 < #[trigger] lit_abs(self.clauses@[x]@[k]) < self.vars@.len(),
                    forall|y: int| 0 <= y < k ==> 0 < #[trigger] lit_abs(c@[y]) < self.vars@.len(),
                decreases c.len() - k,
            {
                let l = c[k];
                let a: u64 = if l < 0 { (-(l as i64)) as u64 } else { l as u64 };
                if l == 0 || a >= self.vars.len() as u64 {
                    assert(!(0 < lit_abs(self.clauses@[j as int]@[k as int]) < self.vars@.len()));
                    return Err(CnfError::BadLiteral);
                }
                k = k + 1;
            }
            j = j + 1;
        }
        let clauses = crate::clauses::Clauses {
            clauses: copy_clauses(&self.clauses),
            vars: copy_vars(&self.vars),
            var_remap: std::collections::HashMap::new(),
        };
        assert(vars_view(clauses.vars@).len() == vars_view(self.vars@).len());
        Ok(clauses.to_string())
    }
}

/// The absolute value of a literal.
pub open spec fn lit_abs(l: VarId) -> int {
    if l < 0 { -(l as int) } else { l as int }
}

/// Returns a copy of a list of clauses.
fn copy_clauses(cs: &Vec<Vec<VarId>>) -> (r: Vec<Vec<VarId>>)
    ensures
        clauses_view(r@) == clauses_view(cs@),
{
    let mut r: Vec<Vec<VarId>> = Vec::new();
    let mut i: usize = 0;
    while i < cs.len()
        invariant
            i <= cs@.len(),
            clauses_view(r@) == clauses_view(cs@).take(i as int),
        decreases cs.len() - i,
    {
        let c = cs[i].clone();
        proof {
            lemma_clauses_view_push(r@, c);
        }
        r.push(c);
        assert(clauses_view(r@) =~= clauses_view(cs@).take(i + 1));
        i = i + 1;
    }
    assert(clauses_view(cs@).take(cs@.len() as int) =~= clauses_view(cs@));
    r
}

/// Returns a copy of a list of variables.
fn copy_vars(vs: &Vec<Var>) -> (r: Vec<Var>)
    ensures
        vars_view(r@) == vars_view(vs@),
{
    let mut r: Vec<Var> = Vec::new();
    let mut i: usize = 0;
    while i < vs.len()
        invariant
            i <= vs@.len(),
            r@.len() == i,
            vars_view(r@) == vars_view(vs@).take(i as int),
        decreases vs.len() - i,
    {
        let ghost before = r@;
        let v = vs[i].clone();
        let ghost vg = v;
        r.push(v);
        assert(r@ =~= before.push(vg));
        assert(vars_view(r@) =~= vars_view(vs@).take(i + 1));
        i = i + 1;
    }
    assert(vars_view(vs@).take(vs@.len() as int) =~= vars_view(vs@));
    r
}

} // verus!

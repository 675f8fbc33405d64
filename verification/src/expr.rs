//! Expressions of an arena.

use vstd::prelude::*;
use crate::var::VarId;

verus! {

/// Identifier type for expressions.
///
/// Serves as an index into the expressions of an arena.
pub type ExprId = usize;

/// An expression in an arena.
///
/// Only propositional primitives are allowed.
/// Children refer to expressions of the same arena by their identifiers.
#[derive(Debug)]
pub enum Expr {
    /// A propositional variable.
    Var(VarId),
    /// A negation of an expression.
    Not(ExprId),
    /// A conjunction of expressions.
    And(Vec<ExprId>),
    /// A disjunction of expressions.
    Or(Vec<ExprId>),
}

/// The mathematical model of an expression.
pub enum ExprV {
    Var(VarId),
    Not(ExprId),
    And(Seq<ExprId>),
    Or(Seq<ExprId>),
}

impl View for Expr {
    type V = ExprV;

    open spec fn view(&self) -> ExprV {
        match self {
            Expr::Var(v) => ExprV::Var(*v),
            Expr::Not(c) => ExprV::Not(*c),
            Expr::And(cs) => ExprV::And(cs@),
            Expr::Or(cs) => ExprV::Or(cs@),
        }
    }
}

/// The identifiers of the children of an expression (none for a variable).
pub open spec fn children(e: ExprV) -> Seq<ExprId> {
    match e {
        ExprV::Var(_) => Seq::empty(),
        ExprV::Not(c) => seq![c],
        ExprV::And(cs) => cs,
        ExprV::Or(cs) => cs,
    }
}

/// Mixes a number into a running hash value.
pub open spec fn mix(h: u64, x: u64) -> u64 {
    ((h as nat * 1099511628211nat + x as nat) % 18446744073709551616nat) as u64
}

/// The hash of a sequence of identifiers, folded from a seed.
pub open spec fn hash_ids(seed: u64, ids: Seq<ExprId>) -> u64
    decreases ids.len(),
{
    if ids.len() == 0 {
        seed
    } else {
        mix(hash_ids(seed, ids.drop_last()), ids.last() as u64)
    }
}

/// The hash of an expression, used to look up its identifier.
pub open spec fn expr_hash(e: ExprV) -> u64 {
    match e {
        ExprV::Var(v) => mix(1, v as u32 as u64),
        ExprV::Not(c) => mix(2, c as u64),
        ExprV::And(cs) => hash_ids(3, cs),
        ExprV::Or(cs) => hash_ids(4, cs),
    }
}

/// Mixes a number into a running hash value.
pub fn mix_exec(h: u64, x: u64) -> (r: u64)
    ensures
        r == mix(h, x),
{
    let p: u128 = (h as u128) * 1099511628211u128 + (x as u128);
    (p % 18446744073709551616u128) as u64
}

fn hash_ids_exec(seed: u64, ids: &Vec<ExprId>) -> (r: u64)
    ensures
        r == hash_ids(seed, ids@),
{
    let mut h = seed;
    let mut i: usize = 0;
    while i < ids.len()
        invariant
            i <= ids.len(),
            h == hash_ids(seed, ids@.take(i as int)),
        decreases ids.len() - i,
    {
        assert(ids@.take(i + 1).drop_last() == ids@.take(i as int));
        h = mix_exec(h, ids[i] as u64);
        i = i + 1;
    }
    assert(ids@.take(ids.len() as int) == ids@);
    h
}

impl Clone for Expr {
    fn clone(&self) -> (r: Self)
        ensures
            r@ == self@,
    {
        match self {
            Expr::Var(v) => Expr::Var(*v),
            Expr::Not(c) => Expr::Not(*c),
            Expr::And(cs) => Expr::And(cs.clone()),
            Expr::Or(cs) => Expr::Or(cs.clone()),
        }
    }
}

fn ids_eq(a: &Vec<ExprId>, b: &Vec<ExprId>) -> (r: bool)
    ensures
        r == (a@ == b@),
{
    if a.len() != b.len() {
        return false;
    }
    let mut i: usize = 0;
    while i < a.len()
        invariant
            i <= a.len(),
            a.len() == b.len(),
            forall|j: int| 0 <= j < i ==> a@[j] == b@[j],
        decreases a.len() - i,
    {
        if a[i] != b[i] {
            return false;
        }
        i = i + 1;
    }
    assert(a@ =~= b@);
    true
}

impl Expr {
    /// Calculates the hash of this expression.
    pub fn calc_hash(&self) -> (r: u64)
        ensures
            r == expr_hash(self@),
    {
        match self {
            Expr::Var(v) => mix_exec(1, *v as u32 as u64),
            Expr::Not(c) => mix_exec(2, *c as u64),
            Expr::And(cs) => hash_ids_exec(3, cs),
            Expr::Or(cs) => hash_ids_exec(4, cs),
        }
    }

    /// Returns the identifiers of the children of this expression.
    ///
    /// A variable has no children.
    pub fn children(&self) -> (r: Vec<ExprId>)
        ensures
            r@ == children(self@),
    {
        match self {
            Expr::Var(_) => Vec::new(),
            Expr::Not(c) => {
                let mut v = Vec::new();
                v.push(*c);
                assert(v@ =~= seq![*c]);
                v
            },
            Expr::And(cs) => cs.clone(),
            Expr::Or(cs) => cs.clone(),
        }
    }

    /// Returns whether two expressions are equal (same kind and same children or variable).
    pub fn equals(&self, other: &Expr) -> (r: bool)
        ensures
            r == (self@ == other@),
    {
        match (self, other) {
            (Expr::Var(a), Expr::Var(b)) => *a == *b,
            (Expr::Not(a), Expr::Not(b)) => *a == *b,
            (Expr::And(a), Expr::And(b)) => ids_eq(a, b),
            (Expr::Or(a), Expr::Or(b)) => ids_eq(a, b),
            _ => false,
        }
    }
}

} // verus!

//! An ordered list of feature-model formulas that share one arena.

use vstd::prelude::*;
use crate::arena::Arena;
use crate::formula::{Formula, FormulaRef};

verus! {

/// An ordered list of feature-model formulas with their shared arena, for parsing and transforming
/// several related formulas at once with structural sharing.
pub struct FormulaVec {
    /// The arena of all formulas.
    pub arena: Arena,
    /// The formulas, in the order they were added.
    pub formulas: Vec<Formula>,
}

impl FormulaVec {
    /// Creates an empty list with a new arena.
    pub fn new() -> (r: Self)
        ensures
            r.arena.wf(),
            r.arena.ev() == seq![crate::expr::ExprV::Var(0)],
            r.formulas@.len() == 0,
    {
        FormulaVec { arena: Arena::new(), formulas: Vec::new() }
    }

    /// Returns the most recently added formula; the list must not be empty.
    pub fn last(&self) -> (r: &Formula)
        requires
            self.formulas@.len() > 0,
        ensures
            *r == self.formulas@.last(),
    {
        &self.formulas[self.formulas.len() - 1]
    }

    /// Returns the most recently added formula for modification; the list must not be empty.
    pub fn last_mut(&mut self) -> (r: &mut Formula)
        requires
            old(self).formulas@.len() > 0,
        ensures
            *r == old(self).formulas@.last(),
            final(self).formulas@ == old(self).formulas@.update(old(self).formulas@.len() - 1, *final(r)),
            final(self).arena == old(self).arena,
    {
        let n = self.formulas.len() - 1;
        &mut self.formulas[n]
    }

    /// Returns the most recently added formula together with the arena; the list must not be empty.
    pub fn last_ref(&self) -> (r: FormulaRef<'_>)
        requires
            self.formulas@.len() > 0,
        ensures
            *r.formula == self.formulas@.last(),
            *r.arena == self.arena,
    {
        self.last().as_ref(&self.arena)
    }
}

} // verus!

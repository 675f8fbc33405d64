//! The decisions of the `diff` command: which option combinations conflict, which model counts and
//! queries to compute, and how the answers of the solver and the counts are combined.

use vstd::prelude::*;
use crate::count_inc::{big, big_add, big_parse, is_big};
use crate::diff::DiffTransform;
use crate::shell::DiffArgs;
use crate::text::{chars_of, string_of};

verus! {

/// A conflict between the options of the `diff` command.
#[derive(Clone, Copy, Debug, PartialEq, Eq, Structural)]
pub enum DiffOptionError {
    /// `--count` together with `--projected-count`.
    CountAndProjectedCount,
    /// `--satisfy` together with `--count` or `--projected-count`.
    SatisfyAndCount,
    /// `--satisfy` without `--negate`.
    SatisfyWithoutNegate,
    /// `--simplified` without both `--satisfy` and `--dist`.
    SimplifiedWithoutSatisfyDist,
    /// `--projected-count` together with `--uvl` or `--xml`.
    ProjectedCountSerialization,
}

/// The first conflict among the options, in the order in which they are checked.
pub open spec fn first_conflict(count: bool, projected_count: bool, satisfy: bool, negate: bool, simplified: bool,
    cnf_dist: bool, uvl: bool, xml: bool) -> Option<DiffOptionError> {
    if count && projected_count {
        Some(DiffOptionError::CountAndProjectedCount)
    } else if (count || projected_count) && satisfy {
        Some(DiffOptionError::SatisfyAndCount)
    } else if satisfy && !negate {
        Some(DiffOptionError::SatisfyWithoutNegate)
    } else if simplified && (!satisfy || !cnf_dist) {
        Some(DiffOptionError::SimplifiedWithoutSatisfyDist)
    } else if projected_count && (uvl || xml) {
        Some(DiffOptionError::ProjectedCountSerialization)
    } else {
        None
    }
}

/// The first conflict among the options of `args` (see `first_conflict`).
pub open spec fn args_conflict(args: &DiffArgs) -> Option<DiffOptionError> {
    first_conflict(args.count, args.projected_count, args.satisfy, args.negate, args.simplified, args.cnf_dist, args.uvl, args.xml)
}

/// Checks the options of the `diff` command; fails with the first conflict.
pub fn check_diff_options(args: &DiffArgs) -> (r: Result<(), DiffOptionError>)
    ensures
        r is Ok <==> args_conflict(args) is None,
        r matches Err(e) ==> args_conflict(args) == Some(e),
{
    if args.count && args.projected_count {
        Err(DiffOptionError::CountAndProjectedCount)
    } else if (args.count || args.projected_count) && args.satisfy {
        Err(DiffOptionError::SatisfyAndCount)
    } else if args.satisfy && !args.negate {
        Err(DiffOptionError::SatisfyWithoutNegate)
    } else if args.simplified && (!args.satisfy || !args.cnf_dist) {
        Err(DiffOptionError::SimplifiedWithoutSatisfyDist)
    } else if args.projected_count && (args.uvl || args.xml) {
        Err(DiffOptionError::ProjectedCountSerialization)
    } else {
        Ok(())
    }
}

/// The variables to which projected model counts project.
#[derive(Clone, Copy, Debug, PartialEq, Eq, Structural)]
pub enum Projection {
    /// No projection.
    Nothing,
    /// The variables common to both formulas (both sides are sliced).
    Common,
    /// The variables of the right (fixed) formula (only the left side is sliced).
    Right,
    /// The variables of the left (fixed) formula (only the right side is sliced).
    Left,
}

/// What the `diff` command computes, decided from its options and from which sides are sliced.
pub struct DiffPlan {
    /// The CNF transformation applied before counting or solving.
    pub transform: DiffTransform,
    /// Whether the left formula (and its slice) is counted.
    pub count_left: bool,
    /// Whether the right formula (and its slice) is counted.
    pub count_right: bool,
    /// The projection of the counts of common, removed and added solutions.
    pub projection: Projection,
    /// Whether the removed solutions are counted or solved for (with negation).
    pub compute_removed: bool,
    /// Whether the added solutions are counted or solved for (with negation).
    pub compute_added: bool,
    /// Whether the removed and added solutions come from simplified reasoning.
    pub simplified: bool,
    /// Whether the removed and added counts are derived from the other counts (without negation).
    pub derived: bool,
}

/// Decides what the `diff` command computes; `a_slice` and `b_slice` say whether each side is sliced.
///
/// With projected counting, the removed count is unsound when the right side is sliced and the
/// added count when the left side is sliced; they are computed anyway only with `--unsafe`.
pub fn diff_plan(args: &DiffArgs, a_slice: bool, b_slice: bool) -> (r: DiffPlan)
    ensures
        r.transform == (if args.cnf_dist { DiffTransform::Dist } else { DiffTransform::Tseitin }),
        r.count_left == ((args.count || args.projected_count) && (a_slice || !args.negate)),
        r.count_right == ((args.count || args.projected_count) && (b_slice || !args.negate)),
        r.projection == (if !args.projected_count { Projection::Nothing } else if a_slice && b_slice { Projection::Common }
            else if a_slice { Projection::Right } else if b_slice { Projection::Left } else { Projection::Nothing }),
        r.compute_removed == (!(args.projected_count && b_slice) || args.is_unsafe),
        r.compute_added == (!(args.projected_count && a_slice) || args.is_unsafe),
        r.simplified == (args.negate && args.satisfy && args.simplified),
        r.derived == (!args.negate && (args.count || args.projected_count)),
{
    let counting = args.count || args.projected_count;
    let projection = if !args.projected_count {
        Projection::Nothing
    } else if a_slice && b_slice {
        Projection::Common
    } else if a_slice {
        Projection::Right
    } else if b_slice {
        Projection::Left
    } else {
        Projection::Nothing
    };
    DiffPlan {
        transform: if args.cnf_dist { DiffTransform::Dist } else { DiffTransform::Tseitin },
        count_left: counting && (a_slice || !args.negate),
        count_right: counting && (b_slice || !args.negate),
        projection,
        compute_removed: !(args.projected_count && b_slice) || args.is_unsafe,
        compute_added: !(args.projected_count && a_slice) || args.is_unsafe,
        simplified: args.negate && args.satisfy && args.simplified,
        derived: !args.negate && counting,
    }
}

/// The result of one direction of simplified reasoning from the solver's answers to its queries,
/// in order (the solver is asked until one query is satisfiable): "1" if some query is
/// satisfiable, "0" otherwise.
pub fn direction_result(answers: &Vec<bool>) -> (r: String)
    ensures
        r@ == (if exists|i: int| 0 <= i < answers@.len() && #[trigger] answers@[i] { seq!['1'] } else { seq!['0'] }),
{
    let mut i: usize = 0;
    while i < answers.len()
        invariant
            i <= answers@.len(),
            forall|k: int| 0 <= k < i ==> !#[trigger] answers@[k],
        decreases answers.len() - i,
    {
        if answers[i] {
            let mut v: Vec<char> = Vec::new();
            v.push('1');
            assert(v@ == seq!['1']);
            return string_of(&v);
        }
        i = i + 1;
    }
    let mut v: Vec<char> = Vec::new();
    v.push('0');
    assert(v@ == seq!['0']);
    string_of(&v)
}

/// The sign of a model count as `BigInt::from_str` reads it: -1, 0 or 1.
pub fn count_sign(count: &str) -> (r: i8)
    requires
        is_big(count@),
    ensures
        r < 0 <==> big(count@) < 0,
        r == 0 <==> big(count@) == 0,
        r > 0 <==> big(count@) > 0,
{
    let t = match big_parse(count) { Some(t) => t, None => String::new() };
    crate::diff::sign_of_text(&t)
}

/// Whether the impact of slicing on one side can be computed: the side has variables of its own
/// and both the formula's and its slice's counts are positive.
pub fn slice_ratio_defined(vars: u32, count: &str, sliced: &str) -> (r: bool)
    requires
        is_big(count@),
        is_big(sliced@),
    ensures
        r == (vars > 0 && big(count@) > 0 && big(sliced@) > 0),
{
    vars > 0 && count_sign(count) > 0 && count_sign(sliced) > 0
}

/// Whether the fractions of common, removed and added solutions can be computed: no count is
/// negative (unknown).
pub fn fractions_defined(common: &str, removed: &str, added: &str) -> (r: bool)
    requires
        is_big(common@),
        is_big(removed@),
        is_big(added@),
    ensures
        r == (big(common@) >= 0 && big(removed@) >= 0 && big(added@) >= 0),
{
    count_sign(common) >= 0 && count_sign(removed) >= 0 && count_sign(added) >= 0
}

/// The number of solutions in the union of both formulas: common, removed and added solutions.
pub fn union_count(common: &str, removed: &str, added: &str) -> (r: String)
    requires
        is_big(common@),
        is_big(removed@),
        is_big(added@),
    ensures
        r@ == crate::text::signed_decimal(big(common@) + big(removed@) + big(added@)),
{
    let s = big_add(common, removed);
    proof {
        crate::count_inc::lemma_big_value_of_decimal(big(common@) + big(removed@));
    }
    big_add(&s, added)
}

} // verus!

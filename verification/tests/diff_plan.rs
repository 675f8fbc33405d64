//! Tests of the decisions of the `diff` command.

use clausy::arena::Arena;
use clausy::diff::DiffTransform;
use clausy::diff_plan::{
    check_diff_options, diff_plan, direction_result, fractions_defined, slice_ratio_defined, union_count,
    DiffOptionError, Projection,
};
use clausy::expr::Expr::And;
use clausy::formula::Formula;
use clausy::shell::{DiffArgs, DiffMode};

fn args() -> DiffArgs {
    DiffArgs {
        left: DiffMode::Slice,
        right: DiffMode::Slice,
        count: false,
        projected_count: false,
        satisfy: false,
        simplified: false,
        cnf_dist: false,
        negate: false,
        is_unsafe: false,
        output: None,
        variables: false,
        constraints: false,
        uvl: false,
        xml: false,
        cnf: false,
        no_header: false,
        variable_map: None,
    }
}

#[test]
fn diff_options_conflicts_are_reported_in_order() {
    assert_eq!(check_diff_options(&args()), Ok(()));
    let mut a = args();
    a.count = true;
    a.projected_count = true;
    a.satisfy = true;
    assert_eq!(check_diff_options(&a), Err(DiffOptionError::CountAndProjectedCount));
    let mut a = args();
    a.count = true;
    a.satisfy = true;
    assert_eq!(check_diff_options(&a), Err(DiffOptionError::SatisfyAndCount));
    let mut a = args();
    a.satisfy = true;
    assert_eq!(check_diff_options(&a), Err(DiffOptionError::SatisfyWithoutNegate));
    let mut a = args();
    a.satisfy = true;
    a.negate = true;
    a.simplified = true;
    assert_eq!(check_diff_options(&a), Err(DiffOptionError::SimplifiedWithoutSatisfyDist));
    a.cnf_dist = true;
    assert_eq!(check_diff_options(&a), Ok(()));
    let mut a = args();
    a.projected_count = true;
    a.xml = true;
    assert_eq!(check_diff_options(&a), Err(DiffOptionError::ProjectedCountSerialization));
}

#[test]
fn diff_plan_follows_options_and_slicing() {
    let mut a = args();
    a.projected_count = true;
    a.negate = true;
    let plan = diff_plan(&a, true, false);
    assert_eq!(plan.transform, DiffTransform::Tseitin);
    assert!(plan.count_left);
    assert!(!plan.count_right);
    assert_eq!(plan.projection, Projection::Right);
    assert!(plan.compute_removed);
    assert!(!plan.compute_added);
    assert!(!plan.simplified);
    assert!(!plan.derived);
    a.is_unsafe = true;
    a.cnf_dist = true;
    let plan = diff_plan(&a, true, true);
    assert_eq!(plan.transform, DiffTransform::Dist);
    assert_eq!(plan.projection, Projection::Common);
    assert!(plan.compute_removed && plan.compute_added);
    let mut a = args();
    a.count = true;
    let plan = diff_plan(&a, false, false);
    assert!(plan.derived && plan.count_left && plan.count_right);
    assert_eq!(plan.projection, Projection::Nothing);
}

#[test]
fn direction_result_is_one_when_some_query_is_satisfiable() {
    assert_eq!(direction_result(&vec![]), "0");
    assert_eq!(direction_result(&vec![false, false]), "0");
    assert_eq!(direction_result(&vec![false, true]), "1");
}

#[test]
fn count_tests_and_union() {
    assert!(slice_ratio_defined(2, "8", "4"));
    assert!(!slice_ratio_defined(0, "8", "4"));
    assert!(!slice_ratio_defined(2, "0", "4"));
    assert!(!slice_ratio_defined(2, "8", "-1"));
    assert!(fractions_defined("0", "3", "10"));
    assert!(!fractions_defined("1", "-1", "2"));
    assert_eq!(union_count("5", "3", "-2"), "6");
}

#[test]
fn proto_cnf_needs_a_nonempty_conjunction_root() {
    let mut arena = Arena::new();
    let a = arena.var_expr("a".to_string());
    let literal = Formula::new(arena.var_ids(), a, None);
    assert!(!literal.is_proto_cnf(&arena));
    let empty = arena.expr(And(vec![]));
    let empty_and = Formula::new(arena.var_ids(), empty, None);
    assert!(!empty_and.is_proto_cnf(&arena));
}

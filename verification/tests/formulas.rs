//! Tests of parsing, transforming and printing feature-model formulas.

use std::collections::HashSet;

use clausy::arena::Arena;
use clausy::expr::Expr::{And, Not, Or};
use clausy::file::File;
use clausy::formula::Formula;
use clausy::parser::parser;
use clausy::parser::sat_inline::SatInlineFormulaParser;
use clausy::var::{Var, VarId};

fn parse_into(arena: &mut Arena, name: &str, contents: &str, extension: &str) -> Formula {
    arena
        .parse(
            File::new(name.to_string(), contents.to_string()),
            parser(Some(extension.to_string())),
        )
        .unwrap()
}

fn parse_new(name: &str, contents: &str, extension: &str) -> (Arena, Formula) {
    let mut arena = Arena::new();
    let formula = parse_into(&mut arena, name, contents, extension);
    (arena, formula)
}

fn formula_string(formula: &Formula, arena: &Arena) -> String {
    formula.as_ref(arena).to_string()
}

fn parse_model_new(name: &str, contents: &str) -> (Arena, Formula) {
    parse_new(name, contents, "model")
}

fn parse_sat_new(name: &str, contents: &str) -> (Arena, Formula) {
    parse_new(name, contents, "sat")
}

fn parse_cnf_new(name: &str, contents: &str) -> (Arena, Formula) {
    parse_new(name, contents, "cnf")
}

#[test]
// Checks canonicalization for commutative operators.
fn arena_expr_deduplicates_commutative_operands() {
    let mut arena = Arena::new();
    let a = arena.var_expr("a".to_string());
    let b = arena.var_expr("b".to_string());
    let or_ab = arena.expr(Or(vec![a, b]));
    let or_ba = arena.expr(Or(vec![b, a]));

    assert_eq!(or_ab, or_ba);
}

#[test]
// Checks simplification of double negation.
fn arena_expr_simplifies_double_negation() {
    let mut arena = Arena::new();
    let a = arena.var_expr("a".to_string());
    let not_a = arena.expr(Not(a));
    let not_not_a = arena.expr(Not(not_a));

    assert_eq!(a, not_not_a);
}

#[test]
// Checks SAT comment-variable mapping.
fn sat_parser_uses_comment_variable_names() {
    let sat = "c 1 feature_a\nc 2 feature_b\np sat 2 *(1 -(2))";
    let (arena, formula) = parse_sat_new("test.sat", sat);

    assert_eq!(
        formula_string(&formula, &arena),
        "And(feature_a, Not(feature_b))"
    );
}

#[test]
// Checks CNF parser structure for clauses with positive/negative literals.
fn cnf_parser_builds_expected_formula_structure() {
    let cnf = "c 1 a\nc 2 b\np cnf 2 2\n1 -2 0\n2 0\n";
    let (arena, formula) = parse_cnf_new("test.cnf", cnf);
    let rendered = formula_string(&formula, &arena);

    assert_eq!(rendered, "And(b, Or(a, Not(b)))");
}

#[test]
// Checks CNF parser compatibility with projection comments after clauses.
fn cnf_parser_accepts_trailing_projection_comment_line() {
    let cnf = "p cnf 2 2\n1 -2 0\n2 0\nc p show 1 2 0\n";
    let (arena, formula) = parse_cnf_new("test.dimacs", cnf);
    let rendered = formula_string(&formula, &arena);

    assert_eq!(rendered, "And(2, Or(1, Not(2)))");
}

#[test]
// Checks model parser support for `<unsupported>`.
fn model_parser_handles_unsupported_literal() {
    let model = "# comment\n(def(a)&<unsupported>)\n";
    let (arena, formula) = parse_model_new("test.model", model);

    assert_eq!(formula_string(&formula, &arena), "And(a, <unsupported>)");
}

#[test]
// Checks inline SAT parser references (and simplifies) previous formulas correctly.
fn sat_inline_parser_can_reference_previous_formulas() {
    let mut arena = Arena::new();
    let f1 = parse_into(&mut arena, "a.sat", "c 1 a\np sat 1 1", "sat");
    let f2 = parse_into(&mut arena, "b.sat", "c 1 b\np sat 1 -(1)", "sat");

    let formulas = vec![f1.clone(), f2.clone()];
    let inline = SatInlineFormulaParser::new(&formulas, None)
        .parse_into(&"+(1 -2)".to_string(), &mut arena)
        .unwrap();

    assert_eq!(formula_string(&inline, &arena), "Or(a, b)");
}

#[test]
// Checks NNF conversion pushes negation to leaves.
fn to_nnf_pushes_negations_to_leaves() {
    let sat = "c 1 a\nc 2 b\np sat 2 -(*(1 2))";
    let (mut arena, mut formula) = parse_sat_new("nnf.sat", sat);

    formula.to_nnf(&mut arena);

    assert_eq!(formula_string(&formula, &arena), "Or(Not(a), Not(b))");
}

#[test]
// Checks distributive CNF conversion.
fn to_cnf_dist_distributes_or_over_and() {
    let sat = "c 1 a\nc 2 b\nc 3 c\np sat 3 +(*(1 2) 3)";
    let (mut arena, mut formula) = parse_sat_new("cnf_dist.sat", sat);

    formula.to_cnf_dist(&mut arena);

    assert_eq!(formula_string(&formula, &arena), "And(Or(a, c), Or(b, c))");
}

#[test]
// Checks Tseitin CNF introduces auxiliary variables.
fn to_cnf_tseitin_adds_auxiliary_variables() {
    let sat = "c 1 a\nc 2 b\nc 3 c\np sat 3 +(*(1 2) 3)";
    let (mut arena, mut formula) = parse_sat_new("cnf_tseitin.sat", sat);
    let before = formula.sub_var_ids.len();

    formula.to_cnf_tseitin(true, &mut arena);

    assert!(formula.sub_var_ids.len() > before);
    let has_aux = formula.sub_var_ids.iter().any(|id| {
        let idx: usize = (*id)
            .try_into()
            .expect("sub-variable id should fit into usize");
        matches!(arena.vars[idx], Var::Aux(_))
    });
    assert!(has_aux);
}

#[test]
// Checks selective constraint removal.
fn remove_constraints_drops_constraints_with_removed_variables() {
    let sat = "c 1 a\nc 2 b\np sat 2 *(+(1 2) 1)";
    let (mut arena, formula) = parse_sat_new("remove.sat", sat);

    let b_id: VarId = arena
        .get_var_named("b".to_string())
        .expect("named variable 'b' should exist");

    let mut remove_ids = HashSet::new();
    remove_ids.insert(b_id);
    let reduced = formula.remove_constraints(&remove_ids, &mut arena);

    assert_eq!(formula_string(&reduced, &arena), "a");
}

#[test]
// Checks diff partitioning on variables and constraints.
fn diff_vars_and_constraints_report_expected_partition() {
    let mut arena = Arena::new();
    let a = parse_into(
        &mut arena,
        "left.sat",
        "c 1 a\nc 2 b\np sat 2 *(1 +(1 2))",
        "sat",
    );
    let b = parse_into(
        &mut arena,
        "right.sat",
        "c 1 a\nc 2 c\np sat 2 *(1 +(1 2))",
        "sat",
    );

    let (common_vars, left_vars, right_vars) = a.diff_vars(&b);
    assert_eq!(common_vars.len(), 1);
    assert_eq!(left_vars.len(), 1);
    assert_eq!(right_vars.len(), 1);

    let (common_constraints, left_constraints, right_constraints) =
        a.diff_constraints(&b, &mut arena);
    assert_eq!(common_constraints.len(), 1);
    assert_eq!(left_constraints.len(), 1);
    assert_eq!(right_constraints.len(), 1);
}

#[test]
// Checks DIMACS serialization basics.
fn clauses_render_dimacs_with_zero_terminated_clauses() {
    let sat = "c 1 a\nc 2 b\np sat 2 *(+(1 -2) 2)";
    let (arena, formula) = parse_sat_new("clauses.sat", sat);
    let dimacs = formula.to_clauses(&arena).unwrap().to_string();

    assert!(dimacs.contains("p cnf 2 2"));

    let clause_lines: Vec<&str> = dimacs
        .lines()
        .filter(|line| !line.starts_with("c ") && !line.starts_with("p "))
        .collect();
    assert_eq!(clause_lines.len(), 2);
    assert!(clause_lines.iter().all(|line| line.ends_with(" 0")));
}

#[test]
// Checks parser regression scenario with comments/spacing/nesting.
fn parser_simple_legacy_scenario() {
    let model = "# comment
            (def(x)|def(y))
            # coaoeu
            def( ab )
            !def(n)
            (def( abc)& !(def(x)|def(y))   & def( bb ))";
    let (arena, formula) = parse_model_new("legacy.model", model);
    let rendered = formula_string(&formula, &arena);
    assert_eq!(
        rendered,
        "And(Or(x, y), ab, Not(n), And(Not(Or(x, y)), abc, bb))"
    );
}

#[test]
// Checks NNF base case.
fn nnf_not_a() {
    let (mut arena, mut formula) = parse_model_new("not_a.model", "!def(a)");
    formula.to_nnf(&mut arena);
    assert_eq!(formula_string(&formula, &arena), "Not(a)");
}

#[test]
// Checks NNF double-negation case.
fn nnf_not_not_a() {
    let (mut arena, mut formula) = parse_model_new("not_not_a.model", "!!def(a)");
    formula.to_nnf(&mut arena);
    assert_eq!(formula_string(&formula, &arena), "a");
}

#[test]
// Checks NNF idempotence.
fn nnf_complex_is_idempotent() {
    let model = "((!def(a))&(((def(c)|!def(a)))|((def(a))&(def(c)|!(def(a)|def(b))))))";
    let (mut arena, mut formula) = parse_model_new("nnf_complex.model", model);
    formula.to_nnf(&mut arena);
    let once = formula_string(&formula, &arena);
    formula.to_nnf(&mut arena);
    let twice = formula_string(&formula, &arena);
    assert_eq!(once, twice);
}

#[test]
// Checks shared-subexpression case for NNF.
fn nnf_shared_expression_no_panic() {
    let model = "((((!(def(a))&def(a)))&(!(!(def(a))&def(a))))&((!(!(def(a))&def(a)))&(!((def(a))&def(a)))))";
    let (mut arena, mut formula) = parse_model_new("nnf_shared.model", model);
    formula.to_nnf(&mut arena);
    let printed = formula_string(&formula, &arena);
    assert_eq!(printed, "And(Not(a), Or())");
}

#[test]
// Checks simple distributive CNF shape.
fn cnf_dist_simple_legacy_shape() {
    let sat = "c 1 a\nc 2 b\np sat 2 *(1 +(1 2))";
    let (mut arena, mut formula) = parse_sat_new("cnf_simple.sat", sat);
    formula.to_cnf_dist(&mut arena);
    assert_eq!(formula_string(&formula, &arena), "And(a, Or(a, b))");
}

#[test]
// Checks CNF idempotence.
fn cnf_dist_idempotent() {
    let sat = "c 1 a\nc 2 b\nc 3 c\np sat 3 *(+(1 2) +(1 3))";
    let (mut arena, mut formula) = parse_sat_new("cnf_idempotent.sat", sat);
    formula.to_cnf_dist(&mut arena);
    let once = formula_string(&formula, &arena);
    formula.to_cnf_dist(&mut arena);
    let twice = formula_string(&formula, &arena);
    assert_eq!(once, twice);
}

#[test]
// Checks shared-subexpression case for CNF distribution.
fn cnf_dist_shared_expression_no_panic() {
    let sat = "c 1 a\np sat 1 *(-(1) -(-(1)))";
    let (mut arena, mut formula) = parse_sat_new("cnf_shared.sat", sat);
    formula.to_cnf_dist(&mut arena);
    let printed = formula_string(&formula, &arena);
    assert_eq!(printed, "Or()");
}

#[test]
// Checks CNF rendering.
fn cnf_legacy_simple_line_shape() {
    let sat =
        "c 1 x\nc 2 y\nc 3 ab\nc 4 n\nc 5 abc\nc 6 bb\np sat 6 *(+(1 2) 3 -(4) *(5 -(+(1 2)) 6))";
    let (mut arena, mut formula) = parse_sat_new("legacy_cnf.sat", sat);
    formula.to_cnf_dist(&mut arena);
    let dimacs = formula.to_clauses(&arena).unwrap().to_string();
    assert_eq!(
        dimacs,
        "c 1 x\nc 2 y\nc 3 ab\nc 4 n\nc 5 abc\nc 6 bb\np cnf 6 7\n-1 0\n-2 0\n3 0\n-4 0\n5 0\n6 0\n1 2 0\n"
    );
}

#[test]
// Checks canonicalization flattens nested same-kind operators.
fn to_canon_flattens_nested_ands() {
    let mut arena = Arena::new();
    let a = arena.var_expr("a".to_string());
    let b = arena.var_expr("b".to_string());
    let c = arena.var_expr("c".to_string());
    let inner = arena.expr(And(vec![a, b]));
    let root = arena.expr(And(vec![inner, c]));
    let mut formula = Formula::new(arena.var_ids(), root, None);

    formula.to_canon(&mut arena);

    assert_eq!(formula_string(&formula, &arena), "And(a, b, c)");
}

#[test]
// Checks forcing foreign variables as assumptions while excluding selected vars.
fn force_foreign_vars_respects_exclusions() {
    let mut arena = Arena::new();
    let a_formula = parse_into(&mut arena, "a.sat", "c 1 a\np sat 1 1", "sat");
    let _b_expr = arena.var_expr("b".to_string());
    let _c_expr = arena.var_expr("c".to_string());
    let b_id = arena
        .get_var_named("b".to_string())
        .expect("named variable 'b' should exist");
    let c_id = arena
        .get_var_named("c".to_string())
        .expect("named variable 'c' should exist");

    let mut exclude_ids = HashSet::new();
    exclude_ids.insert(c_id);
    let forced = a_formula.force_foreign_vars(false, &exclude_ids, &mut arena);

    assert_eq!(formula_string(&forced, &arena), "And(a, Not(b))");
    assert!(forced.sub_var_ids.contains(&b_id));
    assert!(!forced.sub_var_ids.contains(&c_id));
}

#[test]
// Checks variable-set operations and boolean composition helpers.
fn vars_set_ops_and_formula_composition_behave_as_expected() {
    let mut arena = Arena::new();
    let left = parse_into(&mut arena, "left.sat", "c 1 a\np sat 1 1", "sat");
    let right = parse_into(&mut arena, "right.sat", "c 1 b\np sat 1 1", "sat");

    let common = left.common_vars(&right);
    let all = left.all_vars(&right);
    let left_only = left.except_vars(&right);
    let right_only = right.except_vars(&left);
    assert!(common.is_empty());
    assert_eq!(all.len(), 2);
    assert_eq!(left_only.len(), 1);
    assert_eq!(right_only.len(), 1);

    let conjunction = left.and(&right, &mut arena);
    let implication = left.implies(&right, &mut arena);
    assert_eq!(formula_string(&conjunction, &arena), "And(a, b)");
    assert_eq!(formula_string(&implication, &arena), "And(a, Not(b))");
}

#[test]
// Checks clause conversion edge-case for contradiction with no variables.
fn clauses_render_empty_contradiction_without_variables() {
    let mut arena = Arena::new();
    let root = arena.expr(Or(vec![]));
    let formula = Formula::new(HashSet::new(), root, None);

    let dimacs = formula.to_clauses(&arena).unwrap().to_string();

    assert_eq!(dimacs, "p cnf 0 1\n0\n");
}

#[test]
// Checks clause conversion edge-case for tautology with no variables.
fn clauses_render_empty_tautology_without_variables() {
    let mut arena = Arena::new();
    let root = arena.expr(And(vec![]));
    let formula = Formula::new(HashSet::new(), root, None);

    let dimacs = formula.to_clauses(&arena).unwrap().to_string();

    assert_eq!(dimacs, "p cnf 0 0\n");
}

#[test]
// Checks that transforming one formula keeps the meaning of another formula sharing its arena.
fn to_nnf_keeps_meaning_of_shared_formula() {
    let mut arena = Arena::new();
    let mut first = parse_into(&mut arena, "first.sat", "c 1 a\nc 2 b\np sat 2 -(*(1 2))", "sat");
    let second = parse_into(&mut arena, "second.sat", "c 1 a\nc 2 b\nc 3 c\np sat 3 +(3 -(*(1 2)))", "sat");
    assert_eq!(formula_string(&second, &arena), "Or(Not(And(a, b)), c)");
    first.to_nnf(&mut arena);
    assert_eq!(formula_string(&first, &arena), "Or(Not(a), Not(b))");
    assert_eq!(formula_string(&second, &arena), "Or(Or(Not(a), Not(b)), c)");
}

#[test]
// Checks the clauses of Tseitin's transformation of a small formula.
fn to_cnf_tseitin_clauses_of_small_formula() {
    let sat = "c 1 a\nc 2 b\nc 3 c\np sat 3 +(*(1 2) 3)";
    let (mut arena, mut formula) = parse_sat_new("tseitin_small.sat", sat);
    formula.to_cnf_tseitin(true, &mut arena);
    let dimacs = formula.to_clauses(&arena).unwrap().to_string();
    // `4` abbreviates `a & b` and `5` the root: exactly the 5 models of `(a & b) | c`, each extended uniquely.
    assert_eq!(
        dimacs,
        "c 1 a\nc 2 b\nc 3 c\nc 4 1\nc 5 2\np cnf 5 7\n5 0\n1 -4 0\n2 -4 0\n-1 -2 4 0\n3 4 -5 0\n-3 5 0\n-4 5 0\n"
    );
}

#[test]
// Checks that the sub-expressions of a formula are exactly those reachable from its root, root first.
fn sub_exprs_lists_reachable_expressions() {
    let mut arena = Arena::new();
    let a = arena.var_expr("a".to_string());
    let b = arena.var_expr("b".to_string());
    let c = arena.var_expr("c".to_string());
    let not_b = arena.expr(Not(b));
    let root = arena.expr(And(vec![a, not_b]));
    let _unrelated = arena.expr(Or(vec![a, c]));
    let mut formula = Formula::new(arena.var_ids(), root, None);

    let ids = formula.sub_exprs(&mut arena);

    assert_eq!(ids[0], root);
    let set: HashSet<usize> = ids.iter().cloned().collect();
    let expected: HashSet<usize> = [root, a, not_b, b].iter().cloned().collect();
    assert_eq!(ids.len(), 4);
    assert_eq!(set, expected);
    assert!(formula.assert_shared(&mut arena));
}

#[test]
// Checks that storing an expression twice gives the same identifier and does not grow the arena,
// and that a double negation is stored as the negated expression itself.
fn expr_stores_each_expression_once() {
    let mut arena = Arena::new();
    let a = arena.var_expr("a".to_string());
    let b = arena.var_expr("b".to_string());
    let first = arena.expr(And(vec![a, b]));
    let len = arena.exprs.len();
    let second = arena.expr(And(vec![b, a]));
    assert_eq!(first, second);
    assert_eq!(arena.exprs.len(), len);
    let not_a = arena.expr(Not(a));
    assert_eq!(arena.expr(Not(not_a)), a);
    assert_eq!(arena.var_expr("a".to_string()), a);
}

#[test]
// Checks that a formula in conjunctive normal form over its variables has a clause representation.
fn formulas_in_cnf_have_clauses() {
    let mut arena = Arena::new();
    let (a, va) = arena.var_expr_with_id("a".to_string());
    let (b, vb) = arena.var_expr_with_id("b".to_string());
    let not_b = arena.expr(Not(b));
    let not_a = arena.expr(Not(a));
    let clause = arena.expr(Or(vec![a, not_b]));
    let root = arena.expr(And(vec![clause, not_a]));
    let mut vars: HashSet<VarId> = HashSet::new();
    vars.insert(va);
    vars.insert(vb);
    let formula = Formula::new(vars, root, None);

    let dimacs = formula.to_clauses(&arena).unwrap().to_string();

    assert!(dimacs.starts_with("c 1 a\nc 2 b\np cnf 2 2\n"));
    assert!(dimacs.contains("1 -2 0\n"));
    assert!(dimacs.contains("-1 0\n"));
}

#[test]
// Checks that Tseitin's transformation adds one auxiliary variable per conjunction and disjunction.
fn to_cnf_tseitin_adds_one_variable_per_junction() {
    let sat = "c 1 a\nc 2 b\nc 3 c\np sat 3 *(+(1 2) +(1 2 3))";
    let (mut arena, mut formula) = parse_sat_new("tseitin_count.sat", sat);
    formula.to_cnf_tseitin(true, &mut arena);
    let dimacs = formula.to_clauses(&arena).unwrap().to_string();
    assert!(dimacs.starts_with("c 1 a\nc 2 b\nc 3 c\nc 4 1\nc 5 2\nc 6 3\np cnf 6 "));
}

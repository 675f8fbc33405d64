//! Scenario tests of the library: laws on concrete values, error variants and text formats.

use std::collections::HashSet;

use clausy::arena::Arena;
use clausy::clauses::Clauses;
use clausy::cnf::{CnfError, CNF};
use clausy::count_inc::{count_inc_queries, count_inc_result, read_count, CountIncCounts};
use clausy::command::{command_line, shell_escape};
use clausy::diff::{
    apply_var_maps, check_var_maps, classify, diff_clauses, format_count, removed_added, to_cnf_file_dist,
    DiffTransform, VarMap, VarMapError,
};
use clausy::simplified::simplified_queries;
use clausy::expr::Expr::{And, Not, Or};
use clausy::file::File;
use clausy::formula::Formula;
use clausy::formula_vec::FormulaVec;
use clausy::io::{
    format_panic_message, slice_var_names, name_from_io, name_to_io, to_uvl_string, to_xml_string, uvl_add_vars, uvl_append,
    uvl_remove_constraints, xml_with_constraints,
};
use clausy::parser::{parser, ParseError, ParserKind};
use clausy::shell::{options, DiffMode};
use clausy::shell_text::{config_args, parse_variable_map, variable_names, MapLineError};
use clausy::solver::{parse_count, parse_satisfiable, parse_solution, parse_solution_line};
use clausy::var::Var;

fn parse(arena: &mut Arena, name: &str, contents: &str, extension: &str) -> Result<Formula, ParseError> {
    arena.parse(
        File::new(name.to_string(), contents.to_string()),
        parser(Some(extension.to_string())),
    )
}

fn sat_formula(arena: &mut Arena, contents: &str) -> Formula {
    parse(arena, "t.sat", contents, "sat").unwrap()
}

fn var_id(arena: &Arena, name: &str) -> i32 {
    arena.get_var_named(name.to_string()).unwrap()
}

fn chars(s: &str) -> Vec<char> {
    s.chars().collect()
}

#[test]
fn expr_ignores_child_order_and_repetition() {
    let mut arena = Arena::new();
    let a = arena.var_expr("a".to_string());
    let b = arena.var_expr("b".to_string());
    let c = arena.var_expr("c".to_string());
    let first = arena.expr(And(vec![a, b, c]));
    let second = arena.expr(And(vec![c, a, b, a]));
    assert_eq!(first, second);
    let or_first = arena.expr(Or(vec![b, c]));
    let or_second = arena.expr(Or(vec![c, b, c]));
    assert_eq!(or_first, or_second);
    assert_ne!(first, or_first);
}

#[test]
fn double_negation_of_conjunction_gives_conjunction() {
    let mut arena = Arena::new();
    let a = arena.var_expr("a".to_string());
    let b = arena.var_expr("b".to_string());
    let and_ab = arena.expr(And(vec![a, b]));
    let not_and = arena.expr(Not(and_ab));
    let not_not_and = arena.expr(Not(not_and));
    assert_eq!(not_not_and, and_ab);
}

#[test]
fn formula_prints_the_same_after_arena_grows() {
    let mut arena = Arena::new();
    let first = sat_formula(&mut arena, "c 1 a\nc 2 b\np sat 2 *(+(1 -(2)) 2)");
    let before = first.as_ref(&arena).to_string();
    let _second = sat_formula(&mut arena, "c 1 c\nc 2 a\np sat 2 +(1 -(2))");
    let after = first.as_ref(&arena).to_string();
    assert_eq!(before, "And(b, Or(a, Not(b)))");
    assert_eq!(before, after);
}

#[test]
fn variables_partition_into_common_and_own() {
    let mut arena = Arena::new();
    let left = sat_formula(&mut arena, "c 1 a\nc 2 b\np sat 2 *(1 2)");
    let right = sat_formula(&mut arena, "c 1 b\nc 2 c\np sat 2 *(1 2)");
    let (common, only_left, only_right) = left.diff_vars(&right);
    assert_eq!(common, HashSet::from([var_id(&arena, "b")]));
    assert_eq!(only_left, HashSet::from([var_id(&arena, "a")]));
    assert_eq!(only_right, HashSet::from([var_id(&arena, "c")]));
    assert_eq!(left.all_vars(&right), HashSet::from([var_id(&arena, "a"), var_id(&arena, "b"), var_id(&arena, "c")]));
    assert_eq!(left.common_vars(&right), right.common_vars(&left));
    assert_eq!(left.except_vars(&right), only_left);
}

#[test]
fn formula_prints_auxiliary_variables_with_prefix() {
    let mut arena = Arena::new();
    let mut formula = sat_formula(&mut arena, "c 1 a\nc 2 b\nc 3 c\np sat 3 +(*(1 2) 3)");
    formula.to_cnf_tseitin(true, &mut arena);
    let plain = formula.as_ref(&arena).to_string();
    let prefixed = formula.as_ref(&arena).to_string_with(&chars("_aux_"));
    assert!(plain.contains("And("));
    assert!(prefixed.contains("_aux_1"));
    assert!(!plain.contains("_aux_"));
}

#[test]
fn sat_parser_reports_syntax_error() {
    let mut arena = Arena::new();
    let result = parse(&mut arena, "bad.sat", "p sat 1 *(1", "sat");
    assert_eq!(result.err(), Some(ParseError::Syntax));
}

#[test]
fn sat_parser_reports_undeclared_variable() {
    let mut arena = Arena::new();
    let result = parse(&mut arena, "bad.sat", "p sat 2 *(1 3)", "sat");
    assert_eq!(result.err(), Some(ParseError::UnknownVariable));
}

#[test]
fn cnf_parser_reports_wrong_clause_count() {
    let mut arena = Arena::new();
    let result = parse(&mut arena, "bad.cnf", "p cnf 2 2\n1 -2 0\n", "cnf");
    assert_eq!(result.err(), Some(ParseError::ClauseCount));
}

#[test]
fn featureide_formats_need_conversion() {
    let mut arena = Arena::new();
    let result = parse(&mut arena, "m.uvl", "features\n\ta\n", "uvl");
    assert_eq!(result.err(), Some(ParseError::Unsupported));
}

#[test]
fn parser_is_chosen_by_extension() {
    assert!(matches!(parser(None), ParserKind::Sat));
    assert!(matches!(parser(Some("sat".to_string())), ParserKind::Sat));
    assert!(matches!(parser(Some("model".to_string())), ParserKind::Model));
    assert!(matches!(parser(Some("cnf".to_string())), ParserKind::Cnf));
    assert!(matches!(parser(Some("dimacs".to_string())), ParserKind::Cnf));
    match parser(Some("xml".to_string())) {
        ParserKind::Io(ext) => assert_eq!(ext, "xml"),
        other => panic!("unexpected parser {:?}", other),
    }
}

#[test]
fn file_extension_is_text_after_last_dot() {
    assert_eq!(File::new("dir/a.model".to_string(), String::new()).extension(), Some("model".to_string()));
    assert_eq!(File::new("-.uvl".to_string(), String::new()).extension(), Some("uvl".to_string()));
    assert_eq!(File::new("noext".to_string(), String::new()).extension(), None);
}

#[test]
fn diff_mode_reads_all_forms() {
    assert!(matches!(DiffMode::from_str("slice"), Ok(DiffMode::Slice)));
    assert!(matches!(
        DiffMode::from_str("true"),
        Ok(DiffMode::Fixed { default: true, true_file: None, false_file: None })
    ));
    assert!(matches!(
        DiffMode::from_str("false"),
        Ok(DiffMode::Fixed { default: false, true_file: None, false_file: None })
    ));
    match DiffMode::from_str("false,,dead.txt") {
        Ok(DiffMode::Fixed { default, true_file, false_file }) => {
            assert!(!default);
            assert_eq!(true_file, None);
            assert_eq!(false_file, Some("dead.txt".to_string()));
        }
        other => panic!("unexpected {:?}", other),
    }
    match DiffMode::from_str("true,core.txt,a,b") {
        Ok(DiffMode::Fixed { default, true_file, false_file }) => {
            assert!(default);
            assert_eq!(true_file, Some("core.txt".to_string()));
            assert_eq!(false_file, Some("a,b".to_string()));
        }
        other => panic!("unexpected {:?}", other),
    }
}

#[test]
fn diff_mode_rejects_unknown_forms() {
    let expected = "invalid diff mode 'maybe'; expected 'slice', 'true', 'false', \
                    'true,<true-file>,<false-file>', or 'false,<true-file>,<false-file>'";
    match DiffMode::from_str("maybe") {
        Err(e) => assert_eq!(e, expected),
        other => panic!("unexpected {:?}", other),
    }
    assert!(DiffMode::from_str("yes,a,b").is_err());
    assert!(DiffMode::from_str("true,a").is_err());
}

#[test]
fn names_are_escaped_for_featureide_and_back() {
    let name = "a=b:c.d,e/f\\g h-i";
    let escaped = name_to_io(name);
    assert_eq!(
        escaped,
        "a__EQUALS__b__COLON__c__DOT__d__COMMA__e__SLASH__f__BACKSLASH__g__SPACE__h__DASH__i"
    );
    assert_eq!(name_from_io(&escaped), name);
    assert_eq!(name_to_io("plain_name"), "plain_name");
}

#[test]
fn uvl_constraints_are_replaced() {
    let uvl = "features\n\tRoot\n\nconstraints\n\tRoot\n";
    assert_eq!(uvl_remove_constraints(uvl), "features\n\tRoot");
    assert_eq!(uvl_remove_constraints("  features\n\tRoot  \n"), "features\n\tRoot");
    assert_eq!(uvl_append(uvl, "constraints\n\t!Root"), "features\n\tRoot\nconstraints\n\t!Root");
}

#[test]
fn uvl_variables_are_listed_as_abstract_features() {
    let vars = vec![Var::Named("x".to_string()), Var::Aux(2)];
    assert_eq!(
        uvl_add_vars("Extra", &vars, &chars("_aux_")),
        "\t\tmandatory\n\t\t\t\"Extra\" {abstract}\n\t\t\t\toptional\n\t\t\t\t\t\"x\" {abstract}\n\t\t\t\t\t\"_aux_2\" {abstract}\n"
    );
}

#[test]
fn clauses_serialize_to_uvl_and_xml() {
    let mut arena = Arena::new();
    let formula = sat_formula(&mut arena, "c 1 a\nc 2 b\np sat 2 *(+(1 -(2)) 2)");
    let clauses = formula.to_clauses(&arena).unwrap();
    assert_eq!(clauses.to_string(), "c 1 a\nc 2 b\np cnf 2 2\n2 0\n1 -2 0\n");
    assert_eq!(
        to_uvl_string(&clauses, &Vec::new()),
        "\t\tmandatory\n\t\t\t\"Auxiliary Variables\" {abstract}\n\t\t\t\toptional\n\n\nconstraints\n\t\"b\"\n\t\"a\" | !\"b\""
    );
    assert_eq!(
        to_xml_string(&clauses, &Vec::new()),
        "\t<constraints>\n\t\t<rule><disj><var>b</var></disj></rule>\n\t\t<rule><disj><var>a</var><not><var>b</var></not></disj></rule>\n\t</constraints>"
    );
    assert_eq!(
        xml_with_constraints("<struct>\n</struct>\n", "C"),
        "<struct>\n</struct>\nC\n"
    );
}

#[test]
fn clauses_print_solutions_by_name() {
    let mut arena = Arena::new();
    let formula = sat_formula(&mut arena, "c 1 a\nc 2 b\np sat 2 *(1 -(2))");
    let clauses = Clauses::from_formula(&formula, &arena).unwrap();
    assert_eq!(clauses.solution_to_string(&Vec::new(), &vec![1, -2]), "+a -b");
    assert_eq!(clauses.solution_to_string(&Vec::new(), &vec![]), "");
}

#[test]
fn clauses_reject_formulas_not_in_cnf() {
    let mut arena = Arena::new();
    let formula = sat_formula(&mut arena, "c 1 a\nc 2 b\nc 3 c\np sat 3 +(*(1 2) 3)");
    assert!(formula.to_clauses(&arena).is_err());
}

#[test]
fn legacy_cnf_checks_validity_when_printed() {
    let mut arena = Arena::new();
    let formula = sat_formula(&mut arena, "c 1 a\nc 2 b\np sat 2 *(+(1 -(2)) 2)");
    let cnf = CNF::from_formula(&formula, &arena).unwrap();
    assert!(cnf.is_valid());
    let text = cnf.to_string().unwrap();
    assert!(text.contains("p cnf 2 2\n"));
    let empty = CNF { clauses: vec![], vars: vec![Var::Aux(0)] };
    assert!(!empty.is_valid());
    assert_eq!(empty.to_string().err(), Some(CnfError::Invalid));
    let unnamed = CNF { clauses: vec![vec![1]], vars: vec![Var::Aux(0), Var::Named(String::new())] };
    assert_eq!(unnamed.to_string().err(), Some(CnfError::EmptyName));
    let empty_clause = CNF { clauses: vec![vec![]], vars: vec![Var::Aux(0), Var::Named("a".to_string())] };
    assert_eq!(empty_clause.to_string().err(), Some(CnfError::EmptyClause));
    let bad_literal = CNF { clauses: vec![vec![2]], vars: vec![Var::Aux(0), Var::Named("a".to_string())] };
    assert_eq!(bad_literal.to_string().err(), Some(CnfError::BadLiteral));
    let not_cnf = sat_formula(&mut arena, "c 1 a\nc 2 b\nc 3 c\np sat 3 +(*(1 2) 3)");
    assert_eq!(CNF::from_formula(&not_cnf, &arena).err(), Some(CnfError::NotInCnf));
}

#[test]
fn sat_solver_output_is_read() {
    assert_eq!(
        parse_solution("c comment\ns SATISFIABLE\nv 1 -2\nv 3 0\n"),
        Ok(Some(vec![1, -2, 3]))
    );
    assert_eq!(parse_solution("s UNSATISFIABLE\n"), Ok(None));
    assert_eq!(parse_solution("v 1 x 0\n"), Err("x".to_string()));
    assert!(parse_satisfiable("c x\ns SATISFIABLE\n"));
    assert!(!parse_satisfiable("s UNSATISFIABLE\n"));
}

#[test]
fn model_counter_output_is_read() {
    assert_eq!(parse_count("c counting\ns 42\n"), Some("42".to_string()));
    assert_eq!(parse_count("c nothing\n"), None);
    assert_eq!(parse_solution_line("1 -2  3 0"), Ok(vec![1, -2, 3]));
    assert_eq!(parse_solution_line("1 y"), Err("y".to_string()));
}

#[test]
fn text_files_of_names_mappings_and_arguments_are_read() {
    assert_eq!(variable_names("a\n  b \n\nc\n"), vec!["a", "b", "c"]);
    let maps = parse_variable_map("# comment\na=b\n\nc = d, e\nf,g=h\n").unwrap();
    assert_eq!(maps.len(), 3);
    assert_eq!(maps[0].left, vec!["a"]);
    assert_eq!(maps[0].right, vec!["b"]);
    assert_eq!(maps[1].left, vec!["c"]);
    assert_eq!(maps[1].right, vec!["d", "e"]);
    assert_eq!(maps[2].left, vec!["f", "g"]);
    assert_eq!(maps[2].right, vec!["h"]);
    assert!(matches!(parse_variable_map("a\n"), Err(MapLineError::Format(line)) if line == "a"));
    assert!(matches!(parse_variable_map("a=\n"), Err(MapLineError::EmptySide(line)) if line == "a="));
    assert!(matches!(parse_variable_map("a,b=c,d\n"), Err(MapLineError::Shape(line)) if line == "a,b=c,d"));
    assert_eq!(config_args("-i a.model\n# -t nnf\n  print\n"), vec!["-i", "a.model", "print"]);
}

#[test]
fn default_options_have_no_aux_prefix() {
    let o = options();
    assert_eq!(o.output.aux_prefix, "");
    assert!(!o.output.print_ids);
    assert!(!o.tool.force_io);
}

#[test]
fn variable_maps_rename_split_and_merge() {
    let mut arena = Arena::new();
    let mut a = sat_formula(&mut arena, "c 1 x\nc 2 s\np sat 2 *(1 2)");
    let mut b = sat_formula(&mut arena, "c 1 y\nc 2 s1\nc 3 s2\np sat 3 *(1 2 3)");
    let maps = vec![
        VarMap { left: vec!["x".to_string()], right: vec!["y".to_string()] },
        VarMap { left: vec!["s".to_string()], right: vec!["s1".to_string(), "s2".to_string()] },
    ];
    apply_var_maps(&mut a, &mut b, &maps, &mut arena);
    assert_eq!(a.sub_var_ids, HashSet::from([var_id(&arena, "y"), var_id(&arena, "s1"), var_id(&arena, "s2")]));
    assert_eq!(a.sub_var_ids, b.sub_var_ids);
    assert!(a.is_proto_cnf(&arena));
    assert!(b.is_proto_cnf(&arena));

    let mut c = sat_formula(&mut arena, "c 1 m1\nc 2 m2\np sat 2 *(1 2)");
    let mut d = sat_formula(&mut arena, "c 1 m\np sat 1 1");
    let merge = vec![VarMap { left: vec!["m1".to_string(), "m2".to_string()], right: vec!["m".to_string()] }];
    apply_var_maps(&mut c, &mut d, &merge, &mut arena);
    assert_eq!(d.sub_var_ids, HashSet::from([var_id(&arena, "m1"), var_id(&arena, "m2")]));
}

#[test]
fn variable_maps_report_errors() {
    let mut arena = Arena::new();
    let a = sat_formula(&mut arena, "c 1 x\nc 2 z\np sat 2 *(1 2)");
    let b = sat_formula(&mut arena, "c 1 y\nc 2 z\np sat 2 *(1 2)");
    let ok = vec![VarMap { left: vec!["x".to_string()], right: vec!["y".to_string()] }];
    assert!(check_var_maps(&a, &b, &ok, &arena).is_ok());
    let shape = vec![VarMap { left: vec!["x".to_string(), "z".to_string()], right: vec!["y".to_string(), "z".to_string()] }];
    assert!(matches!(check_var_maps(&a, &b, &shape, &arena), Err(VarMapError::Shape)));
    let unknown = vec![VarMap { left: vec!["x".to_string()], right: vec!["nope".to_string()] }];
    assert!(matches!(check_var_maps(&a, &b, &unknown, &arena), Err(VarMapError::Unknown(n)) if n == "nope"));
    let shared = vec![VarMap { left: vec!["z".to_string()], right: vec!["y".to_string()] }];
    assert!(matches!(check_var_maps(&a, &b, &shared, &arena), Err(VarMapError::NotExclusive(n)) if n == "z"));
}

#[test]
fn model_counts_are_read_as_num_reads_them() {
    assert_eq!(read_count("42"), Some("42".to_string()));
    assert_eq!(read_count("+007"), Some("7".to_string()));
    assert_eq!(read_count("-0"), Some("0".to_string()));
    assert_eq!(read_count("1_000"), Some("1000".to_string()));
    assert_eq!(read_count("-12"), Some("-12".to_string()));
    assert_eq!(read_count("_1"), None);
    assert_eq!(read_count("-+1"), None);
    assert_eq!(read_count(""), None);
    assert_eq!(read_count("12a"), None);
}

#[test]
fn incremental_count_derives_right_count() {
    let counts = CountIncCounts {
        a2_to_a: "6".to_string(),
        b2_to_b: "3".to_string(),
        removed: "1".to_string(),
        added: "2".to_string(),
    };
    assert_eq!(count_inc_result(Some("10"), &counts, 1, 2), "33");
    assert_eq!(
        count_inc_result(None, &counts, 1, 2),
        "(((#+6)/2^1)-1+2)*2^2-3# | sed 's/#/<left model count>/' | bc"
    );
    let timeouts = CountIncCounts {
        a2_to_a: "0".to_string(),
        b2_to_b: "0".to_string(),
        removed: "-1".to_string(),
        added: "007".to_string(),
    };
    assert_eq!(count_inc_result(Some("-5"), &timeouts, 1, 0), "6");
    assert_eq!(
        count_inc_result(None, &timeouts, 0, 0),
        "(((#+0)/2^0)--1+7)*2^0-0# | sed 's/#/<left model count>/' | bc"
    );
}

#[test]
fn incremental_count_queries_count_foreign_variables() {
    let mut arena = Arena::new();
    let a = sat_formula(&mut arena, "c 1 x\nc 2 y\np sat 2 *(+(1 2) 2)");
    let b = sat_formula(&mut arena, "c 1 y\nc 2 z\nc 3 w\np sat 3 *(1 +(2 3))");
    let q = count_inc_queries(&a, &b, &mut arena);
    assert_eq!(q.a_vars, 1);
    assert_eq!(q.b_vars, 2);
    assert!(q.a2_to_a.is_ok());
    assert!(q.b2_to_b.is_ok());
    assert!(q.removed.is_ok());
    assert!(q.added.is_ok());
}

#[test]
fn edits_are_classified_by_removed_and_added_solutions() {
    assert_eq!(classify("0", "0"), Some("Refactoring".to_string()));
    assert_eq!(classify("3", "0"), Some("Specialization".to_string()));
    assert_eq!(classify("0", "2"), Some("Generalization".to_string()));
    assert_eq!(classify("1", "1"), Some("ArbitraryEdit".to_string()));
    assert_eq!(classify("-1", "1"), None);
    assert_eq!(classify("-0", "+0"), Some("Refactoring".to_string()));
}

#[test]
fn counts_are_formatted_and_subtracted() {
    assert_eq!(format_count("-1"), "");
    assert_eq!(format_count("0042"), "42");
    assert_eq!(removed_added("10", "7", "4"), ("6".to_string(), "3".to_string()));
    assert_eq!(removed_added("-1", "7", "4"), ("-5".to_string(), "3".to_string()));
}

#[test]
fn command_lines_are_quoted_for_the_shell() {
    assert_eq!(shell_escape("a.cnf"), "a.cnf");
    assert_eq!(shell_escape(""), "''");
    assert_eq!(shell_escape("it's here"), "'it'\\''s here'");
    assert_eq!(
        command_line("java", &vec!["-jar".to_string(), "my file".to_string()]),
        "java -jar 'my file'"
    );
}

#[test]
fn panic_messages_are_split_at_error_details() {
    assert_eq!(
        format_panic_message("failed to read: Os { code: 2 }"),
        ("failed to read".to_string(), Some("Os { code: 2 }".to_string()))
    );
    assert_eq!(
        format_panic_message("bad: Custom { kind: Other }"),
        ("bad".to_string(), Some("Custom { kind: Other }".to_string()))
    );
    assert_eq!(format_panic_message("plain"), ("plain".to_string(), None));
}

#[test]
fn slices_name_variables_for_featureide_and_read_back() {
    let mut arena = Arena::new();
    let _f = sat_formula(&mut arena, "c 1 a.b\nc 2 c d\nc 3 e\np sat 3 *(1 2 3)");
    let keep = HashSet::from([var_id(&arena, "a.b"), var_id(&arena, "c d")]);
    assert_eq!(slice_var_names(&keep, &arena), vec!["a__DOT__b", "c__SPACE__d"]);
    let slice = File::new("-.cnf".to_string(), "c 1 a__DOT__b\nc 2 c__SPACE__d\np cnf 2 1\n1 -2 0\n".to_string());
    let formula = slice.parse_slice(&keep, &mut arena).unwrap();
    assert_eq!(formula.sub_var_ids, keep);
    assert_eq!(formula.as_ref(&arena).to_string(), "Or(a.b, Not(c d))");
}

#[test]
fn projected_clauses_mark_shown_variables() {
    let mut arena = Arena::new();
    let formula = sat_formula(&mut arena, "c 1 a\nc 2 b\nc 3 c\np sat 3 *(+(1 2) 3)");
    let clauses = formula.to_clauses(&arena).unwrap();
    let proj = HashSet::from([var_id(&arena, "a"), var_id(&arena, "c")]);
    let text = clauses.to_projected_string(&Vec::new(), &proj, &arena);
    assert!(text.starts_with("c t pmc\nc 1 a\n"));
    assert!(text.ends_with("c p show 1 3 0\n"));
}

#[test]
fn clauses_assume_unit_literals() {
    let mut arena = Arena::new();
    let formula = sat_formula(&mut arena, "c 1 a\nc 2 b\np sat 2 +(1 2)");
    let clauses = formula.to_clauses(&arena).unwrap();
    let assumed = clauses.assuming(&vec![-1, 2]);
    assert_eq!(assumed.to_string(), "c 1 a\nc 2 b\np cnf 2 3\n1 2 0\n-1 0\n2 0\n");
    assert_eq!(assumed.var_remap, clauses.var_remap);
}

#[test]
fn diff_clauses_apply_the_requested_transformation() {
    let mut arena = Arena::new();
    let formula = sat_formula(&mut arena, "c 1 a\nc 2 b\nc 3 c\np sat 3 +(*(1 2) 3)");
    assert!(diff_clauses(&formula, &arena, None).is_err());
    let dist = diff_clauses(&formula, &arena, Some(DiffTransform::Dist)).unwrap();
    assert_eq!(dist.clauses.len(), 2);
    let tseitin = diff_clauses(&formula, &arena, Some(DiffTransform::Tseitin)).unwrap();
    assert!(tseitin.vars.len() > 4);
    let file = to_cnf_file_dist(&formula, &arena).unwrap();
    assert_eq!(file.name, "-.dimacs");
    assert!(file.contents.contains("p cnf 3 2\n"));
    assert_eq!(formula.as_ref(&arena).to_string(), "Or(c, And(a, b))");
}

#[test]
fn simplified_reasoning_asks_for_clauses_one_side_lacks() {
    let mut arena = Arena::new();
    let a = sat_formula(&mut arena, "c 1 x\nc 2 y\np sat 2 *(+(1 2) 1)");
    let b = sat_formula(&mut arena, "c 1 x\nc 2 y\np sat 2 *(+(1 2) 2)");
    let q = simplified_queries(&a, &b, &arena).unwrap();
    let x = var_id(&arena, "x");
    let y = var_id(&arena, "y");
    let local = |c: &Clauses, v: i32| *c.var_remap.get(&v).unwrap();
    assert_eq!(q.removed, vec![vec![-local(&q.left, y)]]);
    assert_eq!(q.added, vec![vec![-local(&q.right, x)]]);
    let same = simplified_queries(&a, &a, &arena).unwrap();
    assert!(same.removed.is_empty());
    assert!(same.added.is_empty());
}

#[test]
fn arena_copies_keep_expressions_and_lookups() {
    let mut arena = Arena::new();
    let formula = sat_formula(&mut arena, "c 1 a\nc 2 b\np sat 2 *(1 -(2))");
    let mut copy = arena.clone();
    assert_eq!(copy.exprs.len(), arena.exprs.len());
    assert_eq!(formula.as_ref(&copy).to_string(), formula.as_ref(&arena).to_string());
    let a = copy.var_expr("a".to_string());
    let b = copy.var_expr("b".to_string());
    let not_b = copy.expr(Not(b));
    let again = copy.expr(And(vec![not_b, a]));
    assert_eq!(again, formula.root_id);
    assert_eq!(copy.exprs.len(), arena.exprs.len());
}

#[test]
fn diff_modes_with_empty_file_names_have_no_files() {
    for (with_files, plain) in [("true,,", "true"), ("false,,", "false")] {
        match (DiffMode::from_str(with_files), DiffMode::from_str(plain)) {
            (
                Ok(DiffMode::Fixed { default: d1, true_file: t1, false_file: f1 }),
                Ok(DiffMode::Fixed { default: d2, true_file: t2, false_file: f2 }),
            ) => {
                assert_eq!(d1, d2);
                assert_eq!(t1, t2);
                assert_eq!(f1, f2);
                assert_eq!(t1, None);
                assert_eq!(f1, None);
            }
            other => panic!("unexpected {:?}", other),
        }
    }
}

#[test]
fn reductions_mention_no_removed_variable() {
    let mut arena = Arena::new();
    let formula = sat_formula(&mut arena, "c 1 a\nc 2 b\nc 3 c\np sat 3 *(+(1 2) +(-(2) 3) 1)");
    let b = var_id(&arena, "b");
    let reduced = formula.remove_constraints(&HashSet::from([b]), &mut arena);
    let printed = reduced.as_ref(&arena).to_string();
    assert_eq!(printed, "a");
    assert!(!printed.contains('b'));
    assert!(!reduced.sub_var_ids.contains(&b));
}

#[test]
fn formula_lists_give_the_last_formula() {
    let mut list = FormulaVec::new();
    let f = sat_formula(&mut list.arena, "c 1 a\np sat 1 1");
    list.formulas.push(f);
    let g = sat_formula(&mut list.arena, "c 1 b\np sat 1 -(1)");
    list.formulas.push(g);
    assert_eq!(list.last_ref().to_string(), "Not(b)");
    let first_root = list.formulas[0].root_id;
    list.last_mut().root_id = first_root;
    assert_eq!(list.last().root_id, first_root);
    assert_eq!(list.last_ref().to_string(), "a");
}

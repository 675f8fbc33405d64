//! Parser for .cnf (DIMACS) files.
//!
//! A .cnf file holds comment lines (see `header`), the problem line `p cnf <n> <m>`, which declares
//! the variables `1..=n` and `m` clauses, and the clauses: each a list of literals (`k` or `-k` for
//! the `k`-th variable) terminated by `0`. Comment lines may also stand between clauses.

use vstd::prelude::*;
use crate::arena::{Arena, extends, ids_valid, lemma_simplified_extends};
use crate::expr::{Expr, ExprId, ExprV};
use crate::file::File;
use crate::formula::Formula;
use crate::parser::ParseError;
use crate::parser::declare::{declare_vars, declared, lemma_declared_extends, lemma_declared_valid};
use crate::parser::expr::arena_grows;
use crate::parser::header::{header, header_exec, lemma_header_bounds, names_view};
use crate::parser::sat::{has_room, parsed_as};
use crate::syntax::{digits_end, digits_value, is_digit, lemma_digits_end, lemma_line_end, lemma_skip_blank, lemma_skip_ws,
    line_end, line_end_exec, read_number, skip_blank, skip_blank_exec, skip_ws, skip_ws_exec};
use crate::text::chars_of;
use crate::tree::{Tree, lemma_realizes_all_extends, lemma_realizes_all_push, lemma_realizes_all_valid, lemma_realizes_extends,
    lemma_realizes_valid, realizes, realizes_all};

verus! {

/// Parses the problem line `p cnf <n> <m>` at `j`, returning `n`, `m` and the position after it.
pub open spec fn cnf_preamble(s: Seq<char>, j: int) -> Option<(int, int, int)> {
    if !(0 <= j < s.len() && s[j] == 'p') {
        None
    } else {
        let a = skip_blank(s, j + 1);
        if !(a > j + 1 && a + 3 <= s.len() && s[a] == 'c' && s[a + 1] == 'n' && s[a + 2] == 'f') {
            None
        } else {
            let b = skip_blank(s, a + 3);
            if !(b > a + 3 && b < s.len() && is_digit(s[b])) {
                None
            } else {
                let e = digits_end(s, b);
                let c = skip_blank(s, e);
                if !(c > e && c < s.len() && is_digit(s[c])) {
                    None
                } else {
                    let f = digits_end(s, c);
                    let n = digits_value(s, b, e);
                    let m = digits_value(s, c, f);
                    if n > i32::MAX || m > i32::MAX {
                        None
                    } else {
                        Some((n, m, f))
                    }
                }
            }
        }
    }
}

/// Parses the rest of a clause starting at `i`: literals up to the terminating `0`.
///
/// Returns the literals and the position after the `0`.
pub open spec fn cnf_clause(s: Seq<char>, i: int) -> Option<(Seq<i32>, int)>
    decreases s.len() - i,
{
    if !(0 <= i <= s.len()) {
        None
    } else {
        let j = skip_ws(s, i);
        proof {
            lemma_skip_ws(s, i);
        }
        if j < s.len() && (is_digit(s[j]) || (s[j] == '-' && j + 1 < s.len() && is_digit(s[j + 1]))) {
            let neg = s[j] == '-';
            let start = if neg { j + 1 } else { j };
            let e = digits_end(s, start);
            let v = digits_value(s, start, e);
            proof {
                lemma_digits_end(s, start + 1);
            }
            if v > i32::MAX || (neg && v == 0) {
                None
            } else if v == 0 {
                Some((Seq::empty(), e))
            } else {
                match cnf_clause(s, e) {
                    None => None,
                    Some((ls, p)) => Some((seq![(if neg { -v } else { v }) as i32] + ls, p)),
                }
            }
        } else {
            None
        }
    }
}

/// Parses the clauses starting at `i`, skipping comment lines, up to the end of the text.
pub open spec fn cnf_body(s: Seq<char>, i: int) -> Option<Seq<Seq<i32>>>
    decreases s.len() - i,
{
    if !(0 <= i <= s.len()) {
        None
    } else {
        let j = skip_ws(s, i);
        proof {
            lemma_skip_ws(s, i);
        }
        if j >= s.len() {
            Some(Seq::empty())
        } else if s[j] == 'c' {
            proof {
                lemma_line_end(s, j + 1);
            }
            cnf_body(s, line_end(s, j + 1))
        } else {
            match cnf_clause(s, j) {
                None => None,
                Some((c, p)) => if j < p <= s.len() {
                    match cnf_body(s, p) {
                        None => None,
                        Some(cs) => Some(seq![c] + cs),
                    }
                } else {
                    None
                },
            }
        }
    }
}

/// Parses a .cnf file: its variable names, its numbers of variables and clauses, and its clauses.
pub open spec fn cnf_file(s: Seq<char>) -> Option<(Seq<(int, Seq<char>)>, int, int, Seq<Seq<i32>>)> {
    match header(s, 0) {
        None => None,
        Some((names, j)) => match cnf_preamble(s, j) {
            None => None,
            Some((n, m, p)) => match cnf_body(s, p) {
                None => None,
                Some(cs) => Some((names, n, m, cs)),
            },
        },
    }
}

/// The absolute value of a literal.
pub open spec fn lit_var(l: i32) -> int {
    if l < 0 { -(l as int) } else { l as int }
}

/// The syntax tree of a clause: a disjunction of its literals.
pub open spec fn clause_tree(c: Seq<i32>) -> Tree {
    Tree::Or(Seq::new(c.len(), |k: int| Tree::Ref(lit_var(c[k]), c[k] < 0)))
}

/// The syntax tree of a list of clauses: a conjunction of the clauses.
pub open spec fn cnf_tree(cs: Seq<Seq<i32>>) -> Tree {
    Tree::And(Seq::new(cs.len(), |i: int| clause_tree(cs[i])))
}

/// Whether every literal of the clauses refers to one of the variables `1..=n`.
pub open spec fn lits_in_range(cs: Seq<Seq<i32>>, n: int) -> bool {
    forall|i: int, k: int| 0 <= i < cs.len() && 0 <= k < cs[i].len() ==> 1 <= #[trigger] lit_var(cs[i][k]) <= n
}

/// Returns the problem line at `j` (see `cnf_preamble`).
fn cnf_preamble_exec(s: &Vec<char>, j: usize) -> (r: Option<(i32, i32, usize)>)
    requires
        j <= s@.len(),
    ensures
        match cnf_preamble(s@, j as int) {
            None => r is None,
            Some((n, m, f)) => r matches Some((n2, m2, f2)) && n2 == n && m2 == m && f2 == f,
        },
        r matches Some((n2, m2, _)) ==> n2 >= 0 && m2 >= 0,
{
    if !(j < s.len() && s[j] == 'p') {
        return None;
    }
    let a = skip_blank_exec(s, j + 1);
    proof {
        lemma_skip_blank(s@, j + 1);
    }
    if !(a > j + 1 && a < s.len() && s.len() - a >= 3 && s[a] == 'c' && s[a + 1] == 'n' && s[a + 2] == 'f') {
        return None;
    }
    let b = skip_blank_exec(s, a + 3);
    proof {
        lemma_skip_blank(s@, a + 3);
    }
    if !(b > a + 3 && b < s.len() && '0' <= s[b] && s[b] <= '9') {
        return None;
    }
    let (e, n) = read_number(s, b);
    proof {
        lemma_digits_end(s@, b as int);
    }
    let c = skip_blank_exec(s, e);
    proof {
        lemma_skip_blank(s@, e as int);
    }
    if !(c > e && c < s.len() && '0' <= s[c] && s[c] <= '9') {
        return None;
    }
    let (f, m) = read_number(s, c);
    match (n, m) {
        (Some(n), Some(m)) => Some((n, m, f)),
        _ => None,
    }
}

/// The position after a clause lies after its start and within the text.
proof fn lemma_cnf_clause_bounds(s: Seq<char>, i: int)
    requires
        cnf_clause(s, i) is Some,
    ensures
        i < cnf_clause(s, i).unwrap().1 <= s.len(),
    decreases s.len() - i,
{
    lemma_skip_ws(s, i);
    let j = skip_ws(s, i);
    let neg = s[j] == '-';
    let start = if neg { j + 1 } else { j };
    lemma_digits_end(s, start + 1);
    let e = digits_end(s, start);
    if digits_value(s, start, e) != 0 {
        lemma_cnf_clause_bounds(s, e);
    }
}

/// Returns the literals of the clause starting at `i` (see `cnf_clause`).
fn cnf_clause_exec(s: &Vec<char>, i: usize) -> (r: Option<(Vec<i32>, usize)>)
    requires
        i <= s@.len(),
    ensures
        match cnf_clause(s@, i as int) {
            None => r is None,
            Some((ls, p)) => r matches Some((v, q)) && v@ == ls && q == p,
        },
    decreases s@.len() - i,
{
    let j = skip_ws_exec(s, i);
    proof {
        lemma_skip_ws(s@, i as int);
    }
    if j < s.len() && (('0' <= s[j] && s[j] <= '9') || (s[j] == '-' && j + 1 < s.len() && '0' <= s[j + 1] && s[j + 1] <= '9')) {
        let neg = s[j] == '-';
        let start = if neg { j + 1 } else { j };
        let (e, v) = read_number(s, start);
        proof {
            lemma_digits_end(s@, start + 1);
        }
        match v {
            None => None,
            Some(v) => {
                if neg && v == 0 {
                    None
                } else if v == 0 {
                    Some((Vec::new(), e))
                } else {
                    match cnf_clause_exec(s, e) {
                        None => None,
                        Some((rest, p)) => {
                            let l: i32 = if neg { -v } else { v };
                            let mut ls: Vec<i32> = Vec::new();
                            ls.push(l);
                            let ghost first = ls@;
                            let ghost rest_v = rest@;
                            let mut rest = rest;
                            ls.append(&mut rest);
                            assert(ls@ =~= seq![l] + rest_v);
                            Some((ls, p))
                        },
                    }
                }
            },
        }
    } else {
        None
    }
}

/// The views of a list of clause vectors.
pub open spec fn clauses_of(v: Seq<Vec<i32>>) -> Seq<Seq<i32>> {
    v.map_values(|c: Vec<i32>| c@)
}

/// Returns the clauses starting at `i` (see `cnf_body`).
fn cnf_body_exec(s: &Vec<char>, i: usize) -> (r: Option<Vec<Vec<i32>>>)
    requires
        i <= s@.len(),
    ensures
        match cnf_body(s@, i as int) {
            None => r is None,
            Some(cs) => r matches Some(v) && clauses_of(v@) == cs,
        },
    decreases s@.len() - i,
{
    let j = skip_ws_exec(s, i);
    proof {
        lemma_skip_ws(s@, i as int);
    }
    if j >= s.len() {
        let v: Vec<Vec<i32>> = Vec::new();
        assert(clauses_of(v@) =~= Seq::<Seq<i32>>::empty());
        Some(v)
    } else if s[j] == 'c' {
        proof {
            lemma_line_end(s@, j + 1);
        }
        let le = line_end_exec(s, j + 1);
        cnf_body_exec(s, le)
    } else {
        match cnf_clause_exec(s, j) {
            None => None,
            Some((c, p)) => {
                proof {
                    lemma_cnf_clause_bounds(s@, j as int);
                }
                if j < p && p <= s.len() {
                    match cnf_body_exec(s, p) {
                        None => None,
                        Some(rest) => {
                            let ghost cv = c@;
                            let ghost rest_v = rest@;
                            let mut v: Vec<Vec<i32>> = Vec::new();
                            v.push(c);
                            let mut rest = rest;
                            v.append(&mut rest);
                            proof {
                                assert(clauses_of(v@) =~= seq![cv] + clauses_of(rest_v));
                            }
                            Some(v)
                        },
                    }
                } else {
                    None
                }
            },
        }
    }
}

/// Returns whether every literal refers to one of the variables `1..=n` (see `lits_in_range`).
fn lits_in_range_exec(cs: &Vec<Vec<i32>>, n: i32) -> (r: bool)
    ensures
        r == lits_in_range(clauses_of(cs@), n as int),
{
    let ghost cv = clauses_of(cs@);
    let mut i: usize = 0;
    while i < cs.len()
        invariant
            i <= cs@.len(),
            cv == clauses_of(cs@),
            forall|a: int, k: int| 0 <= a < i && 0 <= k < cv[a].len() ==> 1 <= #[trigger] lit_var(cv[a][k]) <= n,
        decreases cs.len() - i,
    {
        let c = &cs[i];
        let mut k: usize = 0;
        while k < c.len()
            invariant
                i < cs@.len(),
                k <= c@.len(),
                cv == clauses_of(cs@),
                cv[i as int] == c@,
                forall|a: int, k: int| 0 <= a < i && 0 <= k < cv[a].len() ==> 1 <= #[trigger] lit_var(cv[a][k]) <= n,
                forall|x: int| 0 <= x < k ==> 1 <= #[trigger] lit_var(cv[i as int][x]) <= n,
            decreases c.len() - k,
        {
            let l = c[k];
            if l == 0 || l == i32::MIN || (if l < 0 { -l } else { l }) > n {
                proof {
                    assert(!(1 <= lit_var(cv[i as int][k as int]) <= n));
                }
                return false;
            }
            k = k + 1;
        }
        i = i + 1;
    }
    true
}

/// Adds the clauses to the arena, with `leaves[k - 1]` for the `k`-th variable, and returns their conjunction.
fn build_cnf(cs: &Vec<Vec<i32>>, leaves: &Vec<ExprId>, arena: &mut Arena) -> (r: ExprId)
    requires
        old(arena).wf(),
        ids_valid(leaves@, old(arena).exprs@.len()),
        leaves@.len() <= i32::MAX,
        lits_in_range(clauses_of(cs@), leaves@.len() as int),
    ensures
        arena_grows(old(arena), final(arena)),
        realizes(final(arena).ev(), final(arena).vv(), r, cnf_tree(clauses_of(cs@)), leaves@),
{
    let ghost cv = clauses_of(cs@);
    let ghost ts = Seq::new(cv.len(), |i: int| clause_tree(cv[i]));
    let mut clause_ids: Vec<ExprId> = Vec::new();
    let mut i: usize = 0;
    assert(ts.take(0) =~= Seq::<Tree>::empty());
    while i < cs.len()
        invariant
            arena_grows(old(arena), arena),
            ids_valid(leaves@, old(arena).exprs@.len()),
            cv == clauses_of(cs@),
            ts == Seq::new(cv.len(), |i: int| clause_tree(cv[i])),
            lits_in_range(cv, leaves@.len() as int),
            leaves@.len() <= i32::MAX,
            i <= cs@.len(),
            realizes_all(arena.ev(), arena.vv(), clause_ids@, ts.take(i as int), leaves@),
        decreases cs.len() - i,
    {
        let c = &cs[i];
        let ghost ls = Seq::new(c@.len(), |k: int| Tree::Ref(lit_var(c@[k]), c@[k] < 0));
        let ghost start_ev = arena.ev();
        let ghost done_ids = clause_ids@;
        let mut lit_ids: Vec<ExprId> = Vec::new();
        let mut k: usize = 0;
        assert(ls.take(0) =~= Seq::<Tree>::empty());
        while k < c.len()
            invariant
                arena_grows(old(arena), arena),
                extends(arena.ev(), start_ev),
                ids_valid(leaves@, old(arena).exprs@.len()),
                cv == clauses_of(cs@),
                i < cs@.len(),
                cv[i as int] == c@,
                lits_in_range(cv, leaves@.len() as int),
                leaves@.len() <= i32::MAX,
                ls == Seq::new(c@.len(), |k: int| Tree::Ref(lit_var(c@[k]), c@[k] < 0)),
                k <= c@.len(),
                realizes_all(arena.ev(), arena.vv(), lit_ids@, ls.take(k as int), leaves@),
            decreases c.len() - k,
        {
            let l = c[k];
            assert(1 <= lit_var(cv[i as int][k as int]) <= leaves@.len());
            let idx: usize = if l < 0 { (-l) as usize } else { l as usize };
            let leaf = leaves[idx - 1];
            let ghost before = arena.ev();
            let lit = if l < 0 {
                let id = arena.expr(Expr::Not(leaf));
                proof {
                    lemma_simplified_extends(before, arena.ev(), ExprV::Not(leaf), arena.ev()[id as int], arena.vars@.len());
                }
                id
            } else {
                leaf
            };
            proof {
                assert(realizes(arena.ev(), arena.vv(), lit, ls[k as int], leaves@));
                lemma_realizes_all_extends(before, arena.ev(), arena.vv(), arena.vv(), lit_ids@, ls.take(k as int), leaves@);
                lemma_realizes_all_push(arena.ev(), arena.vv(), lit_ids@, ls.take(k as int), leaves@, lit, ls[k as int]);
                assert(ls.take(k as int).push(ls[k as int]) =~= ls.take(k + 1));
            }
            lit_ids.push(lit);
            k = k + 1;
        }
        assert(ls.take(c@.len() as int) =~= ls);
        let ghost before = arena.ev();
        let ghost lv = lit_ids@;
        proof {
            lemma_realizes_all_valid(before, arena.vv(), lv, ls, leaves@);
        }
        let cid = arena.expr(Expr::Or(lit_ids));
        proof {
            lemma_simplified_extends(before, arena.ev(), ExprV::Or(lv), arena.ev()[cid as int], arena.vars@.len());
            lemma_realizes_all_extends(before, arena.ev(), arena.vv(), arena.vv(), lv, ls, leaves@);
            assert(clause_tree(cv[i as int]) == Tree::Or(ls));
            assert(realizes(arena.ev(), arena.vv(), cid, ts[i as int], leaves@));
            lemma_realizes_all_extends(start_ev, arena.ev(), arena.vv(), arena.vv(), done_ids, ts.take(i as int), leaves@);
            lemma_realizes_all_push(arena.ev(), arena.vv(), done_ids, ts.take(i as int), leaves@, cid, ts[i as int]);
            assert(ts.take(i as int).push(ts[i as int]) =~= ts.take(i + 1));
        }
        clause_ids.push(cid);
        i = i + 1;
    }
    assert(ts.take(cs@.len() as int) =~= ts);
    let ghost before = arena.ev();
    let ghost cids = clause_ids@;
    proof {
        lemma_realizes_all_valid(before, arena.vv(), cids, ts, leaves@);
    }
    let root = arena.expr(Expr::And(clause_ids));
    proof {
        lemma_simplified_extends(before, arena.ev(), ExprV::And(cids), arena.ev()[root as int], arena.vars@.len());
        lemma_realizes_all_extends(before, arena.ev(), arena.vv(), arena.vv(), cids, ts, leaves@);
        assert(realizes(arena.ev(), arena.vv(), root, cnf_tree(cv), leaves@));
    }
    root
}

/// What parsing a .cnf file yields (see `CnfFormulaParser::parse_into`).
pub open spec fn cnf_parsed(old_a: &Arena, new_a: &Arena, contents: Seq<char>, r: Result<Formula, ParseError>) -> bool {
    match cnf_file(contents) {
        None => r == Err::<Formula, ParseError>(ParseError::Syntax),
        Some((names, n, m, cs)) => if !has_room(old_a, n) {
            r == Err::<Formula, ParseError>(ParseError::TooManyVariables)
        } else if !lits_in_range(cs, n) {
            r == Err::<Formula, ParseError>(ParseError::UnknownVariable)
        } else if cs.len() != m {
            r == Err::<Formula, ParseError>(ParseError::ClauseCount)
        } else {
            r matches Ok(f) && parsed_as(&f, old_a, new_a, names, n, cnf_tree(cs)) && f.file is Some
        },
    }
}

/// Parses feature-model formula files in the .cnf format.
pub struct CnfFormulaParser;

impl CnfFormulaParser {
    /// Parses a .cnf file into an arena, returning the parsed formula: the conjunction of its clauses.
    ///
    /// Fails with `Syntax` if the text does not follow the format, with `TooManyVariables` if the
    /// arena cannot hold the declared variables, with `UnknownVariable` if a literal refers to a
    /// variable that is not declared, and with `ClauseCount` if the number of clauses differs from
    /// the declared one. Does not modify the expressions of any other formula in the arena.
    pub fn parse_into(&self, file: File, arena: &mut Arena) -> (r: Result<Formula, ParseError>)
        requires
            old(arena).wf(),
        ensures
            crate::tseitin::tseitin_hyp(old(arena).ev()) ==> crate::tseitin::tseitin_hyp(final(arena).ev()),
            final(arena).wf(),
            extends(final(arena).ev(), old(arena).ev()),
            extends(final(arena).vv(), old(arena).vv()),
            cnf_parsed(old(arena), final(arena), file.contents@, r),
    {
        let s = chars_of(file.contents.as_str());
        let (names, j) = match header_exec(&s, 0) {
            None => {
                return Err(ParseError::Syntax);
            },
            Some(x) => x,
        };
        proof {
            lemma_header_bounds(s@, 0);
        }
        let (n, m, p) = match cnf_preamble_exec(&s, j) {
            None => {
                return Err(ParseError::Syntax);
            },
            Some(x) => x,
        };
        proof {
            let a = skip_blank(s@, j + 1);
            lemma_skip_blank(s@, j + 1);
            lemma_skip_blank(s@, a + 3);
            let b = skip_blank(s@, a + 3);
            lemma_digits_end(s@, b);
            let e = digits_end(s@, b);
            lemma_skip_blank(s@, e);
            lemma_digits_end(s@, skip_blank(s@, e));
        }
        let cs = match cnf_body_exec(&s, p) {
            None => {
                return Err(ParseError::Syntax);
            },
            Some(cs) => cs,
        };
        let ghost before = *arena;
        let (leaves, sub) = match declare_vars(&names, n, arena) {
            None => {
                return Err(ParseError::TooManyVariables);
            },
            Some(x) => x,
        };
        if !lits_in_range_exec(&cs, n) {
            return Err(ParseError::UnknownVariable);
        }
        if cs.len() != m as usize {
            return Err(ParseError::ClauseCount);
        }
        let ghost mid = *arena;
        proof {
            lemma_declared_valid(mid.ev(), mid.vv(), names_view(names@), n as int, leaves@, sub@, before.vv().len() as int);
        }
        let root = build_cnf(&cs, &leaves, arena);
        proof {
            lemma_declared_extends(mid.ev(), arena.ev(), mid.vv(), arena.vv(), names_view(names@), n as int, leaves@, sub@, before.vv().len() as int);
            lemma_declared_valid(arena.ev(), arena.vv(), names_view(names@), n as int, leaves@, sub@, before.vv().len() as int);
            lemma_realizes_valid(arena.ev(), arena.vv(), root, cnf_tree(clauses_of(cs@)), leaves@);
        }
        let f = Formula::new(sub, root, Some(file));
        proof {
            assert(declared(arena.ev(), arena.vv(), names_view(names@), n as int, leaves@, f.sub_var_ids@, before.vv().len() as int));
        }
        Ok(f)
    }
}

} // verus!

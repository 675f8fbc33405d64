//! Parser for .sat files.
//!
//! A .sat file holds comment lines (see `header`), the problem line `p sat <n>`, which declares the
//! variables `1..=n`, and one expression over these variables (see `sat_expr`).

use std::collections::HashSet;
use vstd::prelude::*;
use crate::arena::Arena;
use crate::file::File;
use crate::formula::Formula;
use crate::parser::ParseError;
use crate::parser::declare::{declare_vars, declared, lemma_declared_extends, lemma_declared_valid};
use crate::parser::expr::{build_sat_expr, lemma_sat_expr_bounds, sat_expr, sat_expr_end};
use crate::parser::header::{header, header_exec, lemma_header_bounds, names_view};
use crate::syntax::{digits_end, digits_value, is_blank, is_digit, lemma_digits_end, lemma_skip_blank, lemma_skip_ws,
    read_number, skip_blank, skip_blank_exec, skip_ws, skip_ws_exec};
use crate::text::chars_of;
use crate::tree::{Tree, lemma_realizes_valid, realizes, refs_ok};
use crate::var::VarId;

verus! {

/// Parses the problem line `p sat <n>` at `j`, returning `n` and the position after it.
pub open spec fn sat_preamble(s: Seq<char>, j: int) -> Option<(int, int)> {
    if !(0 <= j < s.len() && s[j] == 'p') {
        None
    } else {
        let a = skip_blank(s, j + 1);
        if !(a > j + 1 && a + 3 <= s.len() && s[a] == 's' && s[a + 1] == 'a' && s[a + 2] == 't') {
            None
        } else {
            let b = skip_blank(s, a + 3);
            if !(b > a + 3 && b < s.len() && is_digit(s[b])) {
                None
            } else {
                let e = digits_end(s, b);
                let n = digits_value(s, b, e);
                if n > i32::MAX {
                    None
                } else {
                    Some((n, e))
                }
            }
        }
    }
}

/// Parses a .sat file: its variable names, its number of variables, and its expression.
pub open spec fn sat_file(s: Seq<char>) -> Option<(Seq<(int, Seq<char>)>, int, Tree)> {
    match header(s, 0) {
        None => None,
        Some((names, j)) => match sat_preamble(s, j) {
            None => None,
            Some((n, p)) => match sat_expr(s, p) {
                None => None,
                Some((t, q)) => if skip_ws(s, q) == s.len() {
                    Some((names, n, t))
                } else {
                    None
                },
            },
        },
    }
}

/// Whether the arena can hold `n` more variables.
pub open spec fn has_room(arena: &Arena, n: int) -> bool {
    arena.vars@.len() + n < i32::MAX && arena.var_aux_id + n < u32::MAX
}

/// Whether a formula was parsed from a file whose variable names, number of variables and syntax
/// tree are given: its variables are the declared ones, and its root represents the tree over them.
pub open spec fn parsed_as(f: &Formula, old_arena: &Arena, arena: &Arena, names: Seq<(int, Seq<char>)>, n: int, t: Tree) -> bool {
    &&& f.valid_in(arena)
    &&& exists|leaves: Seq<crate::expr::ExprId>|
        #[trigger] declared(arena.ev(), arena.vv(), names, n, leaves, f.sub_var_ids@, old_arena.vv().len() as int)
        && realizes(arena.ev(), arena.vv(), f.root_id, t, leaves)
}

/// Returns the problem line `p sat <n>` at `j` (see `sat_preamble`).
fn sat_preamble_exec(s: &Vec<char>, j: usize) -> (r: Option<(i32, usize)>)
    requires
        j <= s@.len(),
    ensures
        match sat_preamble(s@, j as int) {
            None => r is None,
            Some((n, e)) => r matches Some((n2, e2)) && n2 == n && e2 == e,
        },
        r matches Some((n2, _)) ==> n2 >= 0,
{
    if !(j < s.len() && s[j] == 'p') {
        return None;
    }
    let a = skip_blank_exec(s, j + 1);
    proof {
        lemma_skip_blank(s@, j + 1);
    }
    if !(a > j + 1 && a < s.len() && s.len() - a >= 3 && s[a] == 's' && s[a + 1] == 'a' && s[a + 2] == 't') {
        return None;
    }
    let b = skip_blank_exec(s, a + 3);
    proof {
        lemma_skip_blank(s@, a + 3);
    }
    if !(b > a + 3 && b < s.len() && '0' <= s[b] && s[b] <= '9') {
        return None;
    }
    let (e, n) = read_number(s, b);
    match n {
        None => None,
        Some(n) => Some((n, e)),
    }
}

/// What parsing a .sat file yields (see `SatFormulaParser::parse_into`).
pub open spec fn sat_parsed(old_a: &Arena, new_a: &Arena, contents: Seq<char>, r: Result<Formula, ParseError>) -> bool {
    match sat_file(contents) {
        None => r == Err::<Formula, ParseError>(ParseError::Syntax),
        Some((names, n, t)) => if !has_room(old_a, n) {
            r == Err::<Formula, ParseError>(ParseError::TooManyVariables)
        } else if !refs_ok(t, n) {
            r == Err::<Formula, ParseError>(ParseError::UnknownVariable)
        } else {
            r matches Ok(f) && parsed_as(&f, old_a, new_a, names, n, t) && f.file is Some
        },
    }
}

/// Parses feature-model formula files in the .sat format.
pub struct SatFormulaParser;

impl SatFormulaParser {
    /// Parses a .sat file into an arena, returning the parsed formula.
    ///
    /// Fails with `Syntax` if the text does not follow the format, with `TooManyVariables` if the
    /// arena cannot hold the declared variables, and with `UnknownVariable` if the expression refers
    /// to a variable that is not declared (or to variable 0).
    /// Does not modify the expressions of any other formula in the arena.
    pub fn parse_into(&self, file: File, arena: &mut Arena) -> (r: Result<Formula, ParseError>)
        requires
            old(arena).wf(),
        ensures
            crate::tseitin::tseitin_hyp(old(arena).ev()) ==> crate::tseitin::tseitin_hyp(final(arena).ev()),
            final(arena).wf(),
            crate::arena::extends(final(arena).ev(), old(arena).ev()),
            crate::arena::extends(final(arena).vv(), old(arena).vv()),
            sat_parsed(old(arena), final(arena), file.contents@, r),
    {
        let s = chars_of(file.contents.as_str());
        let (names, j) = match header_exec(&s, 0) {
            None => {
                return Err(ParseError::Syntax);
            },
            Some(x) => x,
        };
        proof {
            lemma_header_bounds(s@, 0);
        }
        let (n, p) = match sat_preamble_exec(&s, j) {
            None => {
                return Err(ParseError::Syntax);
            },
            Some(x) => x,
        };
        proof {
            let a = skip_blank(s@, j + 1);
            lemma_skip_blank(s@, j + 1);
            lemma_skip_blank(s@, a + 3);
            lemma_digits_end(s@, skip_blank(s@, a + 3));
        }
        let q = match sat_expr_end(&s, p) {
            None => {
                return Err(ParseError::Syntax);
            },
            Some(q) => q,
        };
        proof {
            lemma_sat_expr_bounds(s@, p as int);
        }
        if skip_ws_exec(&s, q) != s.len() {
            return Err(ParseError::Syntax);
        }
        let ghost t = sat_expr(s@, p as int).unwrap().0;
        let ghost before = *arena;
        let (leaves, sub) = match declare_vars(&names, n, arena) {
            None => {
                return Err(ParseError::TooManyVariables);
            },
            Some(x) => x,
        };
        let ghost mid = *arena;
        proof {
            lemma_declared_valid(mid.ev(), mid.vv(), names_view(names@), n as int, leaves@, sub@, before.vv().len() as int);
        }
        match build_sat_expr(&s, p, &leaves, arena) {
            None => Err(ParseError::UnknownVariable),
            Some((root, _)) => {
                proof {
                    lemma_declared_extends(mid.ev(), arena.ev(), mid.vv(), arena.vv(), names_view(names@), n as int, leaves@, sub@, before.vv().len() as int);
                    lemma_declared_valid(arena.ev(), arena.vv(), names_view(names@), n as int, leaves@, sub@, before.vv().len() as int);
                    lemma_realizes_valid(arena.ev(), arena.vv(), root, t, leaves@);
                }
                let f = Formula::new(sub, root, Some(file));
                proof {
                    assert(declared(arena.ev(), arena.vv(), names_view(names@), n as int, leaves@, f.sub_var_ids@, before.vv().len() as int));
                }
                Ok(f)
            },
        }
    }
}

} // verus!

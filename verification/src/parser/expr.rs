//! The prefix expression syntax of .sat files, shared with inline formulas.
//!
//! An expression is a number `k` (the `k`-th leaf), a negative number `-k` (its negation),
//! a negation `-(e)`, a conjunction `*(e1 e2 ...)` or a disjunction `+(e1 e2 ...)`.
//! Whitespace may stand between any two tokens.

use vstd::prelude::*;
use crate::arena::{Arena, extends, ids_valid, lemma_simplified_extends};
use crate::expr::{Expr, ExprId, ExprV};
use crate::syntax::{digits_end, digits_value, is_digit, lemma_digits_end, lemma_skip_ws, read_number, skip_ws, skip_ws_exec};
use crate::tree::{Tree, lemma_realizes_all_extends, lemma_realizes_all_push, lemma_realizes_all_valid, lemma_realizes_extends, lemma_realizes_valid, realizes, realizes_all, refs_all_ok, refs_ok};

verus! {

/// Parses an expression starting at `i` (after optional whitespace).
///
/// Returns its syntax tree and the position after it.
pub open spec fn sat_expr(s: Seq<char>, i: int) -> Option<(Tree, int)>
    decreases s.len() - i, 1int,
{
    if !(0 <= i <= s.len()) {
        None
    } else {
        let j = skip_ws(s, i);
        proof {
            lemma_skip_ws(s, i);
        }
        if j < s.len() && j + 1 < s.len() && s[j + 1] == '(' && (s[j] == '-' || s[j] == '*' || s[j] == '+') {
            if s[j] == '-' {
                match sat_expr(s, j + 2) {
                    Some((c, p)) => {
                        let k = skip_ws(s, p);
                        if 0 <= k < s.len() && s[k] == ')' {
                            Some((Tree::Not(Box::new(c)), k + 1))
                        } else {
                            None
                        }
                    },
                    None => None,
                }
            } else {
                match sat_list(s, j + 2) {
                    Some((ts, p)) => Some((if s[j] == '*' { Tree::And(ts) } else { Tree::Or(ts) }, p)),
                    None => None,
                }
            }
        } else if j < s.len() && (is_digit(s[j]) || (s[j] == '-' && j + 1 < s.len() && is_digit(s[j + 1]))) {
            let neg = s[j] == '-';
            let start = if neg { j + 1 } else { j };
            let e = digits_end(s, start);
            let n = digits_value(s, start, e);
            if n <= i32::MAX {
                Some((Tree::Ref(n, neg), e))
            } else {
                None
            }
        } else {
            None
        }
    }
}

/// Parses the rest of a conjunction or disjunction starting at `i`: expressions up to the closing `)`.
///
/// Returns their syntax trees and the position after the `)`.
pub open spec fn sat_list(s: Seq<char>, i: int) -> Option<(Seq<Tree>, int)>
    decreases s.len() - i, 2int,
{
    if !(0 <= i <= s.len()) {
        None
    } else {
        let j = skip_ws(s, i);
        proof {
            lemma_skip_ws(s, i);
        }
        if j < s.len() && s[j] == ')' {
            Some((Seq::empty(), j + 1))
        } else {
            match sat_expr(s, j) {
                Some((t, p)) => if j < p <= s.len() {
                    match sat_list(s, p) {
                        Some((ts, q)) => Some((seq![t] + ts, q)),
                        None => None,
                    }
                } else {
                    None
                },
                None => None,
            }
        }
    }
}

/// The position after an expression lies after its start and within the text.
pub proof fn lemma_sat_expr_bounds(s: Seq<char>, i: int)
    requires
        sat_expr(s, i) is Some,
    ensures
        i < sat_expr(s, i).unwrap().1 <= s.len(),
    decreases s.len() - i, 1int,
{
    lemma_skip_ws(s, i);
    let j = skip_ws(s, i);
    if j < s.len() && j + 1 < s.len() && s[j + 1] == '(' && (s[j] == '-' || s[j] == '*' || s[j] == '+') {
        if s[j] == '-' {
            lemma_sat_expr_bounds(s, j + 2);
            lemma_skip_ws(s, sat_expr(s, j + 2).unwrap().1);
        } else {
            lemma_sat_list_bounds(s, j + 2);
        }
    } else {
        let neg = s[j] == '-';
        let start = if neg { j + 1 } else { j };
        lemma_digits_end(s, start + 1);
    }
}

/// The position after a list lies after its start and within the text.
pub proof fn lemma_sat_list_bounds(s: Seq<char>, i: int)
    requires
        sat_list(s, i) is Some,
    ensures
        i < sat_list(s, i).unwrap().1 <= s.len(),
    decreases s.len() - i, 2int,
{
    lemma_skip_ws(s, i);
    let j = skip_ws(s, i);
    if j < s.len() && s[j] == ')' {
    } else {
        let p = sat_expr(s, j).unwrap().1;
        lemma_sat_list_bounds(s, p);
    }
}

/// Recognizes an expression starting at `i`, returning the position after it (see `sat_expr`).
pub fn sat_expr_end(s: &Vec<char>, i: usize) -> (r: Option<usize>)
    requires
        i <= s@.len(),
    ensures
        match sat_expr(s@, i as int) {
            Some((_, p)) => r == Some(p as usize),
            None => r is None,
        },
    decreases s@.len() - i, 1int,
{
    let j = skip_ws_exec(s, i);
    proof {
        lemma_skip_ws(s@, i as int);
    }
    if j < s.len() && j + 1 < s.len() && s[j + 1] == '(' && (s[j] == '-' || s[j] == '*' || s[j] == '+') {
        if s[j] == '-' {
            match sat_expr_end(s, j + 2) {
                Some(p) => {
                    proof {
                        lemma_sat_expr_bounds(s@, j + 2);
                    }
                    let k = skip_ws_exec(s, p);
                    if k < s.len() && s[k] == ')' {
                        Some(k + 1)
                    } else {
                        None
                    }
                },
                None => None,
            }
        } else {
            sat_list_end(s, j + 2)
        }
    } else if j < s.len() && (('0' <= s[j] && s[j] <= '9') || (s[j] == '-' && j + 1 < s.len() && '0' <= s[j + 1] && s[j + 1] <= '9')) {
        let start = if s[j] == '-' { j + 1 } else { j };
        let (e, n) = read_number(s, start);
        match n {
            Some(_) => Some(e),
            None => None,
        }
    } else {
        None
    }
}

/// Recognizes the rest of a list starting at `i`, returning the position after its `)` (see `sat_list`).
pub fn sat_list_end(s: &Vec<char>, i: usize) -> (r: Option<usize>)
    requires
        i <= s@.len(),
    ensures
        match sat_list(s@, i as int) {
            Some((_, p)) => r == Some(p as usize),
            None => r is None,
        },
    decreases s@.len() - i, 2int,
{
    let j = skip_ws_exec(s, i);
    proof {
        lemma_skip_ws(s@, i as int);
    }
    if j < s.len() && s[j] == ')' {
        Some(j + 1)
    } else {
        match sat_expr_end(s, j) {
            Some(p) => {
                proof {
                    lemma_sat_expr_bounds(s@, j as int);
                }
                if j < p && p <= s.len() {
                    sat_list_end(s, p)
                } else {
                    None
                }
            },
            None => None,
        }
    }
}

/// What building an expression keeps of the arena.
pub open spec fn arena_grows(old_a: &Arena, new_a: &Arena) -> bool {
    &&& new_a.wf()
    &&& extends(new_a.ev(), old_a.ev())
    &&& new_a.vars == old_a.vars
    &&& new_a.var_aux_id == old_a.var_aux_id
    &&& new_a.new_vars == old_a.new_vars
    &&& new_a.new_exprs == old_a.new_exprs
    &&& (crate::tseitin::tseitin_hyp(old_a.ev()) ==> crate::tseitin::tseitin_hyp(new_a.ev()))
}

/// Adds the expression parsed at `i` to the arena, with `leaves[k - 1]` for a reference to `k`.
///
/// Returns its identifier and the position after it, or `None` if it refers to a missing leaf.
pub fn build_sat_expr(s: &Vec<char>, i: usize, leaves: &Vec<ExprId>, arena: &mut Arena) -> (r: Option<(ExprId, usize)>)
    requires
        old(arena).wf(),
        i <= s@.len(),
        sat_expr(s@, i as int) is Some,
        ids_valid(leaves@, old(arena).exprs@.len()),
    ensures
        arena_grows(old(arena), final(arena)),
        ({
            let (t, p) = sat_expr(s@, i as int).unwrap();
            if refs_ok(t, leaves@.len() as int) {
                r matches Some((id, q)) && q == p && realizes(final(arena).ev(), final(arena).vv(), id, t, leaves@)
            } else {
                r is None
            }
        }),
    decreases s@.len() - i, 1int,
{
    let j = skip_ws_exec(s, i);
    proof {
        lemma_skip_ws(s@, i as int);
    }
    if j < s.len() && j + 1 < s.len() && s[j + 1] == '(' && (s[j] == '-' || s[j] == '*' || s[j] == '+') {
        if s[j] == '-' {
            proof {
                lemma_sat_expr_bounds(s@, j + 2);
            }
            match build_sat_expr(s, j + 2, leaves, arena) {
                Some((c, p)) => {
                    let ghost mid = arena.ev();
                    let ghost t = sat_expr(s@, j + 2).unwrap().0;
                    let id = arena.expr(Expr::Not(c));
                    let k = skip_ws_exec(s, p);
                    proof {
                        lemma_realizes_extends(mid, arena.ev(), arena.vv(), arena.vv(), c, t, leaves@);
                        lemma_realizes_valid(mid, arena.vv(), c, t, leaves@);
                        lemma_simplified_extends(mid, arena.ev(), ExprV::Not(c), arena.ev()[id as int], arena.vars@.len());
                        assert(realizes(arena.ev(), arena.vv(), id, Tree::Not(Box::new(t)), leaves@));
                    }
                    Some((id, k + 1))
                },
                None => {
                    None
                },
            }
        } else {
            let is_and = s[j] == '*';
            match build_sat_list(s, j + 2, leaves, arena) {
                Some((cids, p)) => {
                    let ghost mid = arena.ev();
                    let ghost ts = sat_list(s@, j + 2).unwrap().0;
                    proof {
                        lemma_realizes_all_valid(mid, arena.vv(), cids@, ts, leaves@);
                    }
                    let ghost cv = cids@;
                    let id = if is_and { arena.expr(Expr::And(cids)) } else { arena.expr(Expr::Or(cids)) };
                    proof {
                        lemma_realizes_all_extends(mid, arena.ev(), arena.vv(), arena.vv(), cv, ts, leaves@);
                        if is_and {
                            lemma_simplified_extends(mid, arena.ev(), ExprV::And(cv), arena.ev()[id as int], arena.vars@.len());
                            assert(realizes(arena.ev(), arena.vv(), id, Tree::And(ts), leaves@));
                        } else {
                            lemma_simplified_extends(mid, arena.ev(), ExprV::Or(cv), arena.ev()[id as int], arena.vars@.len());
                            assert(realizes(arena.ev(), arena.vv(), id, Tree::Or(ts), leaves@));
                        }
                    }
                    Some((id, p))
                },
                None => {
                    None
                },
            }
        }
    } else {
        let neg = s[j] == '-';
        let start = if neg { j + 1 } else { j };
        let (e, n) = read_number(s, start);
        let k = match n {
            Some(k) => k,
            None => {
                return None;
            },
        };
        if k < 1 || k as usize > leaves.len() {
            return None;
        }
        let leaf = leaves[(k - 1) as usize];
        if neg {
            let ghost before = arena.ev();
            let id = arena.expr(Expr::Not(leaf));
            proof {
                lemma_simplified_extends(before, arena.ev(), ExprV::Not(leaf), arena.ev()[id as int], arena.vars@.len());
            }
            Some((id, e))
        } else {
            Some((leaf, e))
        }
    }
}

/// Adds the expressions of the list parsed at `i` to the arena (see `build_sat_expr`).
pub fn build_sat_list(s: &Vec<char>, i: usize, leaves: &Vec<ExprId>, arena: &mut Arena) -> (r: Option<(Vec<ExprId>, usize)>)
    requires
        old(arena).wf(),
        i <= s@.len(),
        sat_list(s@, i as int) is Some,
        ids_valid(leaves@, old(arena).exprs@.len()),
    ensures
        arena_grows(old(arena), final(arena)),
        ({
            let (ts, p) = sat_list(s@, i as int).unwrap();
            if refs_all_ok(ts, leaves@.len() as int) {
                r matches Some((cids, q)) && q == p && realizes_all(final(arena).ev(), final(arena).vv(), cids@, ts, leaves@)
            } else {
                r is None
            }
        }),
    decreases s@.len() - i, 2int,
{
    let j = skip_ws_exec(s, i);
    proof {
        lemma_skip_ws(s@, i as int);
    }
    if j < s.len() && s[j] == ')' {
        let cids: Vec<ExprId> = Vec::new();
        assert(realizes_all(arena.ev(), arena.vv(), cids@, Seq::<Tree>::empty(), leaves@));
        Some((cids, j + 1))
    } else {
        proof {
            lemma_sat_expr_bounds(s@, j as int);
        }
        let ghost t = sat_expr(s@, j as int).unwrap().0;
        let ghost p0 = sat_expr(s@, j as int).unwrap().1;
        let ghost ts = sat_list(s@, p0).unwrap().0;
        proof {
            lemma_refs_all_ok_cons(t, ts, leaves@.len() as int);
        }
        match build_sat_expr(s, j, leaves, arena) {
            Some((c, p)) => {
                let ghost mid = arena.ev();
                match build_sat_list(s, p, leaves, arena) {
                    Some((rest, q)) => {
                        let mut cids: Vec<ExprId> = Vec::new();
                        cids.push(c);
                        let mut k: usize = 0;
                        proof {
                            lemma_realizes_extends(mid, arena.ev(), arena.vv(), arena.vv(), c, t, leaves@);
                            assert(realizes_all(arena.ev(), arena.vv(), Seq::<ExprId>::empty(), Seq::<Tree>::empty(), leaves@));
                            lemma_realizes_all_push(arena.ev(), arena.vv(), Seq::<ExprId>::empty(), Seq::<Tree>::empty(), leaves@, c, t);
                            assert(Seq::<ExprId>::empty().push(c) =~= seq![c]);
                            assert(Seq::<Tree>::empty().push(t) =~= seq![t]);
                            assert(cids@ =~= seq![c]);
                            assert(rest@.take(0) =~= Seq::<ExprId>::empty());
                            assert(ts.take(0) =~= Seq::<Tree>::empty());
                        }
                        while k < rest.len()
                            invariant
                                k <= rest@.len(),
                                rest@.len() == ts.len(),
                                realizes_all(arena.ev(), arena.vv(), rest@, ts, leaves@),
                                realizes_all(arena.ev(), arena.vv(), cids@, seq![t] + ts.take(k as int), leaves@),
                            decreases rest.len() - k,
                        {
                            proof {
                                lemma_realizes_all_index(arena.ev(), arena.vv(), rest@, ts, leaves@, k as int);
                                lemma_realizes_all_push(arena.ev(), arena.vv(), cids@, seq![t] + ts.take(k as int), leaves@, rest@[k as int], ts[k as int]);
                                assert((seq![t] + ts.take(k as int)).push(ts[k as int]) =~= seq![t] + ts.take(k + 1));
                            }
                            cids.push(rest[k]);
                            k = k + 1;
                        }
                        assert(ts.take(ts.len() as int) =~= ts);
                        Some((cids, q))
                    },
                    None => None,
                }
            },
            None => {
                None
            },
        }
    }
}

/// One element of a list of representations.
pub proof fn lemma_realizes_all_index(ev: Seq<ExprV>, vv: Seq<crate::var::VarV>, cids: Seq<ExprId>, ts: Seq<Tree>, leaves: Seq<ExprId>, k: int)
    requires
        realizes_all(ev, vv, cids, ts, leaves),
        0 <= k < ts.len(),
    ensures
        realizes(ev, vv, cids[k], ts[k], leaves),
    decreases ts.len(),
{
    if k < ts.len() - 1 {
        lemma_realizes_all_index(ev, vv, cids.drop_last(), ts.drop_last(), leaves, k);
    }
}

/// A list of trees with a first element has valid references iff its parts have.
pub proof fn lemma_refs_all_ok_cons(t: Tree, ts: Seq<Tree>, n: int)
    ensures
        refs_all_ok(seq![t] + ts, n) == (refs_ok(t, n) && refs_all_ok(ts, n)),
    decreases ts.len(),
{
    if ts.len() == 0 {
        assert(seq![t] + ts =~= seq![t]);
        assert(seq![t].drop_last() =~= Seq::<Tree>::empty());
        assert(refs_all_ok(Seq::<Tree>::empty(), n));
    } else {
        lemma_refs_all_ok_cons(t, ts.drop_last(), n);
        assert((seq![t] + ts).drop_last() =~= seq![t] + ts.drop_last());
        assert((seq![t] + ts).last() == ts.last());
    }
}

} // verus!

//! Parser for .model files (as written by KConfigReader).
//!
//! Each line holds one constraint, or nothing, or a comment starting with `#`.
//! A constraint is a variable `def(<name>)` (or the placeholder `<unsupported>`, a variable of that
//! name), a negation `!e`, or a parenthesized expression: `(e)`, a conjunction `(e1 & e2 & ...)`
//! or a disjunction `(e1 | e2 | ...)`. Blanks may stand between any two tokens.

use std::collections::HashSet;
use vstd::prelude::*;
use crate::arena::{Arena, extends, lemma_simplified_extends};
use crate::expr::{Expr, ExprId, ExprV};
use crate::file::File;
use crate::formula::Formula;
use crate::parser::ParseError;
use crate::syntax::{is_blank, lemma_line_end, lemma_skip_blank, line_end, line_end_exec, skip_blank, skip_blank_exec};
use crate::parser::header::trim_end;
use crate::text::{chars_of, string_of};
use crate::tree::{Tree, lemma_realizes_all_cons, lemma_realizes_all_extends, lemma_realizes_all_push, lemma_realizes_all_valid, lemma_realizes_extends,
    lemma_realizes_valid, realizes, realizes_all};
use crate::var::{VarId, VarV};

verus! {

broadcast use vstd::std_specs::hash::group_hash_axioms;

/// The position of the first `)` at or after `i` within the line ending at `le` (or `le`).
pub open spec fn close_paren(s: Seq<char>, i: int, le: int) -> int
    decreases le - i,
{
    if i < le && s[i] != ')' {
        close_paren(s, i + 1, le)
    } else {
        i
    }
}

/// Whether the text at `i` is the placeholder `<unsupported>`.
pub open spec fn is_unsupported_at(s: Seq<char>, i: int, le: int) -> bool {
    i + 13 <= le && s.subrange(i, i + 13) == unsupported()
}

/// The placeholder for constructs that could not be expressed.
pub open spec fn unsupported() -> Seq<char> {
    seq!['<', 'u', 'n', 's', 'u', 'p', 'p', 'o', 'r', 't', 'e', 'd', '>']
}

/// Parses an expression starting at `i` (after optional blanks) within the line ending at `le`.
///
/// Returns its syntax tree and the position after it.
pub open spec fn model_expr(s: Seq<char>, i: int, le: int) -> Option<(Tree, int)>
    decreases le - i, 1int,
{
    if !(0 <= i <= le <= s.len()) {
        None
    } else {
        let j = skip_blank(s, i);
        if !(i <= j < le) {
            None
        } else if s[j] == '!' {
            match model_expr(s, j + 1, le) {
                Some((c, p)) => Some((Tree::Not(Box::new(c)), p)),
                None => None,
            }
        } else if s[j] == '(' {
            match model_expr(s, j + 1, le) {
                None => None,
                Some((t, p)) => {
                    let k = skip_blank(s, p);
                    if !(j + 1 < p <= k < le) {
                        None
                    } else if s[k] == ')' {
                        Some((t, k + 1))
                    } else if s[k] == '&' || s[k] == '|' {
                        match model_ops(s, k, le, s[k]) {
                            None => None,
                            Some((ts, q)) => Some((if s[k] == '&' { Tree::And(seq![t] + ts) } else { Tree::Or(seq![t] + ts) }, q)),
                        }
                    } else {
                        None
                    }
                },
            }
        } else if j + 4 <= le && s[j] == 'd' && s[j + 1] == 'e' && s[j + 2] == 'f' && s[j + 3] == '(' {
            let q = close_paren(s, j + 4, le);
            let start = skip_blank(s, j + 4);
            let end = trim_end(s, start, q);
            if q < le && start < end {
                Some((Tree::Named(s.subrange(start, end)), q + 1))
            } else {
                None
            }
        } else if is_unsupported_at(s, j, le) {
            Some((Tree::Named(unsupported()), j + 13))
        } else {
            None
        }
    }
}

/// Parses the rest of a conjunction (`op` is `&`) or disjunction (`op` is `|`) at `i`, where `s[i]`
/// is an operator: further operands up to the closing `)`. Returns their trees and the position after the `)`.
pub open spec fn model_ops(s: Seq<char>, i: int, le: int, op: char) -> Option<(Seq<Tree>, int)>
    decreases le - i, 2int,
{
    if !(0 <= i < le <= s.len() && s[i] == op) {
        None
    } else {
        match model_expr(s, i + 1, le) {
            None => None,
            Some((t, p)) => {
                let k = skip_blank(s, p);
                if !(i + 1 < p <= k < le) {
                    None
                } else if s[k] == ')' {
                    Some((seq![t], k + 1))
                } else if s[k] == op {
                    match model_ops(s, k, le, op) {
                        None => None,
                        Some((ts, q)) => Some((seq![t] + ts, q)),
                    }
                } else {
                    None
                }
            },
        }
    }
}

/// Parses one line `s[i..le]`: `Some(None)` for a blank line or a comment, `Some(Some(t))` for a constraint.
pub open spec fn model_line(s: Seq<char>, i: int, le: int) -> Option<Option<Tree>> {
    let j = skip_blank(s, i);
    if j >= le || s[j] == '#' {
        Some(None)
    } else {
        match model_expr(s, j, le) {
            None => None,
            Some((t, p)) => if skip_blank(s, p) == le {
                Some(Some(t))
            } else {
                None
            },
        }
    }
}

/// Parses the lines starting at `i`, returning the trees of their constraints.
pub open spec fn model_lines(s: Seq<char>, i: int) -> Option<Seq<Tree>>
    decreases s.len() - i,
{
    if !(0 <= i < s.len()) {
        Some(Seq::empty())
    } else {
        let le = line_end(s, i);
        proof {
            lemma_line_end(s, i);
        }
        let rest = if le < s.len() { model_lines(s, le + 1) } else { Some(Seq::empty()) };
        match model_line(s, i, le) {
            None => None,
            Some(line) => match rest {
                None => None,
                Some(ts) => Some(match line {
                    Some(t) => seq![t] + ts,
                    None => ts,
                }),
            },
        }
    }
}

/// Skipping blanks over a run of blanks that ends a line reaches the end of the line.
proof fn lemma_skip_blank_line_end(s: Seq<char>, i: int, le: int)
    requires
        0 <= i <= le,
        i <= s.len(),
        le == line_end(s, i),
        forall|k: int| i <= k < le ==> #[trigger] is_blank(s[k]),
    ensures
        skip_blank(s, i) >= le,
    decreases le - i,
{
    lemma_line_end(s, i);
    if i < le {
        lemma_skip_blank_line_end(s, i + 1, le);
    }
}

/// A line of a .model file that holds only blanks is no constraint and no error: the constraints
/// from its start are those from the next line on.
pub proof fn law_blank_line_ignored(s: Seq<char>, i: int)
    requires
        0 <= i < s.len(),
        forall|k: int| i <= k < line_end(s, i) ==> #[trigger] is_blank(s[k]),
    ensures
        model_lines(s, i) == (if line_end(s, i) < s.len() { model_lines(s, line_end(s, i) + 1) } else { Some(Seq::<Tree>::empty()) }),
{
    let le = line_end(s, i);
    lemma_line_end(s, i);
    lemma_skip_blank_line_end(s, i, le);
    assert(model_line(s, i, le) == Some(None::<Tree>));
    if le < s.len() {
        match model_lines(s, le + 1) {
            None => {},
            Some(ts) => {},
        }
    }
}

/// The names of the variables in a tree.
pub open spec fn tree_names(t: Tree) -> Set<Seq<char>>
    decreases t,
{
    match t {
        Tree::Ref(_, _) => Set::empty(),
        Tree::Named(n) => set![n],
        Tree::Not(c) => tree_names(*c),
        Tree::And(ts) => trees_names(ts),
        Tree::Or(ts) => trees_names(ts),
    }
}

/// The names of the variables in a list of trees.
pub open spec fn trees_names(ts: Seq<Tree>) -> Set<Seq<char>>
    decreases ts,
{
    if ts.len() == 0 {
        Set::empty()
    } else {
        trees_names(ts.drop_last()).union(tree_names(ts.last()))
    }
}

/// The variables of an arena whose names are in `ns`.
pub open spec fn named_vars(vv: Seq<VarV>, ns: Set<Seq<char>>) -> Set<VarId> {
    Set::new(|v: VarId| 0 <= v < vv.len() && (vv[v as int] matches VarV::Named(n) && ns.contains(n)))
}

/// Whether all names in `ns` are names of variables of the arena.
pub open spec fn all_named(vv: Seq<VarV>, ns: Set<Seq<char>>) -> bool {
    forall|n: Seq<char>| #[trigger] ns.contains(n) ==> exists|v: int| 0 <= v < vv.len() && vv[v] == VarV::Named(n)
}

/// What building a constraint keeps of the arena.
pub open spec fn arena_names(old_a: &Arena, new_a: &Arena) -> bool {
    &&& new_a.wf()
    &&& extends(new_a.ev(), old_a.ev())
    &&& extends(new_a.vv(), old_a.vv())
    &&& new_a.new_vars == old_a.new_vars
    &&& new_a.new_exprs == old_a.new_exprs
}

/// The end of the placeholder name within a line.
fn close_paren_exec(s: &Vec<char>, i: usize, le: usize) -> (r: usize)
    requires
        i <= le <= s@.len(),
    ensures
        r == close_paren(s@, i as int, le as int),
        i <= r <= le,
{
    let mut k = i;
    while k < le && s[k] != ')'
        invariant
            i <= k <= le <= s@.len(),
            close_paren(s@, k as int, le as int) == close_paren(s@, i as int, le as int),
        decreases le - k,
    {
        k = k + 1;
    }
    k
}

/// Returns the end of `s[lo..hi]` without trailing blanks (see `trim_end`).
fn trim_end_model(s: &Vec<char>, lo: usize, hi: usize) -> (r: usize)
    requires
        lo <= hi <= s@.len(),
    ensures
        r == trim_end(s@, lo as int, hi as int),
        lo <= r <= hi,
{
    let mut h = hi;
    while lo < h && (s[h - 1] == ' ' || s[h - 1] == '\t' || s[h - 1] == '\r')
        invariant
            lo <= h <= hi <= s@.len(),
            trim_end(s@, lo as int, h as int) == trim_end(s@, lo as int, hi as int),
        decreases h,
    {
        h = h - 1;
    }
    h
}

/// Returns whether the text at `i` is the placeholder `<unsupported>` (see `is_unsupported_at`).
fn is_unsupported_exec(s: &Vec<char>, i: usize, le: usize) -> (r: bool)
    requires
        i <= le <= s@.len(),
    ensures
        r == is_unsupported_at(s@, i as int, le as int),
{
    if le - i < 13 {
        return false;
    }
    let pat = chars_of("<unsupported>");
    proof {
        reveal_strlit("<unsupported>");
        assert(pat@ =~= unsupported());
    }
    let mut k: usize = 0;
    while k < 13
        invariant
            k <= 13,
            i + 13 <= le <= s@.len(),
            pat@ == unsupported(),
            forall|x: int| 0 <= x < k ==> s@[i + x] == pat@[x],
        decreases 13 - k,
    {
        if s[i + k] != pat[k] {
            proof {
                assert(s@.subrange(i as int, i + 13)[k as int] != unsupported()[k as int]);
            }
            return false;
        }
        k = k + 1;
    }
    assert(s@.subrange(i as int, i + 13) =~= unsupported());
    true
}

/// The position after an expression lies after its start and within its line.
pub proof fn lemma_model_expr_bounds(s: Seq<char>, i: int, le: int)
    requires
        model_expr(s, i, le) is Some,
    ensures
        i < model_expr(s, i, le).unwrap().1 <= le,
        le <= s.len(),
    decreases le - i, 1int,
{
    lemma_skip_blank(s, i);
    let j = skip_blank(s, i);
    if s[j] == '!' {
        lemma_model_expr_bounds(s, j + 1, le);
    } else if s[j] == '(' {
        let p = model_expr(s, j + 1, le).unwrap().1;
        let k = skip_blank(s, p);
        if s[k] != ')' {
            lemma_model_ops_bounds(s, k, le, s[k]);
        }
    } else if j + 4 <= le && s[j] == 'd' && s[j + 1] == 'e' && s[j + 2] == 'f' && s[j + 3] == '(' {
        lemma_close_paren(s, j + 4, le);
    }
}

/// The closing parenthesis is not before its start, nor past the end of the line.
pub proof fn lemma_close_paren(s: Seq<char>, i: int, le: int)
    requires
        i <= le,
    ensures
        i <= close_paren(s, i, le) <= le,
        close_paren(s, i, le) < le ==> s[close_paren(s, i, le)] == ')',
    decreases le - i,
{
    if i < le && s[i] != ')' {
        lemma_close_paren(s, i + 1, le);
    }
}

/// The position after the operands lies after their start and within the line.
pub proof fn lemma_model_ops_bounds(s: Seq<char>, i: int, le: int, op: char)
    requires
        model_ops(s, i, le, op) is Some,
    ensures
        i < model_ops(s, i, le, op).unwrap().1 <= le,
    decreases le - i, 2int,
{
    let p = model_expr(s, i + 1, le).unwrap().1;
    let k = skip_blank(s, p);
    if s[k] != ')' {
        lemma_model_ops_bounds(s, k, le, op);
    }
}

/// Blanks within a line do not reach past its end.
proof fn lemma_skip_blank_line(s: Seq<char>, i: int, le: int)
    requires
        0 <= i <= le <= s.len(),
        le == s.len() || !is_blank(s[le]),
    ensures
        i <= skip_blank(s, i) <= le,
{
    lemma_skip_blank(s, i);
    if skip_blank(s, i) > le {
        assert(is_blank(s[le]));
    }
}

/// Whether no two variables of an arena are equal (which `Arena::wf` guarantees).
pub open spec fn unique_vars(vv: Seq<VarV>) -> bool {
    forall|i: int, j: int| 0 <= i < vv.len() && 0 <= j < vv.len() && #[trigger] vv[i] == #[trigger] vv[j] ==> i == j
}

proof fn lemma_unique_vars(a: &Arena)
    requires
        a.wf(),
    ensures
        unique_vars(a.vv()),
{
    assert forall|i: int, j: int| 0 <= i < a.vv().len() && 0 <= j < a.vv().len() && #[trigger] a.vv()[i] == #[trigger] a.vv()[j] implies i == j by {
        assert(a.vars@[i]@ == a.vars@[j]@);
    }
}

/// Variables named in `ns` stay the same when the arena only grows, if all those names exist already.
proof fn lemma_named_vars_extends(vv1: Seq<VarV>, vv2: Seq<VarV>, ns: Set<Seq<char>>)
    requires
        extends(vv2, vv1),
        unique_vars(vv2),
        all_named(vv1, ns),
    ensures
        named_vars(vv2, ns) == named_vars(vv1, ns),
        all_named(vv2, ns),
{
    assert forall|x: VarId| named_vars(vv2, ns).contains(x) implies named_vars(vv1, ns).contains(x) by {
        if let VarV::Named(m) = vv2[x as int] {
            assert(ns.contains(m));
            let y = choose|y: int| 0 <= y < vv1.len() && vv1[y] == VarV::Named(m);
            assert(vv2[y] == vv1[y]);
            assert(x == y);
        }
    }
    assert forall|x: VarId| named_vars(vv1, ns).contains(x) implies named_vars(vv2, ns).contains(x) by {
        assert(vv2[x as int] == vv1[x as int]);
    }
    assert(named_vars(vv2, ns) =~= named_vars(vv1, ns));
    assert forall|n: Seq<char>| #[trigger] ns.contains(n) implies exists|v: int| 0 <= v < vv2.len() && vv2[v] == VarV::Named(n) by {
        let y = choose|y: int| 0 <= y < vv1.len() && vv1[y] == VarV::Named(n);
        assert(vv2[y] == vv1[y]);
    }
}

/// The names of a list of trees with a first element.
proof fn lemma_trees_names_cons(t: Tree, ts: Seq<Tree>)
    ensures
        trees_names(seq![t] + ts) == tree_names(t).union(trees_names(ts)),
    decreases ts.len(),
{
    if ts.len() == 0 {
        assert(seq![t] + ts =~= seq![t]);
        assert(seq![t].drop_last() =~= Seq::<Tree>::empty());
        assert(seq![t].last() == t);
        assert(trees_names(Seq::<Tree>::empty()) == Set::<Seq<char>>::empty());
        assert(trees_names(seq![t]) =~= tree_names(t).union(trees_names(ts)));
    } else {
        lemma_trees_names_cons(t, ts.drop_last());
        assert((seq![t] + ts).drop_last() =~= seq![t] + ts.drop_last());
        assert((seq![t] + ts).last() == ts.last());
        assert(trees_names(seq![t] + ts) =~= tree_names(t).union(trees_names(ts)));
    }
}

/// What building a constraint `t` adds to the set of variables of a formula.
pub open spec fn names_added(sub0: Set<VarId>, sub1: Set<VarId>, vv: Seq<VarV>, ns: Set<Seq<char>>) -> bool {
    &&& sub1 == sub0.union(named_vars(vv, ns))
    &&& all_named(vv, ns)
}

/// Adds the expression parsed at `i` (within the line ending at `le`) to the arena, adding the
/// identifiers of its variables to `sub`. Returns its identifier and the position after it,
/// or `None` if it does not follow the format.
fn build_model_expr(s: &Vec<char>, i: usize, le: usize, arena: &mut Arena, sub: &mut HashSet<VarId>) -> (r: Option<(ExprId, usize)>)
    requires
        old(arena).wf(),
        i <= le <= s@.len(),
        le == s@.len() || !is_blank(s@[le as int]),
        old(arena).vars@.len() + (le - i) < i32::MAX,
    ensures
        crate::tseitin::tseitin_hyp(old(arena).ev()) ==> crate::tseitin::tseitin_hyp(final(arena).ev()),
        arena_names(old(arena), final(arena)),
        match model_expr(s@, i as int, le as int) {
            None => r is None,
            Some((t, p)) => r matches Some((id, q)) && q == p
                && realizes(final(arena).ev(), final(arena).vv(), id, t, Seq::empty())
                && names_added(old(sub)@, final(sub)@, final(arena).vv(), tree_names(t))
                && final(arena).vars@.len() <= old(arena).vars@.len() + (p - i),
        },
    decreases le - i, 1int,
{
    let j = skip_blank_exec(s, i);
    proof {
        lemma_skip_blank_line(s@, i as int, le as int);
    }
    if !(j < le) {
        return None;
    }
    if s[j] == '!' {
        match build_model_expr(s, j + 1, le, arena, sub) {
            None => None,
            Some((c, p)) => {
                let ghost t = model_expr(s@, j + 1, le as int).unwrap().0;
                let ghost before = *arena;
                let id = arena.expr(Expr::Not(c));
                proof {
                    lemma_realizes_valid(before.ev(), before.vv(), c, t, Seq::empty());
                    lemma_simplified_extends(before.ev(), arena.ev(), ExprV::Not(c), arena.ev()[id as int], arena.vars@.len());
                    lemma_realizes_extends(before.ev(), arena.ev(), before.vv(), arena.vv(), c, t, Seq::empty());
                    assert(realizes(arena.ev(), arena.vv(), id, Tree::Not(Box::new(t)), Seq::empty()));
                }
                Some((id, p))
            },
        }
    } else if s[j] == '(' {
        let ghost sub0 = sub@;
        match build_model_expr(s, j + 1, le, arena, sub) {
            None => None,
            Some((c, p)) => {
                proof {
                    lemma_model_expr_bounds(s@, j + 1, le as int);
                    lemma_skip_blank_line(s@, p as int, le as int);
                }
                let ghost t = model_expr(s@, j + 1, le as int).unwrap().0;
                let k = skip_blank_exec(s, p);
                if !(j + 1 < p && k < le) {
                    return None;
                }
                if s[k] == ')' {
                    Some((c, k + 1))
                } else if s[k] == '&' || s[k] == '|' {
                    let op = s[k];
                    let ghost mid = *arena;
                    let ghost sub1 = sub@;
                    match build_model_ops(s, k, le, op, arena, sub) {
                        None => None,
                        Some((rest, q)) => {
                            let ghost ts = model_ops(s@, k as int, le as int, op).unwrap().0;
                            let ghost before = *arena;
                            let ghost rest_v = rest@;
                            let mut cids: Vec<ExprId> = Vec::new();
                            cids.push(c);
                            let mut rest = rest;
                            cids.append(&mut rest);
                            proof {
                                lemma_unique_vars(arena);
                                lemma_realizes_extends(mid.ev(), arena.ev(), mid.vv(), arena.vv(), c, t, Seq::empty());
                                lemma_realizes_all_cons(arena.ev(), arena.vv(), c, t, rest_v, ts, Seq::empty());
                                assert(cids@ =~= seq![c] + rest_v);
                                lemma_realizes_all_valid(arena.ev(), arena.vv(), cids@, seq![t] + ts, Seq::empty());
                                lemma_named_vars_extends(mid.vv(), arena.vv(), tree_names(t));
                                lemma_trees_names_cons(t, ts);
                                assert(sub@ =~= sub0.union(named_vars(arena.vv(), trees_names(seq![t] + ts))));
                                assert(all_named(arena.vv(), trees_names(seq![t] + ts)));
                            }
                            let ghost cv = cids@;
                            let id = if op == '&' { arena.expr(Expr::And(cids)) } else { arena.expr(Expr::Or(cids)) };
                            proof {
                                lemma_unique_vars(arena);
                                lemma_realizes_all_extends(before.ev(), arena.ev(), before.vv(), arena.vv(), cv, seq![t] + ts, Seq::empty());
                                if op == '&' {
                                    lemma_simplified_extends(before.ev(), arena.ev(), ExprV::And(cv), arena.ev()[id as int], arena.vars@.len());
                                    assert(realizes(arena.ev(), arena.vv(), id, Tree::And(seq![t] + ts), Seq::empty()));
                                } else {
                                    lemma_simplified_extends(before.ev(), arena.ev(), ExprV::Or(cv), arena.ev()[id as int], arena.vars@.len());
                                    assert(realizes(arena.ev(), arena.vv(), id, Tree::Or(seq![t] + ts), Seq::empty()));
                                }
                                assert(tree_names(Tree::And(seq![t] + ts)) == trees_names(seq![t] + ts));
                                assert(tree_names(Tree::Or(seq![t] + ts)) == trees_names(seq![t] + ts));
                            }
                            Some((id, q))
                        },
                    }
                } else {
                    None
                }
            },
        }
    } else if le - j >= 4 && s[j] == 'd' && s[j + 1] == 'e' && s[j + 2] == 'f' && s[j + 3] == '(' {
        let q = close_paren_exec(s, j + 4, le);
        let start = skip_blank_exec(s, j + 4);
        proof {
            lemma_skip_blank(s@, j + 4);
        }
        let end = if start <= q { trim_end_model(s, start, q) } else { start };
        proof {
            if start > q {
                assert(trim_end(s@, start as int, q as int) == q);
            }
        }
        if !(q < le && start < end) {
            return None;
        }
        let mut name: Vec<char> = Vec::new();
        let mut x = start;
        while x < end
            invariant
                start <= x <= end <= q <= s@.len(),
                name@ == s@.subrange(start as int, x as int),
            decreases end - x,
        {
            name.push(s[x]);
            x = x + 1;
            assert(name@ =~= s@.subrange(start as int, x as int));
        }
        let ghost sub0 = sub@;
        let ghost before = *arena;
        let (id, v) = arena.var_expr_with_id(string_of(&name));
        sub.insert(v);
        proof {
            lemma_unique_vars(arena);
            let nm = s@.subrange(start as int, end as int);
            assert(named_vars(arena.vv(), set![nm]) =~= set![v]) by {
                assert forall|y: VarId| named_vars(arena.vv(), set![nm]).contains(y) implies y == v by {
                    assert(arena.vv()[y as int] == arena.vv()[v as int]);
                }
            }
            assert(sub@ =~= sub0.union(named_vars(arena.vv(), tree_names(Tree::Named(nm)))));
        }
        Some((id, q + 1))
    } else if is_unsupported_exec(s, j, le) {
        let ghost sub0 = sub@;
        let name = chars_of("<unsupported>");
        proof {
            reveal_strlit("<unsupported>");
            assert(name@ =~= unsupported());
        }
        let (id, v) = arena.var_expr_with_id(string_of(&name));
        sub.insert(v);
        proof {
            lemma_unique_vars(arena);
            assert(named_vars(arena.vv(), set![unsupported()]) =~= set![v]) by {
                assert forall|y: VarId| named_vars(arena.vv(), set![unsupported()]).contains(y) implies y == v by {
                    assert(arena.vv()[y as int] == arena.vv()[v as int]);
                }
            }
            assert(sub@ =~= sub0.union(named_vars(arena.vv(), tree_names(Tree::Named(unsupported())))));
        }
        Some((id, j + 13))
    } else {
        None
    }
}

/// Adds the operands parsed at `i` to the arena (see `model_ops` and `build_model_expr`).
fn build_model_ops(s: &Vec<char>, i: usize, le: usize, op: char, arena: &mut Arena, sub: &mut HashSet<VarId>) -> (r: Option<(Vec<ExprId>, usize)>)
    requires
        old(arena).wf(),
        i < le <= s@.len(),
        s@[i as int] == op,
        le == s@.len() || !is_blank(s@[le as int]),
        old(arena).vars@.len() + (le - i) < i32::MAX,
    ensures
        crate::tseitin::tseitin_hyp(old(arena).ev()) ==> crate::tseitin::tseitin_hyp(final(arena).ev()),
        arena_names(old(arena), final(arena)),
        match model_ops(s@, i as int, le as int, op) {
            None => r is None,
            Some((ts, p)) => r matches Some((cids, q)) && q == p
                && realizes_all(final(arena).ev(), final(arena).vv(), cids@, ts, Seq::empty())
                && names_added(old(sub)@, final(sub)@, final(arena).vv(), trees_names(ts))
                && final(arena).vars@.len() <= old(arena).vars@.len() + (p - i),
        },
    decreases le - i, 2int,
{
    let ghost sub0 = sub@;
    match build_model_expr(s, i + 1, le, arena, sub) {
        None => None,
        Some((c, p)) => {
            proof {
                lemma_model_expr_bounds(s@, i + 1, le as int);
                lemma_skip_blank_line(s@, p as int, le as int);
            }
            let ghost t = model_expr(s@, i + 1, le as int).unwrap().0;
            let k = skip_blank_exec(s, p);
            if !(i + 1 < p && k < le) {
                return None;
            }
            if s[k] == ')' {
                let mut cids: Vec<ExprId> = Vec::new();
                cids.push(c);
                proof {
                    assert(realizes_all(arena.ev(), arena.vv(), Seq::<ExprId>::empty(), Seq::<Tree>::empty(), Seq::empty()));
                    lemma_realizes_all_push(arena.ev(), arena.vv(), Seq::<ExprId>::empty(), Seq::<Tree>::empty(), Seq::empty(), c, t);
                    assert(cids@ =~= Seq::<ExprId>::empty().push(c));
                    assert(seq![t] =~= Seq::<Tree>::empty().push(t));
                    assert(seq![t].drop_last() =~= Seq::<Tree>::empty());
                    assert(seq![t].last() == t);
                    assert(trees_names(Seq::<Tree>::empty()) == Set::<Seq<char>>::empty());
                    assert(trees_names(seq![t]) =~= tree_names(t));
                }
                Some((cids, k + 1))
            } else if s[k] == op {
                let ghost mid = *arena;
                match build_model_ops(s, k, le, op, arena, sub) {
                    None => None,
                    Some((rest, q)) => {
                        let ghost ts = model_ops(s@, k as int, le as int, op).unwrap().0;
                        let ghost rest_v = rest@;
                        let mut cids: Vec<ExprId> = Vec::new();
                        cids.push(c);
                        let mut rest = rest;
                        cids.append(&mut rest);
                        proof {
                            lemma_unique_vars(arena);
                            lemma_realizes_extends(mid.ev(), arena.ev(), mid.vv(), arena.vv(), c, t, Seq::empty());
                            lemma_realizes_all_cons(arena.ev(), arena.vv(), c, t, rest_v, ts, Seq::empty());
                            assert(cids@ =~= seq![c] + rest_v);
                            lemma_named_vars_extends(mid.vv(), arena.vv(), tree_names(t));
                            lemma_trees_names_cons(t, ts);
                            assert(sub@ =~= sub0.union(named_vars(arena.vv(), trees_names(seq![t] + ts))));
                        }
                        Some((cids, q))
                    },
                }
            } else {
                None
            }
        },
    }
}

/// Variables named in a union of name sets.
proof fn lemma_named_vars_union(vv: Seq<VarV>, a: Set<Seq<char>>, b: Set<Seq<char>>)
    ensures
        named_vars(vv, a.union(b)) == named_vars(vv, a).union(named_vars(vv, b)),
{
    assert(named_vars(vv, a.union(b)) =~= named_vars(vv, a).union(named_vars(vv, b)));
}

/// Adds the constraint on the line `s[i..le]` to the arena, if there is one (see `model_line`),
/// adding the identifiers of its variables to `sub`.
fn build_model_line(s: &Vec<char>, i: usize, le: usize, arena: &mut Arena, sub: &mut HashSet<VarId>) -> (r: Option<Option<ExprId>>)
    requires
        old(arena).wf(),
        i <= le <= s@.len(),
        le == s@.len() || s@[le as int] == '\n',
        old(arena).vars@.len() + (le - i) < i32::MAX,
    ensures
        crate::tseitin::tseitin_hyp(old(arena).ev()) ==> crate::tseitin::tseitin_hyp(final(arena).ev()),
        arena_names(old(arena), final(arena)),
        match model_line(s@, i as int, le as int) {
            None => r is None,
            Some(None) => r == Some(None::<ExprId>) && *final(arena) == *old(arena) && final(sub)@ == old(sub)@,
            Some(Some(t)) => r matches Some(Some(id))
                && realizes(final(arena).ev(), final(arena).vv(), id, t, Seq::empty())
                && names_added(old(sub)@, final(sub)@, final(arena).vv(), tree_names(t))
                && final(arena).vars@.len() <= old(arena).vars@.len() + (le - i),
        },
{
    proof {
        lemma_skip_blank_line(s@, i as int, le as int);
    }
    let j = skip_blank_exec(s, i);
    if !(j < le && s[j] != '#') {
        return Some(None);
    }
    match build_model_expr(s, j, le, arena, sub) {
        None => None,
        Some((id, p)) => {
            proof {
                lemma_model_expr_bounds(s@, j as int, le as int);
            }
            if skip_blank_exec(s, p) != le {
                None
            } else {
                Some(Some(id))
            }
        },
    }
}

/// What parsing a .model file yields (see `ModelParser::parse_into`).
pub open spec fn model_parsed(old_a: &Arena, new_a: &Arena, contents: Seq<char>, r: Result<Formula, ParseError>) -> bool {
    if old_a.vars@.len() + contents.len() >= i32::MAX {
        r == Err::<Formula, ParseError>(ParseError::TooManyVariables)
    } else {
        match model_lines(contents, 0) {
            None => r == Err::<Formula, ParseError>(ParseError::Syntax),
            Some(ts) => r matches Ok(f) && f.valid_in(new_a)
                && realizes(new_a.ev(), new_a.vv(), f.root_id, Tree::And(ts), Seq::empty())
                && f.sub_var_ids@ == named_vars(new_a.vv(), trees_names(ts))
                && f.file is Some,
        }
    }
}

/// Parses feature-model formula files in the .model format.
pub struct ModelParser;

impl ModelParser {
    /// Parses a .model file into an arena, returning the parsed formula: the conjunction of the
    /// constraints on its lines, over the variables named in them.
    ///
    /// Fails with `Syntax` if a line does not follow the format, and with `TooManyVariables` if the
    /// arena might not hold the variables of the file (more than `i32::MAX` variables together with
    /// the file's length in characters). Does not modify the expressions of any other formula in the arena.
    pub fn parse_into(&self, file: File, arena: &mut Arena) -> (r: Result<Formula, ParseError>)
        requires
            old(arena).wf(),
        ensures
            crate::tseitin::tseitin_hyp(old(arena).ev()) ==> crate::tseitin::tseitin_hyp(final(arena).ev()),
            final(arena).wf(),
            extends(final(arena).ev(), old(arena).ev()),
            extends(final(arena).vv(), old(arena).vv()),
            model_parsed(old(arena), final(arena), file.contents@, r),
    {
        let s = chars_of(file.contents.as_str());
        if s.len() >= 2147483647 - arena.vars.len() {
            return Err(ParseError::TooManyVariables);
        }
        let (ids, sub, Ghost(done)) = match build_model_lines(&s, arena) {
            None => {
                return Err(ParseError::Syntax);
            },
            Some(x) => x,
        };
        let ghost before = *arena;
        let ghost iv = ids@;
        proof {
            lemma_realizes_all_valid(before.ev(), before.vv(), iv, done, Seq::empty());
        }
        let root = arena.expr(Expr::And(ids));
        proof {
            lemma_simplified_extends(before.ev(), arena.ev(), ExprV::And(iv), arena.ev()[root as int], arena.vars@.len());
            lemma_realizes_all_extends(before.ev(), arena.ev(), before.vv(), arena.vv(), iv, done, Seq::empty());
            assert(realizes(arena.ev(), arena.vv(), root, Tree::And(done), Seq::empty()));
            assert(arena.vv() == before.vv());
        }
        let f = Formula::new(sub, root, Some(file));
        proof {
            assert forall|v: VarId| #[trigger] f.sub_var_ids@.contains(v) implies 0 < v < arena.vars@.len() by {
                assert(arena.vv()[0] == VarV::Aux(0));
            }
        }
        Ok(f)
    }
}

/// Adds the constraints on all lines to the arena (see `model_lines`), returning their identifiers,
/// the identifiers of their variables, and their syntax trees.
#[verifier::rlimit(40)]
fn build_model_lines(s: &Vec<char>, arena: &mut Arena) -> (r: Option<(Vec<ExprId>, HashSet<VarId>, Ghost<Seq<Tree>>)>)
    requires
        old(arena).wf(),
        old(arena).vars@.len() + s@.len() < i32::MAX,
    ensures
        crate::tseitin::tseitin_hyp(old(arena).ev()) ==> crate::tseitin::tseitin_hyp(final(arena).ev()),
        arena_names(old(arena), final(arena)),
        match model_lines(s@, 0) {
            None => r is None,
            Some(ts) => r matches Some((ids, sub, done)) && done@ == ts
                && realizes_all(final(arena).ev(), final(arena).vv(), ids@, ts, Seq::empty())
                && sub@ == named_vars(final(arena).vv(), trees_names(ts)),
        },
{
    let ghost v0 = arena.vars@.len();
    let mut ids: Vec<ExprId> = Vec::new();
    let mut sub: HashSet<VarId> = HashSet::new();
    let ghost mut done: Seq<Tree> = Seq::empty();
    let mut i: usize = 0;
    proof {
        if let Some(rest) = model_lines(s@, 0) {
            assert(done + rest =~= rest);
        }
        assert(sub@ =~= named_vars(arena.vv(), trees_names(done)));
    }
    while i < s.len()
        invariant
            arena_names(old(arena), arena),
            crate::tseitin::tseitin_hyp(old(arena).ev()) ==> crate::tseitin::tseitin_hyp(arena.ev()),
            v0 == old(arena).vars@.len(),
            v0 + s@.len() < i32::MAX,
            i <= s@.len(),
            arena.vars@.len() <= v0 + i,
            model_lines(s@, 0) == match model_lines(s@, i as int) { Some(rest) => Some(done + rest), None => None::<Seq<Tree>> },
            realizes_all(arena.ev(), arena.vv(), ids@, done, Seq::empty()),
            sub@ == named_vars(arena.vv(), trees_names(done)),
            all_named(arena.vv(), trees_names(done)),
        decreases s.len() - i,
    {
        let le = line_end_exec(s, i);
        proof {
            lemma_line_end(s@, i as int);
        }
        let ghost rest_lines = if le < s@.len() { model_lines(s@, le + 1) } else { Some(Seq::<Tree>::empty()) };
        let ghost before = *arena;
        let ghost sub0 = sub@;
        match build_model_line(s, i, le, arena, &mut sub) {
            None => {
                return None;
            },
            Some(None) => {},
            Some(Some(id)) => {
                let ghost t = model_line(s@, i as int, le as int).unwrap().unwrap();
                proof {
                    lemma_unique_vars(arena);
                    lemma_realizes_all_extends(before.ev(), arena.ev(), before.vv(), arena.vv(), ids@, done, Seq::empty());
                    lemma_realizes_all_push(arena.ev(), arena.vv(), ids@, done, Seq::empty(), id, t);
                    lemma_named_vars_extends(before.vv(), arena.vv(), trees_names(done));
                    lemma_named_vars_union(arena.vv(), trees_names(done), tree_names(t));
                    assert(done.push(t).drop_last() =~= done);
                    assert(trees_names(done.push(t)) == trees_names(done).union(tree_names(t)));
                    if let Some(rest) = rest_lines {
                        assert(done + (seq![t] + rest) =~= done.push(t) + rest);
                    }
                }
                ids.push(id);
                proof {
                    done = done.push(t);
                }
            },
        }
        if le >= s.len() {
            proof {
                assert(done + Seq::<Tree>::empty() =~= done);
            }
            i = le;
        } else {
            i = le + 1;
        }
    }
    proof {
        assert(done + Seq::<Tree>::empty() =~= done);
    }
    Some((ids, sub, Ghost(done)))
}

} // verus!

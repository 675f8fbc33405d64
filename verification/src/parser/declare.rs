//! Declaring the numbered variables of a .sat or .cnf file in an arena.

use std::collections::HashSet;
use vstd::prelude::*;
use crate::arena::{Arena, extends, ids_valid};
use crate::expr::{ExprId, ExprV};
use crate::parser::header::{name_of, name_of_exec, names_view};
use crate::text::string_of;
use crate::var::{VarId, VarV};

verus! {

broadcast use vstd::std_specs::hash::group_hash_axioms;

/// Whether `leaf` is the expression of the `k`-th declared variable (counted from 0): a variable of
/// the formula, named as the header says, or else a new auxiliary variable (numbered from `base` on).
pub open spec fn declared_leaf(ev: Seq<ExprV>, vv: Seq<VarV>, names: Seq<(int, Seq<char>)>, k: int, leaf: ExprId, sub: Set<VarId>, base: int) -> bool {
    &&& leaf < ev.len()
    &&& match ev[leaf as int] {
        ExprV::Var(v) => 0 < v < vv.len() && sub.contains(v) && match name_of(names, k + 1) {
            Some(name) => vv[v as int] == VarV::Named(name),
            None => vv[v as int] is Aux && v >= base,
        },
        _ => false,
    }
}

/// Whether `leaves` are the expressions of the `n` declared variables and `sub` holds exactly their variables.
pub open spec fn declared(ev: Seq<ExprV>, vv: Seq<VarV>, names: Seq<(int, Seq<char>)>, n: int, leaves: Seq<ExprId>, sub: Set<VarId>, base: int) -> bool {
    &&& leaves.len() == n
    &&& forall|k: int| 0 <= k < n ==> declared_leaf(ev, vv, names, k, #[trigger] leaves[k], sub, base)
    &&& forall|v: VarId| #[trigger] sub.contains(v) ==> exists|k: int| 0 <= k < n && ev[leaves[k] as int] == ExprV::Var(v)
}

/// What declaring variables keeps of the arena.
pub open spec fn arena_declares(old_a: &Arena, new_a: &Arena) -> bool {
    &&& new_a.wf()
    &&& extends(new_a.ev(), old_a.ev())
    &&& extends(new_a.vv(), old_a.vv())
    &&& new_a.new_vars == old_a.new_vars
    &&& new_a.new_exprs == old_a.new_exprs
}

/// Declaring keeps declarations made before.
proof fn lemma_declared_leaf_extends(ev1: Seq<ExprV>, ev2: Seq<ExprV>, vv1: Seq<VarV>, vv2: Seq<VarV>, names: Seq<(int, Seq<char>)>, k: int, leaf: ExprId, sub1: Set<VarId>, sub2: Set<VarId>, base: int)
    requires
        declared_leaf(ev1, vv1, names, k, leaf, sub1, base),
        extends(ev2, ev1),
        extends(vv2, vv1),
        sub1.subset_of(sub2),
    ensures
        declared_leaf(ev2, vv2, names, k, leaf, sub2, base),
{
    assert(ev2[leaf as int] == ev1[leaf as int]);
    if let ExprV::Var(v) = ev1[leaf as int] {
        assert(vv2[v as int] == vv1[v as int]);
    }
}

/// Declares the variables `1..=n`: named variables (looked up or added) for those the header names,
/// new auxiliary variables for the others.
///
/// Returns their expressions and the set of their identifiers, or `None` if the arena cannot hold
/// `n` more variables.
pub fn declare_vars(names: &Vec<(i32, Vec<char>)>, n: i32, arena: &mut Arena) -> (r: Option<(Vec<ExprId>, HashSet<VarId>)>)
    requires
        old(arena).wf(),
        n >= 0,
    ensures
        crate::tseitin::tseitin_hyp(old(arena).ev()) ==> crate::tseitin::tseitin_hyp(final(arena).ev()),
        arena_declares(old(arena), final(arena)),
        (old(arena).vars@.len() + n < i32::MAX && old(arena).var_aux_id + n < u32::MAX) <==> r is Some,
        r matches Some((leaves, sub)) ==> declared(final(arena).ev(), final(arena).vv(), names_view(names@), n as int, leaves@, sub@, old(arena).vv().len() as int)
            && ids_valid(leaves@, final(arena).exprs@.len()),
{
    if !((arena.vars.len() as u64) + (n as u64) < 2147483647u64 && (arena.var_aux_id as u64) + (n as u64) < 4294967295u64) {
        return None;
    }
    let ghost base = arena.vv().len() as int;
    let ghost nv = names_view(names@);
    let mut leaves: Vec<ExprId> = Vec::new();
    let mut sub: HashSet<VarId> = HashSet::new();
    let ghost mut lv: Seq<VarId> = Seq::empty();
    let mut k: i32 = 0;
    while k < n
        invariant
            0 <= k <= n,
            arena_declares(old(arena), arena),
            crate::tseitin::tseitin_hyp(old(arena).ev()) ==> crate::tseitin::tseitin_hyp(arena.ev()),
            arena.vars@.len() <= old(arena).vars@.len() + k,
            arena.var_aux_id <= old(arena).var_aux_id + k,
            old(arena).vars@.len() + n < i32::MAX,
            old(arena).var_aux_id + n < u32::MAX,
            base == old(arena).vv().len(),
            nv == names_view(names@),
            leaves@.len() == k,
            lv.len() == k,
            forall|j: int| 0 <= j < k ==> declared_leaf(arena.ev(), arena.vv(), nv, j, #[trigger] leaves@[j], sub@, base),
            forall|j: int| 0 <= j < k ==> arena.ev()[#[trigger] leaves@[j] as int] == ExprV::Var(lv[j]),
            forall|v: VarId| #[trigger] sub@.contains(v) ==> exists|j: int| 0 <= j < k && lv[j] == v,
        decreases n - k,
    {
        let ghost ev0 = arena.ev();
        let ghost vv0 = arena.vv();
        let ghost sub0 = sub@;
        let (leaf, v) = match name_of_exec(names, k + 1) {
            Some(name) => {
                let (e, v) = arena.var_expr_with_id(string_of(name));
                (e, v)
            },
            None => {
                let (v, e) = arena.add_var_aux_expr();
                (e, v)
            },
        };
        proof {
            assert(0 < v) by {
                if v == 0 {
                    assert(arena.vv()[0] == VarV::Aux(0));
                }
            }
        }
        let ghost lv0 = lv;
        sub.insert(v);
        leaves.push(leaf);
        proof {
            lv = lv.push(v);
            assert forall|j: int| 0 <= j < k + 1 implies declared_leaf(arena.ev(), arena.vv(), nv, j, #[trigger] leaves@[j], sub@, base) by {
                if j < k {
                    lemma_declared_leaf_extends(ev0, arena.ev(), vv0, arena.vv(), nv, j, leaves@[j], sub0, sub@, base);
                }
            }
            assert forall|j: int| 0 <= j < k + 1 implies arena.ev()[#[trigger] leaves@[j] as int] == ExprV::Var(lv[j]) by {
                if j < k {
                    assert(arena.ev()[leaves@[j] as int] == ev0[leaves@[j] as int]);
                }
            }
            assert forall|x: VarId| #[trigger] sub@.contains(x) implies exists|j: int| 0 <= j < k + 1 && lv[j] == x by {
                if x == v {
                    assert(lv[k as int] == x);
                } else {
                    assert(sub0.contains(x));
                    let j = choose|j: int| 0 <= j < k && lv0[j] == x;
                    assert(lv[j] == x);
                }
            }
        }
        k = k + 1;
    }
    proof {
        assert forall|v: VarId| #[trigger] sub@.contains(v) implies exists|j: int| 0 <= j < n && arena.ev()[leaves@[j] as int] == ExprV::Var(v) by {
            let j = choose|j: int| 0 <= j < k && lv[j] == v;
            assert(arena.ev()[leaves@[j] as int] == ExprV::Var(lv[j]));
        }
        assert forall|j: int| 0 <= j < leaves@.len() implies #[trigger] leaves@[j] < arena.exprs@.len() by {
            assert(declared_leaf(arena.ev(), arena.vv(), nv, j, leaves@[j], sub@, base));
        }
    }
    Some((leaves, sub))
}

/// Declarations stay valid when the arena only grows.
pub proof fn lemma_declared_extends(ev1: Seq<ExprV>, ev2: Seq<ExprV>, vv1: Seq<VarV>, vv2: Seq<VarV>, names: Seq<(int, Seq<char>)>, n: int, leaves: Seq<ExprId>, sub: Set<VarId>, base: int)
    requires
        declared(ev1, vv1, names, n, leaves, sub, base),
        extends(ev2, ev1),
        extends(vv2, vv1),
    ensures
        declared(ev2, vv2, names, n, leaves, sub, base),
{
    assert forall|k: int| 0 <= k < n implies declared_leaf(ev2, vv2, names, k, #[trigger] leaves[k], sub, base) by {
        lemma_declared_leaf_extends(ev1, ev2, vv1, vv2, names, k, leaves[k], sub, sub, base);
    }
    assert forall|v: VarId| #[trigger] sub.contains(v) implies exists|k: int| 0 <= k < n && ev2[leaves[k] as int] == ExprV::Var(v) by {
        let k = choose|k: int| 0 <= k < n && ev1[leaves[k] as int] == ExprV::Var(v);
        assert(declared_leaf(ev1, vv1, names, k, leaves[k], sub, base));
        assert(ev2[leaves[k] as int] == ev1[leaves[k] as int]);
    }
}

/// The declared variables are variables of the arena other than variable 0.
pub proof fn lemma_declared_valid(ev: Seq<ExprV>, vv: Seq<VarV>, names: Seq<(int, Seq<char>)>, n: int, leaves: Seq<ExprId>, sub: Set<VarId>, base: int)
    requires
        declared(ev, vv, names, n, leaves, sub, base),
    ensures
        forall|v: VarId| #[trigger] sub.contains(v) ==> 0 < v < vv.len(),
        ids_valid(leaves, ev.len()),
{
    assert forall|v: VarId| #[trigger] sub.contains(v) implies 0 < v < vv.len() by {
        let k = choose|k: int| 0 <= k < n && ev[leaves[k] as int] == ExprV::Var(v);
        assert(declared_leaf(ev, vv, names, k, leaves[k], sub, base));
    }
    assert forall|k: int| 0 <= k < leaves.len() implies #[trigger] leaves[k] < ev.len() by {
        assert(declared_leaf(ev, vv, names, k, leaves[k], sub, base));
    }
}

} // verus!

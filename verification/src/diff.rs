//! Preparing two feature-model formulas for differencing.

use std::collections::HashSet;
use vstd::prelude::*;
use crate::arena::Arena;
use crate::clauses::{Clauses, ClausesError, clauses_result, clauses_view, formula_var_ids, satisfies};
use crate::count_inc::{big, big_parse, big_sub, is_big, lemma_big_value_of_decimal};
use crate::file::File;
use crate::expr::{ExprId, ExprV};
use crate::meaning::evaluates;
use crate::formula::Formula;
use crate::shell::{DiffMode, first_unknown, resolve_named_var_ids, strings_view, vars_named};
use crate::text::{chars_of, string_of};
use crate::var::{VarId, VarV};
use crate::visit::{grows, lemma_grows_refl, lemma_grows_trans};

verus! {

broadcast use vstd::std_specs::hash::group_hash_axioms;

/// A mapping between variable names in formula A (left) and formula B (right).
///
/// Exactly one side must have a single variable: `a=b` renames, `a=b,c` splits `a` into `b` and
/// `c`, and `a,b=c` merges `a` and `b` into `c`.
#[derive(Debug)]
pub struct VarMap {
    /// The variables of formula A.
    pub left: Vec<String>,
    /// The variables of formula B.
    pub right: Vec<String>,
}

/// Which CNF transformation to apply to a formula before counting or solving.
#[derive(Clone, Copy, Debug, PartialEq, Eq, Structural)]
pub enum DiffTransform {
    /// Tseitin transformation (introduces auxiliary variables, scales well).
    Tseitin,
    /// Distributive transformation (no auxiliary variables, may blow up exponentially).
    Dist,
}

/// How foreign variables are handled when differencing two formulas.
#[derive(Debug)]
pub enum DiffKind {
    /// Fixes all foreign variables to a default value; variables in `core_vars` are fixed to true
    /// and variables in `dead_vars` to false instead.
    Fixed {
        /// The value of the other foreign variables.
        default: bool,
        /// Variables fixed to true.
        core_vars: HashSet<VarId>,
        /// Variables fixed to false.
        dead_vars: HashSet<VarId>,
    },
    /// Projects the chosen formula onto the common variables of both formulas by slicing.
    Slice,
}

impl DiffMode {
    /// Returns how foreign variables are handled for this mode, given the names listed in its files
    /// (the variables fixed to true and those fixed to false; empty where the mode names no file).
    ///
    /// Fails with the first name that is no variable name of the arena.
    pub fn into_diff_kind(self, core_names: &Vec<String>, dead_names: &Vec<String>, arena: &Arena) -> (r: Result<DiffKind, String>)
        requires
            arena.wf(),
        ensures
            match self {
                DiffMode::Slice => r matches Ok(DiffKind::Slice),
                DiffMode::Fixed { default, .. } => match first_unknown(arena, strings_view(core_names@), 0) {
                    Some(i) => r matches Err(e) && e@ == core_names@[i]@,
                    None => match first_unknown(arena, strings_view(dead_names@), 0) {
                        Some(i) => r matches Err(e) && e@ == dead_names@[i]@,
                        None => r matches Ok(DiffKind::Fixed { default: d, core_vars, dead_vars }) && d == default
                            && core_vars@ == vars_named(arena.vv(), strings_view(core_names@))
                            && dead_vars@ == vars_named(arena.vv(), strings_view(dead_names@)),
                    },
                },
            },
    {
        match self {
            DiffMode::Slice => Ok(DiffKind::Slice),
            DiffMode::Fixed { default, .. } => {
                let core_vars = match resolve_named_var_ids(arena, core_names) {
                    Ok(s) => s,
                    Err(e) => {
                        return Err(e);
                    },
                };
                let dead_vars = match resolve_named_var_ids(arena, dead_names) {
                    Ok(s) => s,
                    Err(e) => {
                        return Err(e);
                    },
                };
                Ok(DiffKind::Fixed { default, core_vars, dead_vars })
            },
        }
    }
}

/// The identifier of the variable with a given name (unique in a well-formed arena).
pub open spec fn name_var(vv: Seq<VarV>, n: Seq<char>) -> VarId {
    choose|v: VarId| 0 <= v < vv.len() && vv[v as int] == VarV::Named(n)
}

/// The identifiers of the variables with the given names.
pub open spec fn name_vars(vv: Seq<VarV>, ns: Seq<Seq<char>>) -> Seq<VarId> {
    ns.map_values(|n: Seq<char>| name_var(vv, n))
}

/// Looks up a variable of a variable mapping by name, failing with the name if it is unknown.
pub fn resolve_mapped_var(name: &str, arena: &Arena) -> (r: Result<VarId, String>)
    requires
        arena.wf(),
    ensures
        arena.has_named(name@) ==> r == Ok::<VarId, String>(name_var(arena.vv(), name@)),
        !arena.has_named(name@) ==> (r matches Err(e) && e@ == name@),
{
    match arena.get_var_named(string_of(&chars_of(name))) {
        Some(v) => {
            proof {
                let w = name_var(arena.vv(), name@);
                assert(arena.vv()[v as int] == VarV::Named(name@));
                assert(arena.vars@[w as int]@ == arena.vars@[v as int]@);
            }
            Ok(v)
        },
        None => Err(string_of(&chars_of(name))),
    }
}

/// Why a list of variable mappings cannot be applied.
#[derive(Debug)]
pub enum VarMapError {
    /// A mapping has no variable on some side, or several variables on both sides.
    Shape,
    /// A mapping names a variable that does not exist.
    Unknown(String),
    /// A variable of a mapping does not occur exclusively in its side's formula.
    NotExclusive(String),
}

/// Why a list of variable mappings cannot be applied, as plain values.
pub enum VarMapErrorV {
    /// A mapping has no variable on some side, or several variables on both sides.
    Shape,
    /// A mapping names a variable that does not exist.
    Unknown(Seq<char>),
    /// A variable of a mapping does not occur exclusively in its side's formula.
    NotExclusive(Seq<char>),
}

/// The plain value of a variable-mapping error.
pub open spec fn error_view(e: VarMapError) -> VarMapErrorV {
    match e {
        VarMapError::Shape => VarMapErrorV::Shape,
        VarMapError::Unknown(n) => VarMapErrorV::Unknown(n@),
        VarMapError::NotExclusive(n) => VarMapErrorV::NotExclusive(n@),
    }
}

/// The position of the first variable that is not in `own` or is in `other`, if any.
pub open spec fn first_not_exclusive(ids: Seq<VarId>, own: Set<VarId>, other: Set<VarId>, i: int) -> Option<int>
    decreases ids.len() - i,
{
    if !(0 <= i < ids.len()) {
        None
    } else if !(own.contains(ids[i]) && !other.contains(ids[i])) {
        Some(i)
    } else {
        first_not_exclusive(ids, own, other, i + 1)
    }
}

/// What applying one variable mapping `l=r` does to the variables `sa` of formula A and `sb` of
/// formula B: a rename or split replaces `l[0]` by the variables `r` in A, a merge replaces `r[0]`
/// by the variables `l` in B.
pub open spec fn map_step(arena: &Arena, sa: Set<VarId>, sb: Set<VarId>, l: Seq<Seq<char>>, r: Seq<Seq<char>>) -> Result<(Set<VarId>, Set<VarId>), VarMapErrorV> {
    if !((l.len() == 1 || r.len() == 1) && l.len() >= 1 && r.len() >= 1) {
        Err(VarMapErrorV::Shape)
    } else {
        match first_unknown(arena, l + r, 0) {
            Some(i) => Err(VarMapErrorV::Unknown((l + r)[i])),
            None => {
                let lv = name_vars(arena.vv(), l);
                let rv = name_vars(arena.vv(), r);
                match first_not_exclusive(lv, sa, sb, 0) {
                    Some(i) => Err(VarMapErrorV::NotExclusive(l[i])),
                    None => match first_not_exclusive(rv, sb, sa, 0) {
                        Some(i) => Err(VarMapErrorV::NotExclusive(r[i])),
                        None => if l.len() == 1 {
                            Ok((sa.remove(lv[0]).union(rv.to_set()), sb))
                        } else {
                            Ok((sa, sb.remove(rv[0]).union(lv.to_set())))
                        },
                    },
                }
            },
        }
    }
}

/// The names of a list of variable mappings.
pub open spec fn maps_view(ms: Seq<VarMap>) -> Seq<(Seq<Seq<char>>, Seq<Seq<char>>)> {
    ms.map_values(|m: VarMap| (strings_view(m.left@), strings_view(m.right@)))
}

/// What applying variable mappings in order does to the variables of formulas A and B, or the first error.
pub open spec fn maps_spec(arena: &Arena, sa: Set<VarId>, sb: Set<VarId>, ms: Seq<(Seq<Seq<char>>, Seq<Seq<char>>)>) -> Result<(Set<VarId>, Set<VarId>), VarMapErrorV>
    decreases ms.len(),
{
    if ms.len() == 0 {
        Ok((sa, sb))
    } else {
        match maps_spec(arena, sa, sb, ms.drop_last()) {
            Ok((x, y)) => map_step(arena, x, y, ms.last().0, ms.last().1),
            Err(e) => Err(e),
        }
    }
}

/// Whether `f` in `x` is a copy of `formula` in `arena` after the distributive transformation:
/// with the formula's variables and the arena's variables, keeping the meaning of every expression
/// and of the root, with the canonical root, reached by a traversal that applies the
/// negation-normal-form visitor before and the distributive visitor after the children (see
/// `Formula::to_cnf_dist`).
pub open spec fn dist_copy(f: Formula, x: Arena, formula: Formula, arena: Arena) -> bool {
    &&& x.wf()
    &&& f.valid_in(&x)
    &&& f.sub_var_ids@ == formula.sub_var_ids@
    &&& x.vv() == arena.vv()
    &&& crate::meaning::keeps_meaning(x.ev(), arena.ev())
    &&& crate::meaning::same_meaning(x.ev(), f.root_id, arena.ev(), formula.root_id)
    &&& f.root_id == x.canon_id(formula.root_id)
    &&& exists|x0: Arena, arenas: Seq<Arena>, steps: Seq<(crate::visit::Visitor, ExprId)>, entered: Seq<bool>|
        x0.ev() == arena.ev() && x0.vv() == arena.vv()
        && #[trigger] crate::visit::traversal_done(arenas, steps, entered, x0, x, formula.root_id,
            crate::visit::Visitor::Nnf, crate::visit::Visitor::CnfDist)
}

/// Resolves the names of a list of variable mappings: the identifier of each name, if it exists.
fn resolve_names(names: &Vec<String>, arena: &Arena) -> (r: Vec<Option<VarId>>)
    requires
        arena.wf(),
    ensures
        r@.len() == names@.len(),
        forall|i: int| 0 <= i < r@.len() ==> (#[trigger] r@[i] matches Some(v) ==> (arena.has_named(names@[i]@) && v == name_var(arena.vv(), names@[i]@))),
        forall|i: int| 0 <= i < r@.len() ==> (#[trigger] r@[i] is None ==> !arena.has_named(names@[i]@)),
{
    let mut r: Vec<Option<VarId>> = Vec::new();
    let mut i: usize = 0;
    while i < names.len()
        invariant
            arena.wf(),
            i <= names@.len(),
            r@.len() == i,
            forall|j: int| 0 <= j < i ==> (#[trigger] r@[j] matches Some(v) ==> (arena.has_named(names@[j]@) && v == name_var(arena.vv(), names@[j]@))),
            forall|j: int| 0 <= j < i ==> (#[trigger] r@[j] is None ==> !arena.has_named(names@[j]@)),
        decreases names.len() - i,
    {
        let x = match resolve_mapped_var(names[i].as_str(), arena) {
            Ok(v) => Some(v),
            Err(_) => None,
        };
        r.push(x);
        i = i + 1;
    }
    r
}

/// Once applying a prefix of the mappings fails, applying all of them fails in the same way.
proof fn lemma_maps_spec_prefix(arena: &Arena, sa: Set<VarId>, sb: Set<VarId>, ms: Seq<(Seq<Seq<char>>, Seq<Seq<char>>)>, k: int)
    requires
        0 <= k <= ms.len(),
    ensures
        maps_spec(arena, sa, sb, ms.take(k)) is Err ==> maps_spec(arena, sa, sb, ms) == maps_spec(arena, sa, sb, ms.take(k)),
    decreases ms.len() - k,
{
    if k < ms.len() {
        assert(ms.take(k + 1).drop_last() =~= ms.take(k));
        lemma_maps_spec_prefix(arena, sa, sb, ms, k + 1);
    } else {
        assert(ms.take(k) =~= ms);
    }
}

/// A named variable is a variable of the arena other than variable 0.
proof fn lemma_name_var(arena: &Arena, n: Seq<char>)
    requires
        arena.wf(),
        arena.has_named(n),
    ensures
        0 < name_var(arena.vv(), n) < arena.vars@.len(),
        arena.vv()[name_var(arena.vv(), n) as int] == VarV::Named(n),
{
    let i = choose|i: int| 0 <= i < arena.vars@.len() && arena.vars@[i]@ == VarV::Named(n);
    assert(arena.vv()[i] == VarV::Named(n));
    assert(arena.vv()[0] == VarV::Aux(0));
}

/// Whether two arenas with the same variables resolve names alike.
proof fn lemma_first_unknown_same(a1: &Arena, a2: &Arena, names: Seq<Seq<char>>, i: int)
    requires
        a1.vv() == a2.vv(),
    ensures
        first_unknown(a1, names, i) == first_unknown(a2, names, i),
    decreases names.len() - i,
{
    assert(a1.vars@.len() == a2.vars@.len()) by {
        assert(a1.vv().len() == a1.vars@.len());
        assert(a2.vv().len() == a2.vars@.len());
    }
    assert forall|n: Seq<char>| #[trigger] a1.has_named(n) == a2.has_named(n) by {
        if a1.has_named(n) {
            let k = choose|k: int| 0 <= k < a1.vars@.len() && a1.vars@[k]@ == VarV::Named(n);
            assert(a1.vv()[k] == a1.vars@[k]@);
            assert(a2.vv()[k] == a2.vars@[k]@);
            assert(a1.vv()[k] == a2.vv()[k]);
        }
        if a2.has_named(n) {
            let k = choose|k: int| 0 <= k < a2.vars@.len() && a2.vars@[k]@ == VarV::Named(n);
            assert(a1.vv()[k] == a1.vars@[k]@);
            assert(a2.vv()[k] == a2.vars@[k]@);
            assert(a1.vv()[k] == a2.vv()[k]);
        }
    }
    if 0 <= i < names.len() {
        lemma_first_unknown_same(a1, a2, names, i + 1);
    }
}

/// Variable mappings mean the same in two arenas with the same variables.
proof fn lemma_maps_spec_same(a1: &Arena, a2: &Arena, sa: Set<VarId>, sb: Set<VarId>, ms: Seq<(Seq<Seq<char>>, Seq<Seq<char>>)>)
    requires
        a1.vv() == a2.vv(),
    ensures
        maps_spec(a1, sa, sb, ms) == maps_spec(a2, sa, sb, ms),
    decreases ms.len(),
{
    if ms.len() > 0 {
        lemma_maps_spec_same(a1, a2, sa, sb, ms.drop_last());
        assert forall|x: Set<VarId>, y: Set<VarId>| #[trigger] map_step(a1, x, y, ms.last().0, ms.last().1) == map_step(a2, x, y, ms.last().0, ms.last().1) by {
            lemma_first_unknown_same(a1, a2, ms.last().0 + ms.last().1, 0);
        }
    }
}

/// Checks a list of variable mappings for formulas A and B (see `apply_var_maps`) without applying
/// them: fails with the first error (see `maps_spec`).
pub fn check_var_maps(a: &Formula, b: &Formula, var_maps: &Vec<VarMap>, arena: &Arena) -> (r: Result<(), VarMapError>)
    requires
        arena.wf(),
        a.valid_in(arena),
        b.valid_in(arena),
    ensures
        match maps_spec(arena, a.sub_var_ids@, b.sub_var_ids@, maps_view(var_maps@)) {
            Ok(_) => r is Ok,
            Err(e) => r matches Err(e2) && error_view(e2) == e,
        },
{
    let mut a2 = a.clone();
    let mut b2 = b.clone();
    let mut arena2 = arena.clone();
    proof {
        lemma_maps_spec_same(arena, &arena2, a.sub_var_ids@, b.sub_var_ids@, maps_view(var_maps@));
    }
    map_vars(&mut a2, &mut b2, var_maps, &mut arena2)
}

/// Applies variable mappings in order to formulas A and B (see `map_step`), and then makes the
/// roots of both formulas conjunctions again (see `Formula::ensure_proto_cnf`).
///
///
/// The mappings must be applicable (see `check_var_maps`).
pub fn apply_var_maps(a: &mut Formula, b: &mut Formula, var_maps: &Vec<VarMap>, arena: &mut Arena)
    requires
        old(arena).wf(),
        old(a).valid_in(old(arena)),
        old(b).valid_in(old(arena)),
        maps_spec(old(arena), old(a).sub_var_ids@, old(b).sub_var_ids@, maps_view(var_maps@)) is Ok,
    ensures
        grows(final(arena), old(arena)),
        final(a).valid_in(final(arena)),
        final(b).valid_in(final(arena)),
        match maps_spec(old(arena), old(a).sub_var_ids@, old(b).sub_var_ids@, maps_view(var_maps@)) {
            Ok((sa, sb)) => final(a).sub_var_ids@ == sa && final(b).sub_var_ids@ == sb
                && final(arena).ev()[final(a).root_id as int] is And && final(arena).ev()[final(b).root_id as int] is And,
            Err(_) => true,
        },
{
    let _ = map_vars(a, b, var_maps, arena);
}

/// Applies the mappings (see `apply_var_maps`); fails with the first error (see `maps_spec`),
/// leaving the formulas valid, but partly mapped.
#[verifier::rlimit(40)]
fn map_vars(a: &mut Formula, b: &mut Formula, var_maps: &Vec<VarMap>, arena: &mut Arena) -> (r: Result<(), VarMapError>)
    requires
        old(arena).wf(),
        old(a).valid_in(old(arena)),
        old(b).valid_in(old(arena)),
    ensures
        grows(final(arena), old(arena)),
        final(a).valid_in(final(arena)),
        final(b).valid_in(final(arena)),
        match maps_spec(old(arena), old(a).sub_var_ids@, old(b).sub_var_ids@, maps_view(var_maps@)) {
            Ok((sa, sb)) => r is Ok && final(a).sub_var_ids@ == sa && final(b).sub_var_ids@ == sb
                && final(arena).ev()[final(a).root_id as int] is And && final(arena).ev()[final(b).root_id as int] is And,
            Err(e) => r matches Err(e2) && error_view(e2) == e,
        },
{
    let ghost a0 = *arena;
    let ghost mv = maps_view(var_maps@);
    let mut resolved: Vec<(Vec<Option<VarId>>, Vec<Option<VarId>>)> = Vec::new();
    let mut k: usize = 0;
    while k < var_maps.len()
        invariant
            arena.wf(),
            k <= var_maps@.len(),
            resolved@.len() == k,
            forall|j: int, i: int| 0 <= j < k && 0 <= i < resolved@[j].0@.len() ==> (#[trigger] resolved@[j].0@[i] matches Some(v)
                ==> (arena.has_named(var_maps@[j].left@[i]@) && v == name_var(arena.vv(), var_maps@[j].left@[i]@))),
            forall|j: int, i: int| 0 <= j < k && 0 <= i < resolved@[j].0@.len() ==> (#[trigger] resolved@[j].0@[i] is None
                ==> !arena.has_named(var_maps@[j].left@[i]@)),
            forall|j: int, i: int| 0 <= j < k && 0 <= i < resolved@[j].1@.len() ==> (#[trigger] resolved@[j].1@[i] matches Some(v)
                ==> (arena.has_named(var_maps@[j].right@[i]@) && v == name_var(arena.vv(), var_maps@[j].right@[i]@))),
            forall|j: int, i: int| 0 <= j < k && 0 <= i < resolved@[j].1@.len() ==> (#[trigger] resolved@[j].1@[i] is None
                ==> !arena.has_named(var_maps@[j].right@[i]@)),
            forall|j: int| 0 <= j < k ==> (#[trigger] resolved@[j]).0@.len() == var_maps@[j].left@.len() && resolved@[j].1@.len() == var_maps@[j].right@.len(),
        decreases var_maps.len() - k,
    {
        let l = resolve_names(&var_maps[k].left, arena);
        let r = resolve_names(&var_maps[k].right, arena);
        resolved.push((l, r));
        k = k + 1;
    }
    k = 0;
    proof {
        lemma_grows_refl(arena);
        assert(mv.take(0) =~= Seq::<(Seq<Seq<char>>, Seq<Seq<char>>)>::empty());
    }
    while k < var_maps.len()
        invariant
            a0.wf(),
            a0 == *old(arena),
            grows(arena, &a0),
            a.valid_in(arena),
            b.valid_in(arena),
            k <= var_maps@.len(),
            mv == maps_view(var_maps@),
            mv.len() == var_maps@.len(),
            resolved@.len() == var_maps@.len(),
            forall|j: int, i: int| 0 <= j < var_maps@.len() && 0 <= i < resolved@[j].0@.len() ==> (#[trigger] resolved@[j].0@[i] matches Some(v)
                ==> (a0.has_named(var_maps@[j].left@[i]@) && v == name_var(a0.vv(), var_maps@[j].left@[i]@))),
            forall|j: int, i: int| 0 <= j < var_maps@.len() && 0 <= i < resolved@[j].0@.len() ==> (#[trigger] resolved@[j].0@[i] is None
                ==> !a0.has_named(var_maps@[j].left@[i]@)),
            forall|j: int, i: int| 0 <= j < var_maps@.len() && 0 <= i < resolved@[j].1@.len() ==> (#[trigger] resolved@[j].1@[i] matches Some(v)
                ==> (a0.has_named(var_maps@[j].right@[i]@) && v == name_var(a0.vv(), var_maps@[j].right@[i]@))),
            forall|j: int, i: int| 0 <= j < var_maps@.len() && 0 <= i < resolved@[j].1@.len() ==> (#[trigger] resolved@[j].1@[i] is None
                ==> !a0.has_named(var_maps@[j].right@[i]@)),
            forall|j: int| 0 <= j < var_maps@.len() ==> (#[trigger] resolved@[j]).0@.len() == var_maps@[j].left@.len() && resolved@[j].1@.len() == var_maps@[j].right@.len(),
            maps_spec(&a0, old(a).sub_var_ids@, old(b).sub_var_ids@, mv.take(k as int)) == Ok::<(Set<VarId>, Set<VarId>), VarMapErrorV>((a.sub_var_ids@, b.sub_var_ids@)),
        decreases var_maps.len() - k,
    {
        proof {
            assert(mv.take(k + 1).drop_last() =~= mv.take(k as int));
            assert(mv.take(k + 1).last() == mv[k as int]);
            lemma_maps_spec_prefix(&a0, old(a).sub_var_ids@, old(b).sub_var_ids@, mv, k + 1);
        }
        let step = apply_map_step(a, b, &var_maps[k], &resolved[k], arena, Ghost(a0));
        match step {
            Err(e) => {
                return Err(e);
            },
            Ok(()) => {},
        }
        k = k + 1;
    }
    proof {
        assert(mv.take(var_maps@.len() as int) =~= mv);
    }
    let ghost a1 = *arena;
    a.ensure_proto_cnf(arena);
    let ghost a2 = *arena;
    b.ensure_proto_cnf(arena);
    proof {
        assert(grows(&a2, &a1));
        assert(grows(arena, &a2));
        lemma_grows_trans(&a0, &a1, &a2);
        lemma_grows_trans(&a0, &a2, arena);
        assert(arena.ev()[a.root_id as int] == a2.ev()[a.root_id as int]);
    }
    Ok(())
}

/// Applies one variable mapping (see `map_step`), given the identifiers of its names in the arena
/// `a0` as it was when mapping began.
#[verifier::rlimit(60)]
#[verifier::loop_isolation(false)]
fn apply_map_step(a: &mut Formula, b: &mut Formula, m: &VarMap, ids: &(Vec<Option<VarId>>, Vec<Option<VarId>>), arena: &mut Arena, Ghost(a0): Ghost<Arena>) -> (r: Result<(), VarMapError>)
    requires
        a0.wf(),
        grows(old(arena), &a0),
        old(a).valid_in(old(arena)),
        old(b).valid_in(old(arena)),
        ids.0@.len() == m.left@.len(),
        ids.1@.len() == m.right@.len(),
        forall|i: int| 0 <= i < ids.0@.len() ==> (#[trigger] ids.0@[i] matches Some(v) ==> (a0.has_named(m.left@[i]@) && v == name_var(a0.vv(), m.left@[i]@))),
        forall|i: int| 0 <= i < ids.0@.len() ==> (#[trigger] ids.0@[i] is None ==> !a0.has_named(m.left@[i]@)),
        forall|i: int| 0 <= i < ids.1@.len() ==> (#[trigger] ids.1@[i] matches Some(v) ==> (a0.has_named(m.right@[i]@) && v == name_var(a0.vv(), m.right@[i]@))),
        forall|i: int| 0 <= i < ids.1@.len() ==> (#[trigger] ids.1@[i] is None ==> !a0.has_named(m.right@[i]@)),
    ensures
        grows(final(arena), old(arena)),
        final(a).valid_in(final(arena)),
        final(b).valid_in(final(arena)),
        match map_step(&a0, old(a).sub_var_ids@, old(b).sub_var_ids@, strings_view(m.left@), strings_view(m.right@)) {
            Ok((sa, sb)) => r is Ok && final(a).sub_var_ids@ == sa && final(b).sub_var_ids@ == sb,
            Err(e) => r matches Err(e2) && error_view(e2) == e,
        },
{
    proof {
        lemma_grows_refl(arena);
    }
    let ghost l = strings_view(m.left@);
    let ghost rn = strings_view(m.right@);
    let nl = m.left.len();
    let nr = m.right.len();
    if !((nl == 1 || nr == 1) && nl >= 1 && nr >= 1) {
        return Err(VarMapError::Shape);
    }
    // Unknown variables, left names first.
    let ghost lr = l + rn;
    let mut i: usize = 0;
    while i < nl
        invariant
            i <= nl,
            nl == l.len(),
            nr == rn.len(),
            lr == l + rn,
            ids.0@.len() == nl,
            l == strings_view(m.left@),
            first_unknown(&a0, lr, 0) == first_unknown(&a0, lr, i as int),
        decreases nl - i,
    {
        assert(lr[i as int] == m.left@[i as int]@);
        if ids.0[i].is_none() {
            return Err(VarMapError::Unknown(string_of(&chars_of(m.left[i].as_str()))));
        }
        i = i + 1;
    }
    i = 0;
    while i < nr
        invariant
            i <= nr,
            nl == l.len(),
            nr == rn.len(),
            lr == l + rn,
            ids.1@.len() == nr,
            rn == strings_view(m.right@),
            first_unknown(&a0, lr, 0) == first_unknown(&a0, lr, nl + i),
        decreases nr - i,
    {
        assert(lr[nl + i] == m.right@[i as int]@);
        if ids.1[i].is_none() {
            return Err(VarMapError::Unknown(string_of(&chars_of(m.right[i].as_str()))));
        }
        i = i + 1;
    }
    let ghost lv = name_vars(a0.vv(), l);
    let ghost rv = name_vars(a0.vv(), rn);
    let mut lids: Vec<VarId> = Vec::new();
    let mut j: usize = 0;
    while j < nl
        invariant
            j <= nl,
            nl == l.len(),
            ids.0@.len() == nl,
            l == strings_view(m.left@),
            lv == name_vars(a0.vv(), l),
            first_unknown(&a0, l + rn, 0) is None,
            forall|x: int| 0 <= x < ids.0@.len() ==> (#[trigger] ids.0@[x] matches Some(v) ==> (a0.has_named(m.left@[x]@) && v == name_var(a0.vv(), m.left@[x]@))),
            forall|x: int| 0 <= x < ids.0@.len() ==> (#[trigger] ids.0@[x] is None ==> !a0.has_named(m.left@[x]@)),
            lids@ == lv.take(j as int),
        decreases nl - j,
    {
        proof {
            lemma_first_unknown_none(&a0, l + rn, j as int);
            assert((l + rn)[j as int] == m.left@[j as int]@);
        }
        let v = match ids.0[j] {
            Some(v) => v,
            None => {
                return Err(VarMapError::Shape);
            },
        };
        lids.push(v);
        j = j + 1;
        assert(lids@ =~= lv.take(j as int));
    }
    let mut rids: Vec<VarId> = Vec::new();
    j = 0;
    while j < nr
        invariant
            j <= nr,
            nl == l.len(),
            nr == rn.len(),
            ids.1@.len() == nr,
            rn == strings_view(m.right@),
            rv == name_vars(a0.vv(), rn),
            first_unknown(&a0, l + rn, 0) is None,
            forall|x: int| 0 <= x < ids.1@.len() ==> (#[trigger] ids.1@[x] matches Some(v) ==> (a0.has_named(m.right@[x]@) && v == name_var(a0.vv(), m.right@[x]@))),
            forall|x: int| 0 <= x < ids.1@.len() ==> (#[trigger] ids.1@[x] is None ==> !a0.has_named(m.right@[x]@)),
            rids@ == rv.take(j as int),
        decreases nr - j,
    {
        proof {
            lemma_first_unknown_none(&a0, l + rn, nl + j);
            assert((l + rn)[nl + j] == m.right@[j as int]@);
        }
        let v = match ids.1[j] {
            Some(v) => v,
            None => {
                return Err(VarMapError::Shape);
            },
        };
        rids.push(v);
        j = j + 1;
        assert(rids@ =~= rv.take(j as int));
    }
    proof {
        assert(lids@ =~= lv);
        assert(rids@ =~= rv);
    }
    // Exclusivity: left variables only in A, right variables only in B.
    j = 0;
    while j < nl
        invariant
            j <= nl,
            lids@ == lv,
            lv.len() == nl,
            nl == l.len(),
            l == strings_view(m.left@),
            first_not_exclusive(lv, old(a).sub_var_ids@, old(b).sub_var_ids@, 0) == first_not_exclusive(lv, old(a).sub_var_ids@, old(b).sub_var_ids@, j as int),
            a.sub_var_ids@ == old(a).sub_var_ids@,
            b.sub_var_ids@ == old(b).sub_var_ids@,
        decreases nl - j,
    {
        let v = lids[j];
        if !(a.sub_var_ids.contains(&v) && !b.sub_var_ids.contains(&v)) {
            return Err(VarMapError::NotExclusive(string_of(&chars_of(m.left[j].as_str()))));
        }
        j = j + 1;
    }
    j = 0;
    while j < nr
        invariant
            j <= nr,
            rids@ == rv,
            rv.len() == nr,
            nr == rn.len(),
            rn == strings_view(m.right@),
            first_not_exclusive(rv, old(b).sub_var_ids@, old(a).sub_var_ids@, 0) == first_not_exclusive(rv, old(b).sub_var_ids@, old(a).sub_var_ids@, j as int),
            a.sub_var_ids@ == old(a).sub_var_ids@,
            b.sub_var_ids@ == old(b).sub_var_ids@,
        decreases nr - j,
    {
        let v = rids[j];
        if !(!a.sub_var_ids.contains(&v) && b.sub_var_ids.contains(&v)) {
            return Err(VarMapError::NotExclusive(string_of(&chars_of(m.right[j].as_str()))));
        }
        j = j + 1;
    }
    proof {
        assert(first_not_exclusive(lv, old(a).sub_var_ids@, old(b).sub_var_ids@, nl as int) is None);
        assert(first_not_exclusive(rv, old(b).sub_var_ids@, old(a).sub_var_ids@, nr as int) is None);
        lemma_names_known(&a0, l, rn);
    }
    if nl == 1 {
        map_into(a, lids[0], &rids, arena, Ghost(a0));
        assert(a.sub_var_ids@ =~= old(a).sub_var_ids@.remove(lv[0]).union(rv.to_set()));
    } else {
        map_into(b, rids[0], &lids, arena, Ghost(a0));
        assert(b.sub_var_ids@ =~= old(b).sub_var_ids@.remove(rv[0]).union(lv.to_set()));
    }
    Ok(())
}

/// All names of a mapping without unknown names are names of variables other than variable 0.
proof fn lemma_names_known(a0: &Arena, l: Seq<Seq<char>>, rn: Seq<Seq<char>>)
    requires
        a0.wf(),
        first_unknown(a0, l + rn, 0) is None,
    ensures
        forall|i: int| 0 <= i < l.len() ==> 0 < #[trigger] name_vars(a0.vv(), l)[i] < a0.vars@.len(),
        forall|i: int| 0 <= i < rn.len() ==> 0 < #[trigger] name_vars(a0.vv(), rn)[i] < a0.vars@.len(),
{
    assert forall|i: int| 0 <= i < l.len() implies 0 < #[trigger] name_vars(a0.vv(), l)[i] < a0.vars@.len() by {
        lemma_first_unknown_none(a0, l + rn, i);
        assert((l + rn)[i] == l[i]);
        lemma_name_var(a0, l[i]);
    }
    assert forall|i: int| 0 <= i < rn.len() implies 0 < #[trigger] name_vars(a0.vv(), rn)[i] < a0.vars@.len() by {
        lemma_first_unknown_none(a0, l + rn, l.len() + i);
        assert((l + rn)[l.len() + i] == rn[i]);
        lemma_name_var(a0, rn[i]);
    }
}

/// Without unknown names from `0` on, the name at `i` is known.
proof fn lemma_first_unknown_none(a0: &Arena, ns: Seq<Seq<char>>, i: int)
    requires
        first_unknown(a0, ns, 0) is None,
        0 <= i < ns.len(),
    ensures
        a0.has_named(ns[i]),
{
    lemma_first_unknown_none_from(a0, ns, 0, i);
}

proof fn lemma_first_unknown_none_from(a0: &Arena, ns: Seq<Seq<char>>, k: int, i: int)
    requires
        first_unknown(a0, ns, k) is None,
        0 <= k <= i < ns.len(),
    ensures
        a0.has_named(ns[i]),
    decreases i - k,
{
    if k < i {
        lemma_first_unknown_none_from(a0, ns, k + 1, i);
    }
}

/// Replaces the variable `old_var` of a formula by the variables `new_vars`: renames it to the first
/// of them and adds the equivalence of the first to each further one.
fn map_into(f: &mut Formula, old_var: VarId, new_vars: &Vec<VarId>, arena: &mut Arena, Ghost(a0): Ghost<Arena>)
    requires
        old(arena).wf(),
        a0.wf(),
        grows(old(arena), &a0),
        old(f).valid_in(old(arena)),
        new_vars@.len() >= 1,
        0 < old_var < a0.vars@.len(),
        forall|i: int| 0 <= i < new_vars@.len() ==> 0 < #[trigger] new_vars@[i] < a0.vars@.len(),
    ensures
        grows(final(arena), old(arena)),
        final(f).valid_in(final(arena)),
        final(f).sub_var_ids@ == old(f).sub_var_ids@.remove(old_var).union(new_vars@.to_set()),
{
    let ghost s0 = arena.vv();
    let ghost start = *arena;
    f.rename_var(old_var, new_vars[0], arena);
    let mut i: usize = 1;
    proof {
        assert(new_vars@.take(1) =~= Seq::<VarId>::empty().push(new_vars@[0]));
        lemma_to_set_push(Seq::<VarId>::empty(), new_vars@[0]);
        assert(Seq::<VarId>::empty().to_set() =~= Set::<VarId>::empty());
        assert(f.sub_var_ids@ =~= old(f).sub_var_ids@.remove(old_var).union(new_vars@.take(1).to_set()));
    }
    while i < new_vars.len()
        invariant
            a0.wf(),
            grows(arena, &start),
            grows(&start, &a0),
            f.valid_in(arena),
            1 <= i <= new_vars@.len(),
            forall|x: int| 0 <= x < new_vars@.len() ==> 0 < #[trigger] new_vars@[x] < a0.vars@.len(),
            f.sub_var_ids@ == old(f).sub_var_ids@.remove(old_var).union(new_vars@.take(i as int).to_set()),
        decreases new_vars.len() - i,
    {
        let ghost before = *arena;
        proof {
            lemma_grows_trans(&a0, &start, arena);
        }
        f.and_equivalent(new_vars[0], new_vars[i], arena);
        proof {
            assert(grows(arena, &before));
            lemma_grows_trans(&start, &before, arena);
            assert(new_vars@.take(i + 1) =~= new_vars@.take(i as int).push(new_vars@[i as int]));
            lemma_to_set_push(new_vars@.take(i as int), new_vars@[i as int]);
            assert(new_vars@.take(i as int)[0] == new_vars@[0]);
            assert(new_vars@.take(i as int).contains(new_vars@[0]));
            assert(new_vars@.take(i as int).to_set().contains(new_vars@[0]));
            assert(f.sub_var_ids@ =~= old(f).sub_var_ids@.remove(old_var).union(new_vars@.take(i + 1).to_set()));
        }
        i = i + 1;
    }
    assert(new_vars@.take(new_vars@.len() as int) =~= new_vars@);
}

/// The elements of a sequence with one more element.
proof fn lemma_to_set_push(s: Seq<VarId>, x: VarId)
    ensures
        s.push(x).to_set() == s.to_set().insert(x),
{
    assert forall|y: VarId| s.push(x).to_set().contains(y) <==> s.to_set().insert(x).contains(y) by {
        if s.push(x).contains(y) {
            let k = choose|k: int| 0 <= k < s.push(x).len() && s.push(x)[k] == y;
            if k < s.len() {
                assert(s[k] == y);
                assert(s.contains(y));
            }
        }
        if s.contains(y) {
            let k = choose|k: int| 0 <= k < s.len() && s[k] == y;
            assert(s.push(x)[k] == y);
        }
        if y == x {
            assert(s.push(x)[s.len() as int] == x);
        }
    }
    assert(s.push(x).to_set() =~= s.to_set().insert(x));
}

/// Returns the clause representation of a formula, after the given CNF transformation (if any),
/// which is applied to copies of the formula and the arena; neither is modified.
pub fn diff_clauses(formula: &Formula, arena: &Arena, transform: Option<DiffTransform>) -> (r: Result<Clauses, ClausesError>)
    requires
        arena.wf(),
        formula.valid_in(arena),
        arena.new_vars is None,
        arena.new_exprs is None,
    ensures
        transform is None ==> clauses_result(*formula, *arena, r),
        transform == Some(DiffTransform::Tseitin) ==> exists|f: Formula, a: Arena| #[trigger] clauses_result(f, a, r)
            && a.wf()
            && f.valid_in(&a)
            && formula.sub_var_ids@.subset_of(f.sub_var_ids@)
            && crate::count_inc::tseitin_done(f, a, *formula, *arena)
            && (crate::clauses::is_cnf(a.ev(), f.root_id, f.sub_var_ids@) ==> r is Ok),
        transform == Some(DiffTransform::Dist) ==> exists|f: Formula, a: Arena| #[trigger] clauses_result(f, a, r)
            && dist_copy(f, a, *formula, *arena)
            && (crate::clauses::is_cnf(a.ev(), f.root_id, f.sub_var_ids@) ==> r is Ok),
        transform == Some(DiffTransform::Tseitin) ==> (crate::tseitin::tseitin_hyp(arena.ev()) ==> (r matches Ok(c) ==> exists|ids: Seq<VarId>|
            #[trigger] crate::clauses::remap_of(ids) == c.var_remap@
            && crate::tseitin::counts_models(clauses_view(c.clauses@), ids, arena.ev(), formula.root_id, arena.vars@.len()))),
        !(transform == Some(DiffTransform::Tseitin)) ==> (r matches Ok(c) ==> c.var_remap@ == crate::clauses::remap_of(formula_var_ids(formula, arena))),
        !(transform == Some(DiffTransform::Tseitin)) ==> (r matches Ok(c) ==> c.vars@.len() == formula_var_ids(formula, arena).len() + 1),
        !(transform == Some(DiffTransform::Tseitin)) ==> (r matches Ok(c) ==> forall|value: spec_fn(ExprId) -> bool, assignment: spec_fn(VarId) -> bool|
            #[trigger] evaluates(arena.ev(), value, assignment)
            ==> value(formula.root_id) == satisfies(clauses_view(c.clauses@), formula_var_ids(formula, arena), assignment)),
{
    match transform {
        Some(DiffTransform::Tseitin) => {
            let r = crate::count_inc::clauses_for_count(formula, arena, true);
            proof {
                let (f, a) = choose|f: Formula, a: Arena| #[trigger] clauses_result(f, a, r) && a.wf() && f.valid_in(&a)
                    && formula.sub_var_ids@.subset_of(f.sub_var_ids@) && a.ev().len() >= arena.ev().len()
                    && crate::arena::extends(a.vv(), arena.vv())
                    && crate::count_inc::tseitin_done(f, a, *formula, *arena);
                if crate::clauses::is_cnf(a.ev(), f.root_id, f.sub_var_ids@) {
                    crate::clauses::law_cnf_has_clauses(f, a, r);
                }
                assert(clauses_result(f, a, r));
            }
            r
        },
        Some(DiffTransform::Dist) => {
            let mut copy = formula.clone();
            let mut arena_copy = arena.clone();
            let ghost a1 = arena_copy;
            let ghost f1 = copy;
            copy.to_cnf_dist(&mut arena_copy);
            let r = copy.to_clauses(&arena_copy);
            assert(clauses_result(copy, arena_copy, r));
            proof {
                if crate::clauses::is_cnf(arena_copy.ev(), copy.root_id, copy.sub_var_ids@) {
                    crate::clauses::law_cnf_has_clauses(copy, arena_copy, r);
                }
                assert(formula_var_ids(&copy, &arena_copy) == formula_var_ids(formula, arena));
                if r is Ok {
                    let c = r->Ok_0;
                    assert(c.var_remap@ == crate::clauses::remap_of(formula_var_ids(formula, arena)));
                    assert(crate::clauses::vars_view(c.vars@).len() == c.vars@.len());
                    assert forall|value: spec_fn(ExprId) -> bool, assignment: spec_fn(VarId) -> bool|
                        #[trigger] evaluates(arena.ev(), value, assignment)
                        implies value(formula.root_id) == satisfies(clauses_view(c.clauses@), formula_var_ids(formula, arena), assignment) by {
                        crate::laws::law_cnf_clauses_mean_the_formula(a1.ev(), arena_copy.ev(), f1.root_id, copy.root_id,
                            formula_var_ids(formula, arena), clauses_view(c.clauses@), value, assignment);
                    }
                }
            }
            assert(dist_copy(copy, arena_copy, *formula, *arena)) by {
                assert(a1.ev() == arena.ev());
                assert(arena_copy.vv() == arena.vv());
                let (arenas, steps, entered) = choose|arenas: Seq<Arena>, steps: Seq<(crate::visit::Visitor, ExprId)>, entered: Seq<bool>|
                    #[trigger] crate::visit::traversal_done(arenas, steps, entered, a1, arena_copy, f1.root_id,
                        crate::visit::Visitor::Nnf, crate::visit::Visitor::CnfDist);
                assert(crate::visit::traversal_done(arenas, steps, entered, a1, arena_copy, formula.root_id,
                        crate::visit::Visitor::Nnf, crate::visit::Visitor::CnfDist));
            }
            r
        },
        None => {
            let r = formula.to_clauses(arena);
            proof {
                if r is Ok {
                    let c = r->Ok_0;
                    assert(crate::clauses::vars_view(c.vars@).len() == c.vars@.len());
                }
            }
            r
        },
    }
}

/// Returns an in-memory DIMACS file (named `-.dimacs`) with the clause representation of a formula
/// after the distributive transformation (see `diff_clauses`); neither the formula nor the arena
/// is modified.
pub fn to_cnf_file_dist(formula: &Formula, arena: &Arena) -> (r: Result<File, ClausesError>)
    requires
        arena.wf(),
        formula.valid_in(arena),
        arena.new_vars is None,
        arena.new_exprs is None,
    ensures
        exists|f: Formula, a: Arena, c: Result<Clauses, ClausesError>| #[trigger] clauses_result(f, a, c)
            && a.wf()
            && f.valid_in(&a)
            && f.sub_var_ids@ == formula.sub_var_ids@
            && match c {
                Ok(cs) => r matches Ok(file) && file.name@ == "-.dimacs"@
                    && file.contents@ == crate::clauses::dimacs(crate::clauses::vars_view(cs.vars@), Seq::<char>::empty(),
                        crate::clauses::clauses_view(cs.clauses@))
                    && forall|value: spec_fn(ExprId) -> bool, assignment: spec_fn(VarId) -> bool|
                        #[trigger] evaluates(arena.ev(), value, assignment)
                        ==> value(formula.root_id) == satisfies(clauses_view(cs.clauses@), formula_var_ids(formula, arena), assignment),
                Err(e) => r == Err::<File, ClausesError>(e),
            },
{
    let c = diff_clauses(formula, arena, Some(DiffTransform::Dist));
    let ghost f_w: (Formula, Arena) = choose|f: Formula, a: Arena| #[trigger] clauses_result(f, a, c) && a.wf() && f.valid_in(&a)
        && f.sub_var_ids@ == formula.sub_var_ids@;
    proof {
        assert(clauses_result(f_w.0, f_w.1, c));
    }
    match c {
        Ok(cs) => {
            proof {
                crate::clauses::lemma_clauses_result_vars(f_w.0, f_w.1, c);
            }
            let contents = cs.to_string();
            let name = crate::text::string_of(&crate::text::chars_of("-.dimacs"));
            Ok(File::new(name, contents))
        },
        Err(e) => Err(e),
    }
}

/// The classification of an edit by whether it removes and whether it adds solutions (after
/// Thüm et al. 2009), if both counts are known (not negative).
pub open spec fn classification_spec(removed: int, added: int) -> Option<Seq<char>> {
    if removed < 0 || added < 0 {
        None
    } else if removed == 0 && added == 0 {
        Some("Refactoring"@)
    } else if added == 0 {
        Some("Specialization"@)
    } else if removed == 0 {
        Some("Generalization"@)
    } else {
        Some("ArbitraryEdit"@)
    }
}

/// The sign of an integer given in canonical decimal form: -1, 0 or 1.
pub(crate) fn sign_of_text(t: &String) -> (r: i8)
    requires
        exists|v: int| t@ == crate::text::signed_decimal(v),
    ensures
        forall|v: int| t@ == crate::text::signed_decimal(v) ==> (r < 0 <==> v < 0) && (r == 0 <==> v == 0) && (r > 0 <==> v > 0),
{
    let ghost v = choose|v: int| t@ == crate::text::signed_decimal(v);
    proof {
        lemma_big_value_of_decimal(v);
        assert forall|w: int| t@ == crate::text::signed_decimal(w) implies w == v by {
            lemma_big_value_of_decimal(w);
        }
        lemma_decimal_shape(if v < 0 { -v } else { v });
    }
    let cs = crate::text::chars_of(t.as_str());
    proof {
        if v < 0 {
            assert(cs@ == seq!['-'] + crate::text::decimal((-v) as nat));
            assert(cs@[0] == '-');
            assert(!(cs@.len() == 1 && cs@[0] == '0'));
        } else {
            assert(cs@ == crate::text::decimal(v as nat));
            assert(cs@[0] != '-');
            if cs@.len() == 1 && cs@[0] == '0' {
                assert(cs@ =~= seq!['0']);
            }
        }
    }
    if cs.len() > 0 && cs[0] == '-' {
        -1
    } else if cs.len() == 1 && cs[0] == '0' {
        0
    } else {
        1
    }
}

/// The decimal form of a natural number starts with a digit, and is `0` exactly for zero.
#[verifier::spinoff_prover]
proof fn lemma_decimal_shape(n: int)
    requires
        n >= 0,
    ensures
        crate::text::decimal(n as nat).len() >= 1,
        crate::syntax::is_digit(crate::text::decimal(n as nat)[0]),
        (crate::text::decimal(n as nat) == seq!['0']) <==> n == 0,
    decreases n,
{
    if n >= 10 {
        lemma_decimal_shape(n / 10);
        let s = crate::text::decimal(n as nat);
        assert(s == crate::text::decimal((n / 10) as nat) + seq![crate::text::digit_char((n % 10) as nat)]);
        assert(s.len() >= 2);
        assert(s[0] == crate::text::decimal((n / 10) as nat)[0]);
    }
}

/// Returns the classification of an edit by its numbers of removed and added solutions (see
/// `classification_spec`); the counts are integers as `BigInt::from_str` reads them.
pub fn classify(removed: &str, added: &str) -> (r: Option<String>)
    requires
        is_big(removed@),
        is_big(added@),
    ensures
        match classification_spec(big(removed@), big(added@)) {
            Some(c) => r matches Some(s) && s@ == c,
            None => r is None,
        },
{
    let removed_text = match big_parse(removed) { Some(t) => t, None => String::new() };
    let added_text = match big_parse(added) { Some(t) => t, None => String::new() };
    let sr = sign_of_text(&removed_text);
    let sa = sign_of_text(&added_text);
    if sr < 0 || sa < 0 {
        None
    } else if sr == 0 && sa == 0 {
        Some(crate::text::string_of(&crate::text::chars_of("Refactoring")))
    } else if sa == 0 {
        Some(crate::text::string_of(&crate::text::chars_of("Specialization")))
    } else if sr == 0 {
        Some(crate::text::string_of(&crate::text::chars_of("Generalization")))
    } else {
        Some(crate::text::string_of(&crate::text::chars_of("ArbitraryEdit")))
    }
}

/// Returns a model count for a CSV column: empty if it is negative (unknown), and in canonical
/// decimal form otherwise.
pub fn format_count(count: &str) -> (r: String)
    requires
        is_big(count@),
    ensures
        r@ == if big(count@) < 0 { Seq::<char>::empty() } else { crate::text::signed_decimal(big(count@)) },
{
    let t = match big_parse(count) { Some(t) => t, None => String::new() };
    if sign_of_text(&t) < 0 {
        String::new()
    } else {
        t
    }
}

/// Returns the numbers of removed and added solutions without negation, from the model counts of
/// both (possibly sliced) formulas and of their common solutions: `left - common` and `right - common`.
pub fn removed_added(left: &str, right: &str, common: &str) -> (r: (String, String))
    requires
        is_big(left@),
        is_big(right@),
        is_big(common@),
    ensures
        r.0@ == crate::text::signed_decimal(big(left@) - big(common@)),
        r.1@ == crate::text::signed_decimal(big(right@) - big(common@)),
{
    (big_sub(left, common), big_sub(right, common))
}

} // verus!

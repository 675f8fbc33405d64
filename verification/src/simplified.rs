//! Simplified reasoning about edits (after Thüm et al. 2009): instead of asking whether `a & !b`
//! is satisfiable, ask for each clause that `b` has and `a` lacks whether `a` together with the
//! negation of that clause is satisfiable (and vice versa).

use vstd::prelude::*;
use vstd::relations::{sorted_by, total_ordering};
use crate::arena::{Arena, extends};
use crate::clauses::{Clauses, ClausesError, clauses_view};
use crate::diff::{DiffTransform, diff_clauses};
use crate::formula::Formula;
use crate::var::VarId;

verus! {

broadcast use vstd::std_specs::hash::group_hash_axioms;

/// The order of literals.
pub open spec fn lit_le() -> spec_fn(VarId, VarId) -> bool {
    |x: VarId, y: VarId| x <= y
}

/// For each index below `m`, the arena variable that the remapping maps to it, scanning the arena
/// variables `1..i` in ascending order (the last one wins; 0 if there is none).
pub open spec fn inverse_upto(remap: Map<VarId, VarId>, i: int, m: int) -> Seq<VarId>
    decreases i,
{
    if i <= 1 {
        Seq::new(m as nat, |k: int| 0 as VarId)
    } else {
        let s = inverse_upto(remap, i - 1, m);
        let v = (i - 1) as VarId;
        if remap.contains_key(v) && 0 <= remap[v] < m {
            s.update(remap[v] as int, v)
        } else {
            s
        }
    }
}

/// The absolute value of a literal.
pub open spec fn abs_lit(l: VarId) -> int {
    if l < 0 { -(l as int) } else { l as int }
}

/// The arena literal of a local literal.
pub open spec fn arena_lit(inv: Seq<VarId>, l: VarId) -> VarId {
    if l > 0 { inv[l as int] } else { (-(inv[-(l as int)] as int)) as VarId }
}

/// Whether all literals of a clause refer to an index below `m` (and none is 0).
pub open spec fn lits_below(c: Seq<VarId>, m: int) -> bool {
    forall|j: int| 0 <= j < c.len() ==> 0 < #[trigger] abs_lit(c[j]) < m
}

/// A clause in arena literals, sorted: the form in which clauses of two representations are compared.
pub open spec fn canonical_clause(inv: Seq<VarId>, c: Seq<VarId>) -> Seq<VarId> {
    c.map_values(|l: VarId| arena_lit(inv, l)).sort_by(lit_le())
}

/// The clauses of `xs` that do not occur in `ys`, in order.
pub open spec fn missing_from(xs: Seq<Seq<VarId>>, ys: Seq<Seq<VarId>>) -> Seq<Seq<VarId>>
    decreases xs.len(),
{
    if xs.len() == 0 {
        Seq::empty()
    } else {
        missing_from(xs.drop_last(), ys) + if ys.contains(xs.last()) { Seq::empty() } else { seq![xs.last()] }
    }
}

/// The negation of an arena clause as literals of a representation (through its remapping): the
/// unit clauses that assume the clause false.
pub open spec fn negated_in(remap: Map<VarId, VarId>, c: Seq<VarId>) -> Seq<VarId> {
    c.map_values(|l: VarId| if l > 0 { (-(remap[l] as int)) as VarId } else { remap[(-(l as int)) as VarId] })
}

/// Whether all variables of an arena clause have an index in a representation.
pub open spec fn all_mapped(remap: Map<VarId, VarId>, c: Seq<VarId>) -> bool {
    forall|j: int| 0 <= j < c.len() ==> abs_lit(#[trigger] c[j]) <= i32::MAX && remap.contains_key((abs_lit(c[j])) as VarId)
}

/// Why simplified reasoning cannot proceed.
#[derive(Debug)]
pub enum SimplifiedError {
    /// A formula has no clause representation after the distributive transformation.
    Clauses(ClausesError),
    /// A clause refers to a variable outside its representation.
    BadLiteral,
    /// A clause that one formula lacks refers to a variable that the other formula does not have.
    Absent,
}

/// The clause representations of two formulas and the queries of simplified reasoning.
pub struct SimplifiedQueries {
    /// The left formula's clause representation, after the distributive transformation.
    pub left: Clauses,
    /// The right formula's clause representation, after the distributive transformation.
    pub right: Clauses,
    /// For each clause that the right formula has and the left one lacks: its negation in the left
    /// representation's literals (solutions removed by the edit exist iff one of these is satisfiable with the left).
    pub removed: Vec<Vec<VarId>>,
    /// For each clause that the left formula has and the right one lacks: its negation in the right
    /// representation's literals (solutions added by the edit exist iff one of these is satisfiable with the right).
    pub added: Vec<Vec<VarId>>,
}

/// Returns a copy of a list of literals, sorted in ascending order.
fn sorted_lits(v: &Vec<VarId>) -> (r: Vec<VarId>)
    ensures
        r@ == v@.sort_by(lit_le()),
{
    let mut out: Vec<VarId> = Vec::new();
    let mut i: usize = 0;
    proof {
        assert(total_ordering(lit_le()));
        assert(v@.take(0) =~= out@);
    }
    while i < v.len()
        invariant
            i <= v@.len(),
            sorted_by(out@, lit_le()),
            out@.to_multiset() == v@.take(i as int).to_multiset(),
        decreases v.len() - i,
    {
        let x = v[i];
        let mut k: usize = 0;
        while k < out.len() && out[k] <= x
            invariant
                k <= out@.len(),
                forall|j: int| 0 <= j < k ==> out@[j] <= x,
            decreases out.len() - k,
        {
            k = k + 1;
        }
        let ghost before = out@;
        out.insert(k, x);
        proof {
            broadcast use vstd::seq_lib::group_to_multiset_ensures;
            assert(sorted_by(out@, lit_le())) by {
                assert forall|a: int, b: int| 0 <= a < b < out@.len() implies #[trigger] lit_le()(out@[a], out@[b]) by {
                    if b < k {
                        assert(out@[a] == before[a] && out@[b] == before[b]);
                        assert(lit_le()(before[a], before[b]));
                    } else if b == k {
                        assert(out@[a] == before[a]);
                    } else if a == k {
                        assert(out@[b] == before[b - 1]);
                        if k < before.len() {
                            assert(!(before[k as int] <= x));
                            assert(lit_le()(before[k as int], before[b - 1]) || b - 1 == k);
                        }
                    } else if a < k {
                        assert(out@[a] == before[a] && out@[b] == before[b - 1]);
                        assert(lit_le()(before[a], before[b - 1]));
                    } else {
                        assert(out@[a] == before[a - 1] && out@[b] == before[b - 1]);
                        assert(lit_le()(before[a - 1], before[b - 1]));
                    }
                }
            }
            assert(out@ == before.insert(k as int, x));
            vstd::seq_lib::to_multiset_insert(before, k as int, x);
            vstd::seq_lib::to_multiset_build(v@.take(i as int), x);
            assert(v@.take(i + 1) =~= v@.take(i as int).push(x));
        }
        i = i + 1;
    }
    proof {
        assert(v@.take(v@.len() as int) =~= v@);
        v@.lemma_sort_by_ensures(lit_le());
        vstd::seq_lib::lemma_sorted_unique(out@, v@.sort_by(lit_le()), lit_le());
    }
    out
}

/// The canonical forms of the clauses of a representation (see `canonical_clause`), inverting its
/// remapping over the arena variables `1..n`.
pub open spec fn canonical_clauses(c: Clauses, n: int) -> Seq<Seq<VarId>> {
    let inv = inverse_upto(c.var_remap@, n, c.vars@.len() as int);
    clauses_view(c.clauses@).map_values(|cl: Seq<VarId>| canonical_clause(inv, cl))
}

/// Whether all literals of a representation refer to its variables.
pub open spec fn clauses_in_range(c: Clauses) -> bool {
    forall|i: int| 0 <= i < c.clauses@.len() ==> lits_below(#[trigger] c.clauses@[i]@, c.vars@.len() as int)
}

/// Whether all variables of some arena clauses have an index in a representation.
pub open spec fn all_clauses_mapped(remap: Map<VarId, VarId>, cs: Seq<Seq<VarId>>) -> bool {
    forall|i: int| 0 <= i < cs.len() ==> all_mapped(remap, #[trigger] cs[i])
}

/// The queries for arena clauses that a base representation lacks: their negations in its literals.
pub open spec fn queries_for(remap: Map<VarId, VarId>, cs: Seq<Seq<VarId>>) -> Seq<Seq<VarId>> {
    cs.map_values(|c: Seq<VarId>| negated_in(remap, c))
}

/// The view of a list of clauses.
pub open spec fn lists_view(v: Seq<Vec<VarId>>) -> Seq<Seq<VarId>> {
    v.map_values(|c: Vec<VarId>| c@)
}

/// Returns, for each index of a representation, the arena variable that its remapping maps to it
/// (see `inverse_upto`), scanning the arena variables below `n`.
fn inverse_of(c: &Clauses, n: usize) -> (r: Vec<VarId>)
    requires
        n <= i32::MAX + 1,
    ensures
        r@ == inverse_upto(c.var_remap@, n as int, c.vars@.len() as int),
        r@.len() == c.vars@.len(),
        forall|k: int| 0 <= k < r@.len() ==> #[trigger] r@[k] >= 0,
{
    let m = c.vars.len();
    let mut inv: Vec<VarId> = Vec::new();
    let mut k: usize = 0;
    while k < m
        invariant
            k <= m,
            m == c.vars@.len(),
            inv@ =~= Seq::new(k as nat, |j: int| 0 as VarId),
        decreases m - k,
    {
        inv.push(0);
        k = k + 1;
    }
    if n <= 1 {
        return inv;
    }
    let mut i: usize = 1;
    while i < n
        invariant
            1 <= i <= n <= i32::MAX + 1,
            m == c.vars@.len(),
            inv@ == inverse_upto(c.var_remap@, i as int, m as int),
            forall|k: int| 0 <= k < inv@.len() ==> #[trigger] inv@[k] >= 0,
            inv@.len() == m,
        decreases n - i,
    {
        let v = i as VarId;
        match c.var_remap.get(&v) {
            Some(l) => {
                if 0 <= *l && (*l as usize) < m {
                    inv.set(*l as usize, v);
                }
            },
            None => {},
        }
        i = i + 1;
    }
    inv
}

/// Returns the canonical form of a clause (see `canonical_clause`), or `None` if a literal refers
/// to no index of `inv`.
fn canonical_of(inv: &Vec<VarId>, c: &Vec<VarId>) -> (r: Option<Vec<VarId>>)
    requires
        inv@.len() <= i32::MAX,
        forall|k: int| 0 <= k < inv@.len() ==> #[trigger] inv@[k] >= 0,
    ensures
        lits_below(c@, inv@.len() as int) ==> (r matches Some(x) && x@ == canonical_clause(inv@, c@)),
        !lits_below(c@, inv@.len() as int) ==> r is None,
{
    let mut lits: Vec<VarId> = Vec::new();
    let mut j: usize = 0;
    while j < c.len()
        invariant
            j <= c@.len(),
            lits_below(c@.take(j as int), inv@.len() as int),
            lits@ == c@.take(j as int).map_values(|l: VarId| arena_lit(inv@, l)),
            forall|k: int| 0 <= k < inv@.len() ==> #[trigger] inv@[k] >= 0,
            inv@.len() <= i32::MAX,
        decreases c.len() - j,
    {
        let l = c[j];
        if l == 0 || l == i32::MIN || (if l > 0 { l as usize } else { (-l) as usize }) >= inv.len() {
            proof {
                assert(c@[j as int] == l);
                assert(!(0 < abs_lit(l) < inv@.len()));
            }
            return None;
        }
        let a = if l > 0 { inv[l as usize] } else { -inv[(-l) as usize] };
        lits.push(a);
        proof {
            assert(c@.take(j + 1) =~= c@.take(j as int).push(l));
            assert(0 < abs_lit(l) < inv@.len());
            assert(a == arena_lit(inv@, l));
            assert(lits@ =~= c@.take(j + 1).map_values(|l: VarId| arena_lit(inv@, l)));
            assert(lits_below(c@.take(j + 1), inv@.len() as int));
        }
        j = j + 1;
    }
    assert(c@.take(c@.len() as int) =~= c@);
    Some(sorted_lits(&lits))
}

/// Returns whether two lists of literals are equal.
fn lits_eq(a: &Vec<VarId>, b: &Vec<VarId>) -> (r: bool)
    ensures
        r == (a@ == b@),
{
    if a.len() != b.len() {
        return false;
    }
    let mut i: usize = 0;
    while i < a.len()
        invariant
            i <= a@.len(),
            a@.len() == b@.len(),
            forall|k: int| 0 <= k < i ==> a@[k] == b@[k],
        decreases a.len() - i,
    {
        if a[i] != b[i] {
            return false;
        }
        i = i + 1;
    }
    assert(a@ =~= b@);
    true
}

/// Returns whether a list of clauses contains a clause.
fn contains_clause(ys: &Vec<Vec<VarId>>, x: &Vec<VarId>) -> (r: bool)
    ensures
        r == lists_view(ys@).contains(x@),
{
    let mut i: usize = 0;
    while i < ys.len()
        invariant
            i <= ys@.len(),
            forall|k: int| 0 <= k < i ==> ys@[k]@ != x@,
        decreases ys.len() - i,
    {
        if lits_eq(&ys[i], x) {
            assert(lists_view(ys@)[i as int] == x@);
            return true;
        }
        i = i + 1;
    }
    proof {
        if lists_view(ys@).contains(x@) {
            let k = choose|k: int| 0 <= k < lists_view(ys@).len() && lists_view(ys@)[k] == x@;
            assert(ys@[k]@ == x@);
        }
    }
    false
}

/// Returns the clauses of `xs` that do not occur in `ys` (see `missing_from`).
fn missing(xs: &Vec<Vec<VarId>>, ys: &Vec<Vec<VarId>>) -> (r: Vec<Vec<VarId>>)
    ensures
        lists_view(r@) == missing_from(lists_view(xs@), lists_view(ys@)),
{
    let mut r: Vec<Vec<VarId>> = Vec::new();
    let mut i: usize = 0;
    while i < xs.len()
        invariant
            i <= xs@.len(),
            lists_view(r@) == missing_from(lists_view(xs@).take(i as int), lists_view(ys@)),
        decreases xs.len() - i,
    {
        let ghost before = lists_view(r@);
        proof {
            assert(lists_view(xs@).take(i + 1).drop_last() =~= lists_view(xs@).take(i as int));
            assert(lists_view(xs@).take(i + 1).last() == xs@[i as int]@);
        }
        if !contains_clause(ys, &xs[i]) {
            r.push(copy_lits(&xs[i]));
            assert(lists_view(r@) =~= before.push(xs@[i as int]@));
        } else {
            assert(lists_view(r@) =~= before + Seq::<Seq<VarId>>::empty());
        }
        i = i + 1;
    }
    assert(lists_view(xs@).take(xs@.len() as int) =~= lists_view(xs@));
    r
}

/// Returns a copy of a list of literals.
fn copy_lits(v: &Vec<VarId>) -> (r: Vec<VarId>)
    ensures
        r@ == v@,
{
    let mut r: Vec<VarId> = Vec::new();
    let mut i: usize = 0;
    while i < v.len()
        invariant
            i <= v@.len(),
            r@ == v@.take(i as int),
        decreases v.len() - i,
    {
        r.push(v[i]);
        i = i + 1;
        assert(r@ =~= v@.take(i as int));
    }
    assert(v@.take(v@.len() as int) =~= v@);
    r
}

/// Returns the negation of an arena clause in a representation's literals (see `negated_in`), or
/// `None` if some variable of the clause has no index in it.
fn negated_of(remap: &std::collections::HashMap<VarId, VarId>, c: &Vec<VarId>) -> (r: Option<Vec<VarId>>)
    requires
        forall|v: VarId| #[trigger] remap@.contains_key(v) ==> 0 < remap@[v] <= i32::MAX,
    ensures
        all_mapped(remap@, c@) ==> (r matches Some(x) && x@ == negated_in(remap@, c@)),
        !all_mapped(remap@, c@) ==> r is None,
{
    let mut out: Vec<VarId> = Vec::new();
    let mut j: usize = 0;
    while j < c.len()
        invariant
            j <= c@.len(),
            forall|v: VarId| #[trigger] remap@.contains_key(v) ==> 0 < remap@[v] <= i32::MAX,
            all_mapped(remap@, c@.take(j as int)),
            out@ == negated_in(remap@, c@.take(j as int)),
        decreases c.len() - j,
    {
        let l = c[j];
        if l == i32::MIN {
            proof {
                assert(!all_mapped(remap@, c@)) by {
                    assert(c@[j as int] == l);
                    assert(abs_lit(l) > i32::MAX);
                }
            }
            return None;
        }
        let v = if l > 0 { l } else { -l };
        match remap.get(&v) {
            Some(x) => {
                let n = if l > 0 { -*x } else { *x };
                out.push(n);
                proof {
                    assert(c@.take(j + 1) =~= c@.take(j as int).push(l));
                    assert((abs_lit(l)) as VarId == v);
                    assert(out@ =~= negated_in(remap@, c@.take(j + 1)));
                }
            },
            None => {
                proof {
                    assert((abs_lit(l)) as VarId == v);
                    assert(!all_mapped(remap@, c@)) by {
                        assert(c@[j as int] == l);
                    }
                }
                return None;
            },
        }
        j = j + 1;
    }
    assert(c@.take(c@.len() as int) =~= c@);
    Some(out)
}

impl Clauses {
    /// Returns this clause representation with a unit clause added for each given literal (which
    /// assumes the literals true).
    pub fn assuming(&self, lits: &Vec<VarId>) -> (r: Clauses)
        ensures
            clauses_view(r.clauses@) == clauses_view(self.clauses@) + lits@.map_values(|l: VarId| seq![l]),
            crate::clauses::vars_view(r.vars@) == crate::clauses::vars_view(self.vars@),
            r.var_remap@ == self.var_remap@,
    {
        let mut clauses: Vec<Vec<VarId>> = Vec::new();
        let mut i: usize = 0;
        while i < self.clauses.len()
            invariant
                i <= self.clauses@.len(),
                clauses_view(clauses@) == clauses_view(self.clauses@).take(i as int),
            decreases self.clauses.len() - i,
        {
            let ghost before = clauses_view(clauses@);
            clauses.push(copy_lits(&self.clauses[i]));
            assert(clauses_view(clauses@) =~= before.push(self.clauses@[i as int]@));
            assert(clauses_view(self.clauses@).take(i + 1) =~= clauses_view(self.clauses@).take(i as int).push(self.clauses@[i as int]@));
            i = i + 1;
        }
        let ghost base = clauses_view(clauses@);
        let mut j: usize = 0;
        while j < lits.len()
            invariant
                j <= lits@.len(),
                clauses_view(clauses@) == base + lits@.take(j as int).map_values(|l: VarId| seq![l]),
            decreases lits.len() - j,
        {
            let ghost before = clauses_view(clauses@);
            let mut unit: Vec<VarId> = Vec::new();
            unit.push(lits[j]);
            assert(unit@ =~= seq![lits@[j as int]]);
            clauses.push(unit);
            assert(clauses_view(clauses@) =~= before.push(seq![lits@[j as int]]));
            assert(lits@.take(j + 1).map_values(|l: VarId| seq![l]) =~= lits@.take(j as int).map_values(|l: VarId| seq![l]).push(seq![lits@[j as int]]));
            j = j + 1;
        }
        assert(clauses_view(self.clauses@).take(self.clauses@.len() as int) =~= clauses_view(self.clauses@));
        assert(lits@.take(lits@.len() as int) =~= lits@);
        let mut vars: Vec<crate::var::Var> = Vec::new();
        let mut k: usize = 0;
        while k < self.vars.len()
            invariant
                k <= self.vars@.len(),
                vars@.len() == k,
                forall|x: int| 0 <= x < k ==> #[trigger] vars@[x]@ == self.vars@[x]@,
            decreases self.vars.len() - k,
        {
            vars.push(self.vars[k].clone());
            k = k + 1;
        }
        assert(crate::clauses::vars_view(vars@) =~= crate::clauses::vars_view(self.vars@));
        Clauses { clauses, vars, var_remap: self.var_remap.clone() }
    }
}

/// Returns the canonical forms of the clauses of a representation (see `canonical_clauses`), or
/// `None` if some literal refers to none of its variables.
fn canonical_list(c: &Clauses, n: usize) -> (r: Option<Vec<Vec<VarId>>>)
    requires
        n <= i32::MAX + 1,
        c.vars@.len() <= i32::MAX,
    ensures
        clauses_in_range(*c) ==> (r matches Some(x) && lists_view(x@) == canonical_clauses(*c, n as int)),
        !clauses_in_range(*c) ==> r is None,
{
    let inv = inverse_of(c, n);
    let ghost cv = clauses_view(c.clauses@);
    let mut out: Vec<Vec<VarId>> = Vec::new();
    let mut i: usize = 0;
    while i < c.clauses.len()
        invariant
            i <= c.clauses@.len(),
            cv == clauses_view(c.clauses@),
            inv@ == inverse_upto(c.var_remap@, n as int, c.vars@.len() as int),
            inv@.len() == c.vars@.len(),
            inv@.len() <= i32::MAX,
            forall|k: int| 0 <= k < inv@.len() ==> #[trigger] inv@[k] >= 0,
            forall|k: int| 0 <= k < i ==> lits_below(#[trigger] c.clauses@[k]@, c.vars@.len() as int),
            lists_view(out@) == cv.take(i as int).map_values(|cl: Seq<VarId>| canonical_clause(inv@, cl)),
        decreases c.clauses.len() - i,
    {
        match canonical_of(&inv, &c.clauses[i]) {
            Some(x) => {
                let ghost before = lists_view(out@);
                out.push(x);
                proof {
                    assert(cv[i as int] == c.clauses@[i as int]@);
                    assert(lists_view(out@) =~= before.push(canonical_clause(inv@, cv[i as int])));
                    assert(cv.take(i + 1) =~= cv.take(i as int).push(cv[i as int]));
                    assert(cv.take(i + 1).map_values(|cl: Seq<VarId>| canonical_clause(inv@, cl))
                        =~= cv.take(i as int).map_values(|cl: Seq<VarId>| canonical_clause(inv@, cl)).push(canonical_clause(inv@, cv[i as int])));
                }
            },
            None => {
                return None;
            },
        }
        i = i + 1;
    }
    assert(cv.take(cv.len() as int) =~= cv);
    Some(out)
}

/// Returns the queries for the given arena clauses (see `queries_for`), or `None` if some variable
/// of them has no index in the representation.
fn queries_list(remap: &std::collections::HashMap<VarId, VarId>, cs: &Vec<Vec<VarId>>) -> (r: Option<Vec<Vec<VarId>>>)
    requires
        forall|v: VarId| #[trigger] remap@.contains_key(v) ==> 0 < remap@[v] <= i32::MAX,
    ensures
        all_clauses_mapped(remap@, lists_view(cs@)) ==> (r matches Some(x) && lists_view(x@) == queries_for(remap@, lists_view(cs@))),
        !all_clauses_mapped(remap@, lists_view(cs@)) ==> r is None,
{
    let ghost csv = lists_view(cs@);
    let mut out: Vec<Vec<VarId>> = Vec::new();
    let mut i: usize = 0;
    while i < cs.len()
        invariant
            i <= cs@.len(),
            csv == lists_view(cs@),
            forall|v: VarId| #[trigger] remap@.contains_key(v) ==> 0 < remap@[v] <= i32::MAX,
            forall|k: int| 0 <= k < i ==> all_mapped(remap@, #[trigger] csv[k]),
            lists_view(out@) == queries_for(remap@, csv.take(i as int)),
        decreases cs.len() - i,
    {
        match negated_of(remap, &cs[i]) {
            Some(x) => {
                let ghost before = lists_view(out@);
                out.push(x);
                proof {
                    assert(csv[i as int] == cs@[i as int]@);
                    assert(lists_view(out@) =~= before.push(negated_in(remap@, csv[i as int])));
                    assert(csv.take(i + 1) =~= csv.take(i as int).push(csv[i as int]));
                    assert(queries_for(remap@, csv.take(i + 1)) =~= queries_for(remap@, csv.take(i as int)).push(negated_in(remap@, csv[i as int])));
                }
            },
            None => {
                proof {
                    assert(csv[i as int] == cs@[i as int]@);
                }
                return None;
            },
        }
        i = i + 1;
    }
    assert(csv.take(csv.len() as int) =~= csv);
    Some(out)
}

/// Whether `q` holds the queries of simplified reasoning for its two representations, inverting
/// their remappings over the arena variables `1..n`.
pub open spec fn simplified_spec(q: SimplifiedQueries, n: int) -> bool {
    let ca = canonical_clauses(q.left, n);
    let cb = canonical_clauses(q.right, n);
    &&& clauses_in_range(q.left)
    &&& clauses_in_range(q.right)
    &&& all_clauses_mapped(q.left.var_remap@, missing_from(cb, ca))
    &&& all_clauses_mapped(q.right.var_remap@, missing_from(ca, cb))
    &&& lists_view(q.removed@) == queries_for(q.left.var_remap@, missing_from(cb, ca))
    &&& lists_view(q.added@) == queries_for(q.right.var_remap@, missing_from(ca, cb))
}

/// Whether a representation is the clause result of a copy of `formula` in `arena` after the
/// distributive transformation (see `dist_copy` and `diff_clauses`); it is an error only where
/// that copy is not in conjunctive normal form over its variables.
pub open spec fn dist_result(formula: Formula, arena: Arena, r: Result<Clauses, ClausesError>) -> bool {
    exists|f: Formula, a: Arena| #[trigger] crate::clauses::clauses_result(f, a, r)
        && crate::diff::dist_copy(f, a, formula, arena)
        && (crate::clauses::is_cnf(a.ev(), f.root_id, f.sub_var_ids@) ==> r is Ok)
}

/// Whether the clause representation `c` is satisfied by exactly the models of `formula`, over the
/// formula's variables (see `formula_var_ids`).
pub open spec fn clauses_mean(c: Clauses, formula: Formula, arena: Arena) -> bool {
    forall|value: spec_fn(crate::expr::ExprId) -> bool, assignment: spec_fn(VarId) -> bool|
        #[trigger] crate::meaning::evaluates(arena.ev(), value, assignment)
        ==> value(formula.root_id) == crate::clauses::satisfies(crate::clauses::clauses_view(c.clauses@),
            crate::clauses::formula_var_ids(&formula, &arena), assignment)
}

/// Whether an arena literal is true: a positive literal names a true variable, any other literal
/// a false one.
pub open spec fn arena_lit_true(l: VarId, assignment: spec_fn(VarId) -> bool) -> bool {
    if l > 0 { assignment(l) } else { !assignment((-(l as int)) as VarId) }
}

/// Whether an arena clause has a true literal.
pub open spec fn arena_clause_true(c: Seq<VarId>, assignment: spec_fn(VarId) -> bool) -> bool {
    exists|k: int| 0 <= k < c.len() && #[trigger] arena_lit_true(c[k], assignment)
}

/// The unit clauses of a list of literals.
pub open spec fn units(lits: Seq<VarId>) -> Seq<Seq<VarId>> {
    lits.map_values(|l: VarId| seq![l])
}

/// Whether the queries `queries` of a base representation `base` of `formula` mean that the arena
/// clauses `missing` are false: an assignment satisfies the base with a query's unit clauses
/// exactly when it is a model of the formula in which the corresponding clause is false.
pub open spec fn queries_mean(base: Clauses, formula: Formula, arena: Arena, queries: Seq<Vec<VarId>>, missing: Seq<Seq<VarId>>) -> bool {
    &&& queries.len() == missing.len()
    &&& forall|k: int, value: spec_fn(crate::expr::ExprId) -> bool, assignment: spec_fn(VarId) -> bool|
        0 <= k < queries.len() && #[trigger] crate::meaning::evaluates(arena.ev(), value, assignment)
        ==> (#[trigger] crate::clauses::satisfies(crate::clauses::clauses_view(base.clauses@) + units(queries[k]@),
                crate::clauses::formula_var_ids(&formula, &arena), assignment)
            <==> value(formula.root_id) && !arena_clause_true(missing[k], assignment))
}

/// Whether every model of the base representation `base` of `a` together with one of the queries
/// is a model of `a` that is no model of `b`: a satisfiable query shows a solution that the edit
/// from `a` to `b` removes.
pub open spec fn queries_sound(base: Clauses, a: Formula, b: Formula, arena: Arena, queries: Seq<Vec<VarId>>) -> bool {
    forall|k: int, value: spec_fn(crate::expr::ExprId) -> bool, assignment: spec_fn(VarId) -> bool|
        0 <= k < queries.len() && #[trigger] crate::meaning::evaluates(arena.ev(), value, assignment)
        && #[trigger] crate::clauses::satisfies(crate::clauses::clauses_view(base.clauses@) + units(queries[k]@),
            crate::clauses::formula_var_ids(&a, &arena), assignment)
        ==> value(a.root_id) && !value(b.root_id)
}

/// Whether every model of `a` that is no model of `b` satisfies the base representation of `a`
/// together with some query.
pub open spec fn queries_complete(base: Clauses, a: Formula, b: Formula, arena: Arena, queries: Seq<Vec<VarId>>) -> bool {
    forall|value: spec_fn(crate::expr::ExprId) -> bool, assignment: spec_fn(VarId) -> bool|
        #[trigger] crate::meaning::evaluates(arena.ev(), value, assignment) && value(a.root_id) && !value(b.root_id)
        ==> exists|k: int| 0 <= k < queries.len()
            && #[trigger] crate::clauses::satisfies(crate::clauses::clauses_view(base.clauses@) + units(queries[k]@),
                crate::clauses::formula_var_ids(&a, &arena), assignment)
}

/// A clause of `xs` that `ys` lacks is among the clauses missing from `ys`.
proof fn lemma_missing_from_has(xs: Seq<Seq<VarId>>, ys: Seq<Seq<VarId>>, x: Seq<VarId>)
    requires
        xs.contains(x),
        !ys.contains(x),
    ensures
        missing_from(xs, ys).contains(x),
    decreases xs.len(),
{
    let m0 = missing_from(xs.drop_last(), ys);
    let m = missing_from(xs, ys);
    if xs.last() == x {
        assert(m[m.len() - 1] == x);
    } else {
        let t = choose|t: int| 0 <= t < xs.len() && xs[t] == x;
        assert(t < xs.len() - 1);
        assert(xs.drop_last()[t] == x);
        lemma_missing_from_has(xs.drop_last(), ys, x);
        let u = choose|u: int| 0 <= u < m0.len() && m0[u] == x;
        assert(m[u] == x);
    }
}

/// The inverse of a formula's numbering maps each index to its variable.
proof fn lemma_formula_inverse(c: Clauses, f: Formula, arena: Arena)
    requires
        arena.wf(),
        c.var_remap@ == crate::clauses::remap_of(crate::clauses::formula_var_ids(&f, &arena)),
        c.vars@.len() == crate::clauses::formula_var_ids(&f, &arena).len() + 1,
    ensures
        ({
            let ids = crate::clauses::formula_var_ids(&f, &arena);
            let inv = inverse_upto(c.var_remap@, arena.vars@.len() as int, c.vars@.len() as int);
            &&& inv.len() == ids.len() + 1
            &&& forall|j: int| 1 <= j < inv.len() ==> #[trigger] inv[j] == ids[j - 1]
            &&& forall|k: int| 0 <= k < ids.len() ==> 1 <= #[trigger] ids[k] <= i32::MAX
        }),
{
    let n = arena.vars@.len() as int;
    let ids = crate::clauses::formula_var_ids(&f, &arena);
    let p = |v: VarId| f.sub_var_ids@.contains(v);
    lemma_selected_ids_len(p, n);
    lemma_selected_ids_sorted(p, n);
    lemma_inverse_upto(ids, n, (ids.len() + 1) as int);
    let inv = inverse_upto(c.var_remap@, n, c.vars@.len() as int);
    assert forall|j: int| 1 <= j < inv.len() implies #[trigger] inv[j] == ids[j - 1] by {
        assert(ids[j - 1] < n);
    }
}

/// Every model of `a` that is no model of `b` satisfies the base with the query for a clause of
/// `b` that it falsifies.
proof fn lemma_queries_complete(base: Clauses, other: Clauses, a: Formula, b: Formula, arena: Arena, queries: Seq<Vec<VarId>>)
    requires
        arena.wf(),
        queries_mean(base, a, arena, queries,
            missing_from(canonical_clauses(other, arena.vars@.len() as int), canonical_clauses(base, arena.vars@.len() as int))),
        clauses_mean(base, a, arena),
        clauses_mean(other, b, arena),
        base.var_remap@ == crate::clauses::remap_of(crate::clauses::formula_var_ids(&a, &arena)),
        base.vars@.len() == crate::clauses::formula_var_ids(&a, &arena).len() + 1,
        other.var_remap@ == crate::clauses::remap_of(crate::clauses::formula_var_ids(&b, &arena)),
        other.vars@.len() == crate::clauses::formula_var_ids(&b, &arena).len() + 1,
        clauses_in_range(base),
        clauses_in_range(other),
    ensures
        queries_complete(base, a, b, arena, queries),
{
    let n = arena.vars@.len() as int;
    let ids_a = crate::clauses::formula_var_ids(&a, &arena);
    let ids_b = crate::clauses::formula_var_ids(&b, &arena);
    lemma_formula_inverse(base, a, arena);
    lemma_formula_inverse(other, b, arena);
    let inv_a = inverse_upto(base.var_remap@, n, base.vars@.len() as int);
    let inv_b = inverse_upto(other.var_remap@, n, other.vars@.len() as int);
    let ca = canonical_clauses(base, n);
    let cb = canonical_clauses(other, n);
    let missing = missing_from(cb, ca);
    let cls_a = crate::clauses::clauses_view(base.clauses@);
    let cls_b = crate::clauses::clauses_view(other.clauses@);
    assert forall|value: spec_fn(crate::expr::ExprId) -> bool, assignment: spec_fn(VarId) -> bool|
        #[trigger] crate::meaning::evaluates(arena.ev(), value, assignment) && value(a.root_id) && !value(b.root_id)
        implies exists|k: int| 0 <= k < queries.len()
            && #[trigger] crate::clauses::satisfies(crate::clauses::clauses_view(base.clauses@) + units(queries[k]@), ids_a, assignment) by {
        assert(!crate::clauses::satisfies(cls_b, ids_b, assignment));
        let j = choose|j: int| 0 <= j < cls_b.len() && !#[trigger] crate::clauses::clause_true(cls_b[j], ids_b, assignment);
        assert(cls_b[j] == other.clauses@[j]@);
        assert(lits_below(other.clauses@[j]@, other.vars@.len() as int));
        lemma_canonical_clause_true(inv_b, ids_b, cls_b[j], assignment);
        let x = cb[j];
        assert(x == canonical_clause(inv_b, cls_b[j]));
        assert(!arena_clause_true(x, assignment));
        if ca.contains(x) {
            let i = choose|i: int| 0 <= i < ca.len() && ca[i] == x;
            assert(ca[i] == canonical_clause(inv_a, cls_a[i]));
            assert(cls_a[i] == base.clauses@[i]@);
            assert(lits_below(base.clauses@[i]@, base.vars@.len() as int));
            lemma_canonical_clause_true(inv_a, ids_a, cls_a[i], assignment);
            assert(crate::clauses::satisfies(cls_a, ids_a, assignment));
            assert(crate::clauses::clause_true(cls_a[i], ids_a, assignment));
            assert(false);
        }
        assert(cb.contains(x));
        lemma_missing_from_has(cb, ca, x);
        let k = choose|k: int| 0 <= k < missing.len() && missing[k] == x;
        assert(crate::clauses::satisfies(crate::clauses::clauses_view(base.clauses@) + units(queries[k]@), ids_a, assignment));
    }
}

/// The variables selected below `n` are fewer than `n`.
proof fn lemma_selected_ids_len(p: spec_fn(VarId) -> bool, n: int)
    ensures
        crate::formula::selected_ids(p, n).len() <= if n > 1 { n - 1 } else { 0 },
    decreases n,
{
    if n > 1 {
        lemma_selected_ids_len(p, n - 1);
    }
}

/// The variables selected below `n` lie in `1..n`, in strictly ascending order.
proof fn lemma_selected_ids_sorted(p: spec_fn(VarId) -> bool, n: int)
    requires
        n <= i32::MAX + 1,
    ensures
        forall|i: int| 0 <= i < crate::formula::selected_ids(p, n).len() ==> 1 <= #[trigger] crate::formula::selected_ids(p, n)[i] < n,
        forall|i: int, j: int| 0 <= i < j < crate::formula::selected_ids(p, n).len()
            ==> #[trigger] crate::formula::selected_ids(p, n)[i] < #[trigger] crate::formula::selected_ids(p, n)[j],
    decreases n,
{
    if n > 1 {
        lemma_selected_ids_sorted(p, n - 1);
        let t = crate::formula::selected_ids(p, n - 1);
        let s = crate::formula::selected_ids(p, n);
        assert forall|i: int| 0 <= i < s.len() implies 1 <= #[trigger] s[i] < n by {
            if i < t.len() {
                assert(s[i] == t[i]);
            }
        }
        assert forall|i: int, j: int| 0 <= i < j < s.len() implies #[trigger] s[i] < #[trigger] s[j] by {
            if j < t.len() {
                assert(s[i] == t[i] && s[j] == t[j]);
            } else {
                assert(s[i] == t[i]);
            }
        }
    }
}

/// Scanning the arena variables below `i`, the inverse of the numbering of strictly ascending
/// variables `ids` (all in `1..`) maps each index to its variable once that is below `i`.
proof fn lemma_inverse_upto(ids: Seq<VarId>, i: int, m: int)
    requires
        m == ids.len() + 1,
        forall|k: int| 0 <= k < ids.len() ==> 1 <= #[trigger] ids[k],
        forall|a: int, b: int| 0 <= a < b < ids.len() ==> #[trigger] ids[a] < #[trigger] ids[b],
        i <= i32::MAX + 1,
        ids.len() < i32::MAX,
    ensures
        inverse_upto(crate::clauses::remap_of(ids), i, m).len() == m,
        forall|j: int| 1 <= j < m ==> #[trigger] inverse_upto(crate::clauses::remap_of(ids), i, m)[j]
            == if ids[j - 1] < i { ids[j - 1] } else { 0 as VarId },
    decreases i,
{
    let remap = crate::clauses::remap_of(ids);
    if i > 1 {
        lemma_inverse_upto(ids, i - 1, m);
        let s0 = inverse_upto(remap, i - 1, m);
        let v = (i - 1) as VarId;
        assert forall|j: int| 1 <= j < m implies #[trigger] inverse_upto(remap, i, m)[j]
            == if ids[j - 1] < i { ids[j - 1] } else { 0 as VarId } by {
            if remap.contains_key(v) && 0 <= remap[v] < m {
                let x = ids.index_of(v);
                assert(ids.contains(v));
                assert(0 <= x < ids.len() && ids[x] == v);
                assert(remap[v] == (x + 1) as VarId);
                if j != x + 1 {
                    if ids[j - 1] == v {
                        if j - 1 < x {
                            assert(ids[j - 1] < ids[x]);
                        } else {
                            assert(ids[x] < ids[j - 1]);
                        }
                    }
                }
            } else {
                if ids[j - 1] == v {
                    assert(ids.contains(v));
                    let x = ids.index_of(v);
                    assert(0 <= x < ids.len() && ids[x] == v);
                    assert(remap.contains_key(v));
                    assert(remap[v] == (x + 1) as VarId);
                }
            }
        }
    }
}

/// An arena clause from a representation's clause through the inverse of its numbering has a true
/// literal exactly when the clause does.
proof fn lemma_canonical_clause_true(inv: Seq<VarId>, ids: Seq<VarId>, c: Seq<VarId>, assignment: spec_fn(VarId) -> bool)
    requires
        inv.len() == ids.len() + 1,
        forall|j: int| 1 <= j < inv.len() ==> #[trigger] inv[j] == ids[j - 1],
        forall|k: int| 0 <= k < ids.len() ==> 1 <= #[trigger] ids[k] <= i32::MAX,
        lits_below(c, inv.len() as int),
    ensures
        arena_clause_true(canonical_clause(inv, c), assignment) == crate::clauses::clause_true(c, ids, assignment),
{
    let mapped = c.map_values(|l: VarId| arena_lit(inv, l));
    assert forall|k: int| 0 <= k < c.len() implies #[trigger] arena_lit_true(mapped[k], assignment)
        == crate::clauses::lit_true(c[k], ids, assignment) by {
        let l = c[k];
        assert(0 < abs_lit(l) < inv.len());
        if l > 0 {
            assert(mapped[k] == inv[l as int]);
        } else {
            assert(inv[(-(l as int))] == ids[(-(l as int)) - 1]);
        }
    }
    broadcast use vstd::seq_lib::group_to_multiset_ensures;
    mapped.lemma_sort_by_ensures(lit_le());
    let sorted = mapped.sort_by(lit_le());
    assert(sorted == canonical_clause(inv, c));
    if arena_clause_true(sorted, assignment) {
        let k = choose|k: int| 0 <= k < sorted.len() && #[trigger] arena_lit_true(sorted[k], assignment);
        assert(sorted.contains(sorted[k]));
        assert(mapped.contains(sorted[k]));
        let t = choose|t: int| 0 <= t < mapped.len() && mapped[t] == sorted[k];
        assert(crate::clauses::lit_true(c[t], ids, assignment));
    }
    if crate::clauses::clause_true(c, ids, assignment) {
        let t = choose|t: int| 0 <= t < c.len() && #[trigger] crate::clauses::lit_true(c[t], ids, assignment);
        assert(mapped.contains(mapped[t]));
        assert(mapped.to_multiset().contains(mapped[t]));
        assert(sorted.contains(mapped[t]));
        let k = choose|k: int| 0 <= k < sorted.len() && sorted[k] == mapped[t];
        assert(arena_lit_true(sorted[k], assignment));
    }
}

/// The clauses that one list lacks of another are clauses of the latter.
proof fn lemma_missing_from_sub(xs: Seq<Seq<VarId>>, ys: Seq<Seq<VarId>>)
    ensures
        forall|k: int| 0 <= k < missing_from(xs, ys).len() ==> xs.contains(#[trigger] missing_from(xs, ys)[k]),
    decreases xs.len(),
{
    if xs.len() > 0 {
        lemma_missing_from_sub(xs.drop_last(), ys);
        let m0 = missing_from(xs.drop_last(), ys);
        let m = missing_from(xs, ys);
        assert forall|k: int| 0 <= k < m.len() implies xs.contains(#[trigger] m[k]) by {
            if k < m0.len() {
                assert(m[k] == m0[k]);
                let t = choose|t: int| 0 <= t < xs.drop_last().len() && xs.drop_last()[t] == m0[k];
                assert(xs[t] == m[k]);
            } else {
                assert(m[k] == xs.last());
                assert(xs[xs.len() - 1] == m[k]);
            }
        }
    }
}

/// An assignment satisfies clauses together with the unit clauses of the query for an arena clause
/// `c` (its negation, see `negated_in`) exactly when it satisfies the clauses and falsifies `c`.
pub proof fn law_query_meaning(cs: Seq<Seq<VarId>>, ids: Seq<VarId>, c: Seq<VarId>, assignment: spec_fn(VarId) -> bool)
    requires
        ids.len() < i32::MAX,
        all_mapped(crate::clauses::remap_of(ids), c),
    ensures
        crate::clauses::satisfies(cs + units(negated_in(crate::clauses::remap_of(ids), c)), ids, assignment)
            == (crate::clauses::satisfies(cs, ids, assignment) && !arena_clause_true(c, assignment)),
{
    let remap = crate::clauses::remap_of(ids);
    let q = negated_in(remap, c);
    let all = cs + units(q);
    assert forall|j: int| 0 <= j < c.len() implies crate::clauses::lit_true(#[trigger] q[j], ids, assignment) == !arena_lit_true(c[j], assignment) by {
        let l = c[j];
        let v: VarId = (abs_lit(l)) as VarId;
        assert(remap.contains_key(v));
        assert(ids.contains(v));
        let i = ids.index_of(v);
        assert(0 <= i < ids.len() && ids[i] == v);
        assert(remap[v] == (i + 1) as VarId);
        if l > 0 {
            assert(v == l);
        } else {
            assert(v == (-(l as int)) as VarId);
        }
    }
    assert forall|j: int| 0 <= j < q.len() implies (#[trigger] crate::clauses::clause_true(units(q)[j], ids, assignment)
        == crate::clauses::lit_true(q[j], ids, assignment)) by {
        assert(units(q)[j] == seq![q[j]]);
        if crate::clauses::lit_true(q[j], ids, assignment) {
            assert(crate::clauses::lit_true(units(q)[j][0], ids, assignment));
        }
    }
    if crate::clauses::satisfies(all, ids, assignment) {
        assert forall|j: int| 0 <= j < cs.len() implies #[trigger] crate::clauses::clause_true(cs[j], ids, assignment) by {
            assert(all[j] == cs[j]);
        }
        assert forall|k: int| 0 <= k < c.len() implies !#[trigger] arena_lit_true(c[k], assignment) by {
            assert(all[cs.len() + k] == units(q)[k]);
            assert(crate::clauses::clause_true(all[cs.len() + k], ids, assignment));
        }
    }
    if crate::clauses::satisfies(cs, ids, assignment) && !arena_clause_true(c, assignment) {
        assert forall|j: int| 0 <= j < all.len() implies #[trigger] crate::clauses::clause_true(all[j], ids, assignment) by {
            if j < cs.len() {
                assert(all[j] == cs[j]);
            } else {
                let k = j - cs.len();
                assert(all[j] == units(q)[k]);
                assert(!arena_lit_true(c[k], assignment));
            }
        }
    }
}

/// Returns the clause representations of two formulas after the distributive transformation (on
/// copies), and the queries of simplified reasoning about the edit from `a` to `b`: each clause that
/// one representation lacks, compared in sorted arena literals, negated in the other's literals.
///
/// Fails if a formula has no clause representation, if a literal refers to no variable of its
/// representation, or if a clause refers to a variable that the other representation lacks.
pub fn simplified_queries(a: &Formula, b: &Formula, arena: &Arena) -> (r: Result<SimplifiedQueries, SimplifiedError>)
    requires
        arena.wf(),
        a.valid_in(arena),
        b.valid_in(arena),
        arena.new_vars is None,
        arena.new_exprs is None,
    ensures
        match r {
            Ok(q) => dist_result(*a, *arena, Ok(q.left)) && dist_result(*b, *arena, Ok(q.right)) && simplified_spec(q, arena.vars@.len() as int)
                && clauses_mean(q.left, *a, *arena) && clauses_mean(q.right, *b, *arena)
                && q.left.var_remap@ == crate::clauses::remap_of(crate::clauses::formula_var_ids(a, arena))
                && q.right.var_remap@ == crate::clauses::remap_of(crate::clauses::formula_var_ids(b, arena))
                && queries_mean(q.left, *a, *arena, q.removed@,
                    missing_from(canonical_clauses(q.right, arena.vars@.len() as int), canonical_clauses(q.left, arena.vars@.len() as int)))
                && queries_mean(q.right, *b, *arena, q.added@,
                    missing_from(canonical_clauses(q.left, arena.vars@.len() as int), canonical_clauses(q.right, arena.vars@.len() as int)))
                && queries_sound(q.left, *a, *b, *arena, q.removed@)
                && queries_sound(q.right, *b, *a, *arena, q.added@)
                && queries_complete(q.left, *a, *b, *arena, q.removed@)
                && queries_complete(q.right, *b, *a, *arena, q.added@),
            Err(SimplifiedError::Clauses(e)) => dist_result(*a, *arena, Err(e)) || dist_result(*b, *arena, Err(e)),
            Err(SimplifiedError::BadLiteral) => exists|c: Clauses|
                #![trigger dist_result(*a, *arena, Ok(c))] #![trigger dist_result(*b, *arena, Ok(c))]
                (dist_result(*a, *arena, Ok(c)) || dist_result(*b, *arena, Ok(c))) && !clauses_in_range(c),
            Err(SimplifiedError::Absent) => exists|x: Clauses, y: Clauses| #[trigger] dist_result(*a, *arena, Ok(x)) && #[trigger] dist_result(*b, *arena, Ok(y))
                && clauses_in_range(x) && clauses_in_range(y)
                && (!all_clauses_mapped(x.var_remap@, missing_from(canonical_clauses(y, arena.vars@.len() as int), canonical_clauses(x, arena.vars@.len() as int)))
                    || !all_clauses_mapped(y.var_remap@, missing_from(canonical_clauses(x, arena.vars@.len() as int), canonical_clauses(y, arena.vars@.len() as int)))),
        },
{
    let n = arena.vars.len();
    let left_r = diff_clauses(a, arena, Some(DiffTransform::Dist));
    let ghost wl: (Formula, Arena) = choose|f: Formula, x: Arena| #[trigger] crate::clauses::clauses_result(f, x, left_r)
        && crate::diff::dist_copy(f, x, *a, *arena)
        && (crate::clauses::is_cnf(x.ev(), f.root_id, f.sub_var_ids@) ==> left_r is Ok);
    proof {
        assert(crate::clauses::clauses_result(wl.0, wl.1, left_r));
        crate::clauses::lemma_clauses_result_vars(wl.0, wl.1, left_r);
    }
    let left = match left_r {
        Ok(c) => c,
        Err(e) => {
            return Err(SimplifiedError::Clauses(e));
        },
    };
    let right_r = diff_clauses(b, arena, Some(DiffTransform::Dist));
    let ghost wr: (Formula, Arena) = choose|f: Formula, x: Arena| #[trigger] crate::clauses::clauses_result(f, x, right_r)
        && crate::diff::dist_copy(f, x, *b, *arena)
        && (crate::clauses::is_cnf(x.ev(), f.root_id, f.sub_var_ids@) ==> right_r is Ok);
    proof {
        assert(crate::clauses::clauses_result(wr.0, wr.1, right_r));
        crate::clauses::lemma_clauses_result_vars(wr.0, wr.1, right_r);
    }
    let right = match right_r {
        Ok(c) => c,
        Err(e) => {
            return Err(SimplifiedError::Clauses(e));
        },
    };
    assert(dist_result(*a, *arena, Ok(left)));
    assert(dist_result(*b, *arena, Ok(right)));
    assert(clauses_mean(left, *a, *arena));
    assert(clauses_mean(right, *b, *arena));
    let ca = match canonical_list(&left, n) {
        Some(x) => x,
        None => {
            assert(dist_result(*a, *arena, Ok(left)) && !clauses_in_range(left));
            return Err(SimplifiedError::BadLiteral);
        },
    };
    let cb = match canonical_list(&right, n) {
        Some(x) => x,
        None => {
            assert(dist_result(*b, *arena, Ok(right)) && !clauses_in_range(right));
            return Err(SimplifiedError::BadLiteral);
        },
    };
    let unique_b = missing(&cb, &ca);
    let unique_a = missing(&ca, &cb);
    let removed = match queries_list(&left.var_remap, &unique_b) {
        Some(x) => x,
        None => {
            assert(dist_result(*a, *arena, Ok(left)) && dist_result(*b, *arena, Ok(right)));
            return Err(SimplifiedError::Absent);
        },
    };
    let added = match queries_list(&right.var_remap, &unique_a) {
        Some(x) => x,
        None => {
            assert(dist_result(*a, *arena, Ok(left)) && dist_result(*b, *arena, Ok(right)));
            return Err(SimplifiedError::Absent);
        },
    };
    let q = SimplifiedQueries { left, right, removed, added };
    proof {
        let n = arena.vars@.len() as int;
        lemma_queries_mean(q.left, *a, *arena, q.removed@, missing_from(canonical_clauses(q.right, n), canonical_clauses(q.left, n)));
        lemma_queries_mean(q.right, *b, *arena, q.added@, missing_from(canonical_clauses(q.left, n), canonical_clauses(q.right, n)));
        lemma_queries_sound(q.left, q.right, *a, *b, *arena, q.removed@);
        lemma_queries_sound(q.right, q.left, *b, *a, *arena, q.added@);
        lemma_queries_complete(q.left, q.right, *a, *b, *arena, q.removed@);
        lemma_queries_complete(q.right, q.left, *b, *a, *arena, q.added@);
    }
    Ok(q)
}

/// A query for a clause of the other formula's representation that the base lacks is satisfied
/// only by models of the base's formula that are no models of the other formula.
proof fn lemma_queries_sound(base: Clauses, other: Clauses, a: Formula, b: Formula, arena: Arena, queries: Seq<Vec<VarId>>)
    requires
        arena.wf(),
        queries_mean(base, a, arena, queries,
            missing_from(canonical_clauses(other, arena.vars@.len() as int), canonical_clauses(base, arena.vars@.len() as int))),
        clauses_mean(other, b, arena),
        other.var_remap@ == crate::clauses::remap_of(crate::clauses::formula_var_ids(&b, &arena)),
        other.vars@.len() == crate::clauses::formula_var_ids(&b, &arena).len() + 1,
        clauses_in_range(other),
    ensures
        queries_sound(base, a, b, arena, queries),
{
    let n = arena.vars@.len() as int;
    let ids = crate::clauses::formula_var_ids(&b, &arena);
    let p = |v: VarId| b.sub_var_ids@.contains(v);
    lemma_selected_ids_len(p, n);
    lemma_selected_ids_sorted(p, n);
    lemma_inverse_upto(ids, n, (ids.len() + 1) as int);
    let inv = inverse_upto(other.var_remap@, n, other.vars@.len() as int);
    assert forall|j: int| 1 <= j < inv.len() implies #[trigger] inv[j] == ids[j - 1] by {
        assert(ids[j - 1] < n);
    }
    let ca = canonical_clauses(base, n);
    let cb = canonical_clauses(other, n);
    let missing = missing_from(cb, ca);
    lemma_missing_from_sub(cb, ca);
    let cls = crate::clauses::clauses_view(other.clauses@);
    assert forall|k: int, value: spec_fn(crate::expr::ExprId) -> bool, assignment: spec_fn(VarId) -> bool|
        0 <= k < queries.len() && #[trigger] crate::meaning::evaluates(arena.ev(), value, assignment)
        && #[trigger] crate::clauses::satisfies(crate::clauses::clauses_view(base.clauses@) + units(queries[k]@),
            crate::clauses::formula_var_ids(&a, &arena), assignment)
        implies value(a.root_id) && !value(b.root_id) by {
        assert(value(a.root_id) && !arena_clause_true(missing[k], assignment));
        assert(cb.contains(missing[k]));
        let j = choose|j: int| 0 <= j < cb.len() && cb[j] == missing[k];
        assert(cb[j] == canonical_clause(inv, cls[j]));
        assert(cls[j] == other.clauses@[j]@);
        assert(lits_below(other.clauses@[j]@, other.vars@.len() as int));
        lemma_canonical_clause_true(inv, ids, cls[j], assignment);
        assert(!crate::clauses::clause_true(cls[j], ids, assignment));
        assert(!crate::clauses::satisfies(cls, ids, assignment));
    }
}

/// Queries that negate arena clauses in the literals of a representation of a formula mean that
/// those clauses are false (see `queries_mean`).
proof fn lemma_queries_mean(base: Clauses, formula: Formula, arena: Arena, queries: Seq<Vec<VarId>>, missing: Seq<Seq<VarId>>)
    requires
        arena.wf(),
        clauses_mean(base, formula, arena),
        base.var_remap@ == crate::clauses::remap_of(crate::clauses::formula_var_ids(&formula, &arena)),
        all_clauses_mapped(base.var_remap@, missing),
        lists_view(queries) == queries_for(base.var_remap@, missing),
    ensures
        queries_mean(base, formula, arena, queries, missing),
{
    let ids = crate::clauses::formula_var_ids(&formula, &arena);
    lemma_selected_ids_len(|v: VarId| formula.sub_var_ids@.contains(v), arena.vars@.len() as int);
    assert(queries.len() == missing.len()) by {
        assert(lists_view(queries).len() == queries.len());
    }
    assert forall|k: int, value: spec_fn(crate::expr::ExprId) -> bool, assignment: spec_fn(VarId) -> bool|
        0 <= k < queries.len() && #[trigger] crate::meaning::evaluates(arena.ev(), value, assignment)
        implies (#[trigger] crate::clauses::satisfies(crate::clauses::clauses_view(base.clauses@) + units(queries[k]@), ids, assignment)
            <==> value(formula.root_id) && !arena_clause_true(missing[k], assignment)) by {
        assert(lists_view(queries)[k] == queries[k]@);
        assert(queries[k]@ == negated_in(base.var_remap@, missing[k]));
        assert(all_mapped(base.var_remap@, missing[k]));
        law_query_meaning(crate::clauses::clauses_view(base.clauses@), ids, missing[k], assignment);
    }
}

} // verus!

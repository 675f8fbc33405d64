//! The arena: storage of all expressions and variables shared by feature-model formulas.

use std::collections::HashMap;
use vstd::prelude::*;
use crate::expr::{Expr, ExprId, ExprV, children, expr_hash, mix, mix_exec};
use crate::var::{Var, VarId, VarV};

verus! {

broadcast use vstd::std_specs::hash::group_hash_axioms;

/// Stores all expressions and variables of a set of feature-model formulas.
///
/// Expressions are stored in the order of their creation and never removed.
/// An inverse lookup (by hash) allows finding the canonical identifier of an expression,
/// which enables structural sharing: equal sub-expressions are represented only once.
/// The canonical identifier of an expression is the first identifier registered for its hash
/// whose expression equals the given one.
#[derive(Debug)]
pub struct Arena {
    /// All expressions, indexed by their identifiers.
    pub exprs: Vec<Expr>,
    /// Maps hashes of expressions to the identifiers registered for them, in registration order.
    pub exprs_inv: HashMap<u64, Vec<ExprId>>,
    /// All variables, indexed by their identifiers.
    pub vars: Vec<Var>,
    /// Maps hashes of variable names to the identifiers of the named variables with that hash.
    pub vars_inv: HashMap<u64, Vec<VarId>>,
    /// The number of the most recently added auxiliary variable.
    pub var_aux_id: u32,
    /// Auxiliary variables created by a running Tseitin transformation.
    pub new_vars: Option<Vec<VarId>>,
    /// Defining clauses created by a running Tseitin transformation.
    pub new_exprs: Option<Vec<ExprId>>,
}

/// The hash of a variable name.
pub open spec fn name_hash(name: Seq<char>) -> u64
    decreases name.len(),
{
    if name.len() == 0 {
        7
    } else {
        mix(name_hash(name.drop_last()), name.last() as u32 as u64)
    }
}

/// The first identifier in a bucket that refers to an expression equal to `e`, if any.
pub open spec fn first_match(bucket: Seq<ExprId>, exprs: Seq<ExprV>, e: ExprV) -> Option<ExprId>
    decreases bucket.len(),
{
    if bucket.len() == 0 {
        None
    } else if bucket[0] < exprs.len() && exprs[bucket[0] as int] == e {
        Some(bucket[0])
    } else {
        first_match(bucket.drop_first(), exprs, e)
    }
}

/// Whether an expression only refers to existing expressions and variables.
pub open spec fn expr_valid(e: ExprV, n_exprs: nat, n_vars: nat) -> bool {
    match e {
        ExprV::Var(v) => 0 <= v < n_vars,
        ExprV::Not(c) => c < n_exprs,
        ExprV::And(cs) => ids_valid(cs, n_exprs),
        ExprV::Or(cs) => ids_valid(cs, n_exprs),
    }
}

/// Whether all identifiers in a sequence refer to existing expressions.
pub open spec fn ids_valid(ids: Seq<ExprId>, n_exprs: nat) -> bool {
    forall|i: int| 0 <= i < ids.len() ==> #[trigger] ids[i] < n_exprs
}

/// Whether all variable identifiers in a sequence refer to existing variables (other than 0).
pub open spec fn var_ids_valid(ids: Seq<VarId>, n_vars: nat) -> bool {
    forall|i: int| 0 <= i < ids.len() ==> 0 < #[trigger] ids[i] < n_vars
}

/// Whether a sequence of expressions extends another one, leaving existing ones unchanged.
pub open spec fn extends<T>(new: Seq<T>, old: Seq<T>) -> bool {
    &&& new.len() >= old.len()
    &&& forall|i: int| 0 <= i < old.len() ==> #[trigger] new[i] == old[i]
}

impl Arena {
    /// The expressions of this arena.
    pub open spec fn ev(&self) -> Seq<ExprV> {
        self.exprs@.map_values(|e: Expr| e@)
    }

    /// The variables of this arena.
    pub open spec fn vv(&self) -> Seq<VarV> {
        self.vars@.map_values(|v: Var| v@)
    }

    /// Well-formedness of the publicly visible parts of this arena.
    pub open spec fn wf_exprs(&self) -> bool {
        &&& 1 <= self.exprs@.len() <= usize::MAX
        &&& self.vars@.len() >= 1
        &&& self.vars@[0]@ == VarV::Aux(0)
        &&& self.vars@.len() <= i32::MAX
        &&& forall|i: int| 0 <= i < self.exprs@.len() ==> expr_valid(#[trigger] self.exprs@[i]@, self.exprs@.len(), self.vars@.len())
        &&& forall|i: int, j: int| 0 <= i < self.vars@.len() && 0 <= j < self.vars@.len() && #[trigger] self.vars@[i]@ == #[trigger] self.vars@[j]@ ==> i == j
        &&& (self.new_vars matches Some(nv) ==> var_ids_valid(nv@, self.vars@.len()))
        &&& (self.new_exprs matches Some(ne) ==> ids_valid(ne@, self.exprs@.len()))
    }

    /// Well-formedness of the inverse lookups of this arena.
    pub closed spec fn wf_index(&self) -> bool {
        &&& forall|i: int| 0 <= i < self.exprs@.len() ==> {
            let h = expr_hash(#[trigger] self.exprs@[i]@);
            self.exprs_inv@.contains_key(h) && self.exprs_inv@[h]@.contains(i as ExprId)
        }
        &&& forall|h: u64| #[trigger] self.exprs_inv@.contains_key(h) ==> ids_valid(self.exprs_inv@[h]@, self.exprs@.len())
        &&& forall|i: int| 0 <= i < self.vars@.len() ==> match #[trigger] self.vars@[i]@ {
            VarV::Named(n) => self.vars_inv@.contains_key(name_hash(n)) && self.vars_inv@[name_hash(n)]@.contains(i as VarId),
            VarV::Aux(k) => k <= self.var_aux_id,
        }
        &&& forall|h: u64| #[trigger] self.vars_inv@.contains_key(h) ==>
            forall|j: int| 0 <= j < self.vars_inv@[h]@.len() ==> 0 <= #[trigger] self.vars_inv@[h]@[j] < self.vars@.len()
    }

    /// Well-formedness of this arena.
    pub open spec fn wf(&self) -> bool {
        self.wf_exprs() && self.wf_index()
    }

    /// The canonical identifier of an expression, if it is stored in this arena.
    pub closed spec fn lookup(&self, e: ExprV) -> Option<ExprId> {
        if self.exprs_inv@.contains_key(expr_hash(e)) {
            first_match(self.exprs_inv@[expr_hash(e)]@, self.ev(), e)
        } else {
            None
        }
    }
}


/// A match found by `first_match` is in the bucket and refers to an equal expression.
pub proof fn lemma_first_match_sound(bucket: Seq<ExprId>, exprs: Seq<ExprV>, e: ExprV)
    ensures
        first_match(bucket, exprs, e) matches Some(y) ==> bucket.contains(y) && y < exprs.len() && exprs[y as int] == e,
    decreases bucket.len(),
{
    if bucket.len() > 0 {
        lemma_first_match_sound(bucket.drop_first(), exprs, e);
        if let Some(y) = first_match(bucket.drop_first(), exprs, e) {
            if !(bucket[0] < exprs.len() && exprs[bucket[0] as int] == e) {
                let k = choose|k: int| 0 <= k < bucket.drop_first().len() && bucket.drop_first()[k] == y;
                assert(bucket[k + 1] == y);
            }
        }
    }
}

/// If a bucket holds an identifier of an equal expression, `first_match` finds some match.
pub proof fn lemma_first_match_complete(bucket: Seq<ExprId>, exprs: Seq<ExprV>, e: ExprV, x: ExprId)
    requires
        bucket.contains(x),
        x < exprs.len(),
        exprs[x as int] == e,
    ensures
        first_match(bucket, exprs, e) is Some,
    decreases bucket.len(),
{
    if !(bucket[0] < exprs.len() && exprs[bucket[0] as int] == e) {
        let k = choose|k: int| 0 <= k < bucket.len() && bucket[k] == x;
        assert(k != 0);
        assert(bucket.drop_first()[k - 1] == x);
        lemma_first_match_complete(bucket.drop_first(), exprs, e, x);
    }
}

/// Appending an identifier to a bucket only matters if no earlier identifier matched.
pub proof fn lemma_first_match_push(bucket: Seq<ExprId>, exprs: Seq<ExprV>, e: ExprV, x: ExprId)
    ensures
        first_match(bucket.push(x), exprs, e) == (if first_match(bucket, exprs, e) is Some {
            first_match(bucket, exprs, e)
        } else if x < exprs.len() && exprs[x as int] == e {
            Some(x)
        } else {
            None
        }),
    decreases bucket.len(),
{
    if bucket.len() > 0 {
        assert(bucket.push(x).drop_first() == bucket.drop_first().push(x));
        lemma_first_match_push(bucket.drop_first(), exprs, e, x);
    } else {
        assert(bucket.push(x).drop_first() == Seq::<ExprId>::empty());
        assert(bucket.push(x)[0] == x);
        assert(first_match(Seq::<ExprId>::empty(), exprs, e) is None);
    }
}

/// `first_match` only depends on the expressions that the bucket refers to.
pub proof fn lemma_first_match_frame(bucket: Seq<ExprId>, ex1: Seq<ExprV>, ex2: Seq<ExprV>, e: ExprV)
    requires
        forall|j: int| 0 <= j < bucket.len() ==> (#[trigger] bucket[j] < ex1.len()) == (bucket[j] < ex2.len()),
        forall|j: int| 0 <= j < bucket.len() && #[trigger] bucket[j] < ex1.len() ==> ex1[bucket[j] as int] == ex2[bucket[j] as int],
    ensures
        first_match(bucket, ex1, e) == first_match(bucket, ex2, e),
    decreases bucket.len(),
{
    if bucket.len() > 0 {
        assert forall|j: int| 0 <= j < bucket.drop_first().len() implies
            (#[trigger] bucket.drop_first()[j] < ex1.len()) == (bucket.drop_first()[j] < ex2.len()) by {
            assert(bucket.drop_first()[j] == bucket[j + 1]);
        }
        assert forall|j: int| 0 <= j < bucket.drop_first().len() && #[trigger] bucket.drop_first()[j] < ex1.len() implies
            ex1[bucket.drop_first()[j] as int] == ex2[bucket.drop_first()[j] as int] by {
            assert(bucket.drop_first()[j] == bucket[j + 1]);
        }
        assert(bucket[0] == bucket[0]);
        lemma_first_match_frame(bucket.drop_first(), ex1, ex2, e);
    }
}

/// Unfolds `first_match` on a suffix of a bucket.
proof fn lemma_first_match_skip(bucket: Seq<ExprId>, exprs: Seq<ExprV>, e: ExprV, i: int)
    requires
        0 <= i < bucket.len(),
    ensures
        first_match(bucket.skip(i), exprs, e) == (if bucket[i] < exprs.len() && exprs[bucket[i] as int] == e {
            Some(bucket[i])
        } else {
            first_match(bucket.skip(i + 1), exprs, e)
        }),
{
    assert(bucket.skip(i).drop_first() == bucket.skip(i + 1));
    assert(bucket.skip(i)[0] == bucket[i]);
}

impl Arena {
    /// Characterizes the canonical lookup of a well-formed arena.
    ///
    /// A found identifier refers to an equal expression, and nothing is found exactly when
    /// no stored expression is equal to the given one.
    pub proof fn lemma_lookup(&self, e: ExprV)
        requires
            self.wf(),
        ensures
            self.lookup(e) matches Some(y) ==> y < self.ev().len() && self.ev()[y as int] == e,
            self.lookup(e) is None <==> forall|i: int| 0 <= i < self.ev().len() ==> self.ev()[i] != e,
    {
        let h = expr_hash(e);
        if self.exprs_inv@.contains_key(h) {
            lemma_first_match_sound(self.exprs_inv@[h]@, self.ev(), e);
        }
        if exists|i: int| 0 <= i < self.ev().len() && self.ev()[i] == e {
            let i = choose|i: int| 0 <= i < self.ev().len() && self.ev()[i] == e;
            assert(self.exprs@[i]@ == e);
            assert((i as ExprId) as int == i);
            lemma_first_match_complete(self.exprs_inv@[h]@, self.ev(), e, i as ExprId);
        }
    }

    /// Creates a new arena.
    ///
    /// It holds the expression `Var(0)` and the auxiliary variable 0, which has no meaningful sign
    /// and is therefore never used in formulas.
    pub fn new() -> (r: Self)
        ensures
            r.wf(),
            r.ev() == seq![ExprV::Var(0)],
            r.vv() == seq![VarV::Aux(0)],
            r.var_aux_id == 0,
            r.new_vars is None,
            r.new_exprs is None,
            crate::tseitin::tseitin_hyp(r.ev()),
    {
        let mut exprs: Vec<Expr> = Vec::new();
        exprs.push(Expr::Var(0));
        let mut vars: Vec<Var> = Vec::new();
        vars.push(Var::Aux(0));
        let mut exprs_inv: HashMap<u64, Vec<ExprId>> = HashMap::new();
        let h = exprs[0].calc_hash();
        let mut bucket: Vec<ExprId> = Vec::new();
        bucket.push(0);
        exprs_inv.insert(h, bucket);
        let r = Arena {
            exprs,
            exprs_inv,
            vars,
            vars_inv: HashMap::new(),
            var_aux_id: 0,
            new_vars: None,
            new_exprs: None,
        };
        assert(r.exprs_inv@[h]@[0] == 0);
        assert(r.ev() =~= seq![ExprV::Var(0)]);
        assert(r.vv() =~= seq![VarV::Aux(0)]);
        proof {
            let rank = |x: ExprId| 0nat;
            assert(crate::meaning::ranked(r.ev(), rank, 1));
        }
        r
    }

    /// Looks up the canonical identifier of an expression in this arena.
    pub fn get_expr(&self, e: &Expr) -> (r: Option<ExprId>)
        requires
            self.wf(),
        ensures
            r == self.lookup(e@),
    {
        let h = e.calc_hash();
        match self.exprs_inv.get(&h) {
            None => None,
            Some(bucket) => {
                let ghost b = bucket@;
                assert(b.skip(0) == b);
                let mut i: usize = 0;
                while i < bucket.len()
                    invariant
                        b == bucket@,
                        i <= bucket.len(),
                        self.wf(),
                        self.exprs_inv@.contains_key(h),
                        self.exprs_inv@[h]@ == b,
                        h == expr_hash(e@),
                        first_match(b, self.ev(), e@) == first_match(b.skip(i as int), self.ev(), e@),
                    decreases bucket.len() - i,
                {
                    let id = bucket[i];
                    proof {
                        lemma_first_match_skip(b, self.ev(), e@, i as int);
                    }
                    if id < self.exprs.len() && self.exprs[id].equals(e) {
                        return Some(id);
                    }
                    i = i + 1;
                }
                assert(b.skip(i as int) == Seq::<ExprId>::empty());
                None
            },
        }
    }

    /// Adds a new expression to this arena, returning its new identifier.
    ///
    /// The expression becomes canonical for its value unless an equal expression is already stored.
    pub(crate) fn add_expr(&mut self, e: Expr) -> (id: ExprId)
        requires
            old(self).wf(),
            expr_valid(e@, old(self).exprs@.len(), old(self).vars@.len()),
        ensures
            final(self).wf(),
            id == old(self).exprs@.len(),
            final(self).ev() == old(self).ev().push(e@),
            final(self).vars == old(self).vars,
            final(self).var_aux_id == old(self).var_aux_id,
            final(self).new_vars == old(self).new_vars,
            final(self).new_exprs == old(self).new_exprs,
            forall|e2: ExprV| #[trigger] final(self).lookup(e2) == (if e2 == e@ && old(self).lookup(e2) is None {
                Some(id)
            } else {
                old(self).lookup(e2)
            }),
    {
        let ghost old_ev = self.ev();
        let ghost old_inv = self.exprs_inv@;
        let id = self.exprs.len();
        let h = e.calc_hash();
        let ghost ev_e = e@;
        self.exprs.push(e);
        let _ = self.exprs.len();
        let mut bucket = match self.exprs_inv.remove(&h) {
            Some(b) => b,
            None => Vec::new(),
        };
        let ghost old_bucket = bucket@;
        bucket.push(id);
        self.exprs_inv.insert(h, bucket);
        assert(self.ev() =~= old_ev.push(ev_e));
        assert forall|e2: ExprV| #[trigger] self.lookup(e2) == (if e2 == ev_e && old(self).lookup(e2) is None {
            Some(id)
        } else {
            old(self).lookup(e2)
        }) by {
            let h2 = expr_hash(e2);
            if h2 != h {
                if old_inv.contains_key(h2) {
                    lemma_first_match_frame(old_inv[h2]@, old_ev, self.ev(), e2);
                }
            } else {
                if old_inv.contains_key(h) {
                    assert(old_bucket == old_inv[h]@);
                    lemma_first_match_frame(old_bucket, old_ev, self.ev(), e2);
                } else {
                    assert(old_bucket == Seq::<ExprId>::empty());
                }
                lemma_first_match_push(old_bucket, self.ev(), e2, id);
                assert(self.exprs_inv@[h]@ == old_bucket.push(id));
                if first_match(old_bucket, old_ev, e2) is None && e2 == ev_e {
                    assert(self.ev()[id as int] == ev_e);
                }
            }
        }
        assert forall|i: int| 0 <= i < self.exprs@.len() implies
            expr_valid(#[trigger] self.exprs@[i]@, self.exprs@.len(), self.vars@.len()) by {
            if i < id {
                assert(self.exprs@[i]@ == old_ev[i]);
                assert(expr_valid(old(self).exprs@[i]@, old(self).exprs@.len(), old(self).vars@.len()));
            } else {
                assert(self.exprs@[i]@ == ev_e);
            }
        }
        assert forall|i: int| 0 <= i < self.exprs@.len() implies {
            let h3 = expr_hash(#[trigger] self.exprs@[i]@);
            self.exprs_inv@.contains_key(h3) && self.exprs_inv@[h3]@.contains(i as ExprId)
        } by {
            let h3 = expr_hash(self.exprs@[i]@);
            if i < id {
                assert(self.exprs@[i]@ == old(self).exprs@[i]@);
                assert(old_inv.contains_key(h3) && old_inv[h3]@.contains(i as ExprId));
                if h3 == h {
                    assert(self.exprs_inv@[h]@ == old_bucket.push(id));
                    let k = choose|k: int| 0 <= k < old_bucket.len() && old_bucket[k] == i as ExprId;
                    assert(self.exprs_inv@[h]@[k] == i as ExprId);
                }
            } else {
                assert(self.exprs_inv@[h]@ == old_bucket.push(id));
                assert(self.exprs_inv@[h]@[old_bucket.len() as int] == id);
            }
        }
        assert forall|h2: u64| #[trigger] self.exprs_inv@.contains_key(h2) implies ids_valid(self.exprs_inv@[h2]@, self.exprs@.len()) by {
            if h2 == h {
                assert(self.exprs_inv@[h]@ == old_bucket.push(id));
                if old_inv.contains_key(h) {
                    assert(ids_valid(old_inv[h]@, old_ev.len()));
                }
                assert forall|j: int| 0 <= j < self.exprs_inv@[h]@.len() implies #[trigger] self.exprs_inv@[h]@[j] < self.exprs@.len() by {
                    if j < old_bucket.len() {
                        assert(self.exprs_inv@[h]@[j] == old_bucket[j]);
                    }
                }
            } else {
                assert(old_inv.contains_key(h2));
                assert(ids_valid(old_inv[h2]@, old_ev.len()));
            }
        }
        id
    }

    /// Whether this arena has a named variable with the given name.
    pub open spec fn has_named(&self, name: Seq<char>) -> bool {
        exists|i: int| 0 <= i < self.vars@.len() && self.vars@[i]@ == VarV::Named(name)
    }

    /// Adds a new variable to this arena, returning its identifier.
    fn add_var(&mut self, var: Var) -> (id: VarId)
        requires
            old(self).wf(),
            old(self).vars@.len() < i32::MAX,
            forall|i: int| 0 <= i < old(self).vars@.len() ==> old(self).vars@[i]@ != var@,
            var@ matches VarV::Aux(k) ==> k <= old(self).var_aux_id,
        ensures
            final(self).wf(),
            id as int == old(self).vars@.len(),
            final(self).vv() == old(self).vv().push(var@),
            final(self).exprs == old(self).exprs,
            final(self).exprs_inv == old(self).exprs_inv,
            final(self).var_aux_id == old(self).var_aux_id,
            final(self).new_vars == old(self).new_vars,
            final(self).new_exprs == old(self).new_exprs,
    {
        let ghost old_vv = self.vv();
        let ghost old_inv = self.vars_inv@;
        let ghost var_v = var@;
        let id = self.vars.len();
        let id_signed: i32 = id as i32;
        match &var {
            Var::Named(name) => {
                let h = name_hash_exec(name.as_str());
                let mut bucket = match self.vars_inv.remove(&h) {
                    Some(b) => b,
                    None => Vec::new(),
                };
                let ghost old_bucket = bucket@;
                bucket.push(id_signed);
                self.vars_inv.insert(h, bucket);
                proof {
                    assert forall|h2: u64| #[trigger] self.vars_inv@.contains_key(h2) implies
                        forall|j: int| 0 <= j < self.vars_inv@[h2]@.len() ==> 0 <= #[trigger] self.vars_inv@[h2]@[j] < id + 1 by {
                        if h2 == h {
                            assert(self.vars_inv@[h]@ == old_bucket.push(id_signed));
                            assert forall|j: int| 0 <= j < self.vars_inv@[h2]@.len() implies 0 <= #[trigger] self.vars_inv@[h2]@[j] < id + 1 by {
                                if j < old_bucket.len() {
                                    assert(self.vars_inv@[h]@[j] == old_bucket[j]);
                                }
                            }
                        }
                    }
                    assert forall|i: int| 0 <= i < old_vv.len() implies match #[trigger] old(self).vars@[i]@ {
                        VarV::Named(n) => self.vars_inv@.contains_key(name_hash(n)) && self.vars_inv@[name_hash(n)]@.contains(i as VarId),
                        VarV::Aux(k) => k <= self.var_aux_id,
                    } by {
                        if let VarV::Named(n) = old(self).vars@[i]@ {
                            assert(old_inv.contains_key(name_hash(n)) && old_inv[name_hash(n)]@.contains(i as VarId));
                            if name_hash(n) == h {
                                let k = choose|k: int| 0 <= k < old_bucket.len() && old_bucket[k] == i as VarId;
                                assert(self.vars_inv@[h]@[k] == i as VarId);
                            }
                        }
                    }
                    assert(self.vars_inv@[h]@[old_bucket.len() as int] == id_signed);
                }
            },
            Var::Aux(_) => {},
        }
        self.vars.push(var);
        let _ = self.vars.len();
        assert(self.vv() =~= old_vv.push(var_v));
        assert forall|i: int| 0 <= i < self.exprs@.len() implies
            expr_valid(#[trigger] self.exprs@[i]@, self.exprs@.len(), self.vars@.len()) by {
            assert(expr_valid(old(self).exprs@[i]@, old(self).exprs@.len(), old(self).vars@.len()));
        }
        assert forall|i: int, j: int| 0 <= i < self.vars@.len() && 0 <= j < self.vars@.len() && #[trigger] self.vars@[i]@ == #[trigger] self.vars@[j]@ implies i == j by {
            if i < id && j < id {
                assert(old(self).vars@[i]@ == old(self).vars@[j]@);
            } else if i < id {
                assert(old(self).vars@[i]@ != var_v);
            } else if j < id {
                assert(old(self).vars@[j]@ != var_v);
            }
        }
        assert forall|i: int| 0 <= i < self.vars@.len() implies match #[trigger] self.vars@[i]@ {
            VarV::Named(n) => self.vars_inv@.contains_key(name_hash(n)) && self.vars_inv@[name_hash(n)]@.contains(i as VarId),
            VarV::Aux(k) => k <= self.var_aux_id,
        } by {
            if i < id {
                assert(self.vars@[i] == old(self).vars@[i]);
            }
        }
        if let Some(nv) = &self.new_vars {
            assert(var_ids_valid(nv@, self.vars@.len()));
        }
        id_signed
    }

    /// Adds a new auxiliary variable to this arena, returning its identifier.
    pub fn add_var_aux(&mut self) -> (id: VarId)
        requires
            old(self).wf(),
            old(self).vars@.len() < i32::MAX,
            old(self).var_aux_id < u32::MAX,
        ensures
            final(self).wf(),
            id as int == old(self).vars@.len(),
            final(self).var_aux_id == old(self).var_aux_id + 1,
            final(self).vv() == old(self).vv().push(VarV::Aux(final(self).var_aux_id)),
            final(self).exprs == old(self).exprs,
            final(self).new_vars == old(self).new_vars,
            final(self).new_exprs == old(self).new_exprs,
            forall|e: ExprV| #[trigger] final(self).lookup(e) == old(self).lookup(e),
    {
        self.var_aux_id = self.var_aux_id + 1;
        let ghost aux = self.var_aux_id;
        assert forall|i: int| 0 <= i < self.vars@.len() implies match #[trigger] self.vars@[i]@ {
            VarV::Named(n) => self.vars_inv@.contains_key(name_hash(n)) && self.vars_inv@[name_hash(n)]@.contains(i as VarId),
            VarV::Aux(k) => k <= self.var_aux_id,
        } by {
            assert(match old(self).vars@[i]@ {
                VarV::Named(n) => old(self).vars_inv@.contains_key(name_hash(n)) && old(self).vars_inv@[name_hash(n)]@.contains(i as VarId),
                VarV::Aux(k) => k <= old(self).var_aux_id,
            });
        }
        assert forall|i: int| 0 <= i < self.vars@.len() implies self.vars@[i]@ != VarV::Aux(aux) by {
            assert(match old(self).vars@[i]@ {
                VarV::Named(n) => true,
                VarV::Aux(k) => k <= old(self).var_aux_id,
            });
        }
        let id = self.add_var(Var::Aux(self.var_aux_id));
        id
    }

    /// Adds a new named variable to this arena, returning its identifier.
    fn add_var_named(&mut self, name: String) -> (id: VarId)
        requires
            old(self).wf(),
            old(self).vars@.len() < i32::MAX,
            !old(self).has_named(name@),
        ensures
            final(self).wf(),
            id as int == old(self).vars@.len(),
            final(self).vv() == old(self).vv().push(VarV::Named(name@)),
            final(self).exprs == old(self).exprs,
            final(self).exprs_inv == old(self).exprs_inv,
            final(self).var_aux_id == old(self).var_aux_id,
            final(self).new_vars == old(self).new_vars,
            final(self).new_exprs == old(self).new_exprs,
    {
        self.add_var(Var::Named(name))
    }

    /// Looks up the identifier of the named variable with the given name, if any.
    pub fn get_var_named(&self, name: String) -> (r: Option<VarId>)
        requires
            self.wf(),
        ensures
            r matches Some(v) ==> 0 <= v < self.vars@.len() && self.vars@[v as int]@ == VarV::Named(name@),
            r is None <==> !self.has_named(name@),
    {
        let h = name_hash_exec(name.as_str());
        match self.vars_inv.get(&h) {
            None => {
                proof {
                    if self.has_named(name@) {
                        let i = choose|i: int| 0 <= i < self.vars@.len() && self.vars@[i]@ == VarV::Named(name@);
                        assert(match self.vars@[i]@ {
                            VarV::Named(n) => self.vars_inv@.contains_key(name_hash(n)),
                            VarV::Aux(k) => true,
                        });
                    }
                }
                None
            },
            Some(bucket) => {
                let mut i: usize = 0;
                while i < bucket.len()
                    invariant
                        i <= bucket.len(),
                        self.wf(),
                        self.vars_inv@.contains_key(h),
                        self.vars_inv@[h]@ == bucket@,
                        h == name_hash(name@),
                        forall|j: int| 0 <= j < i ==> self.vars@[bucket@[j] as int]@ != VarV::Named(name@),
                    decreases bucket.len() - i,
                {
                    let v = bucket[i];
                    assert(0 <= self.vars_inv@[h]@[i as int] < self.vars@.len());
                    if self.vars[v as usize].has_name(name.as_str()) {
                        return Some(v);
                    }
                    i = i + 1;
                }
                proof {
                    if self.has_named(name@) {
                        let k = choose|k: int| 0 <= k < self.vars@.len() && self.vars@[k]@ == VarV::Named(name@);
                        assert(match self.vars@[k]@ {
                            VarV::Named(n) => self.vars_inv@[name_hash(n)]@.contains(k as VarId),
                            VarV::Aux(_) => true,
                        });
                        let j = choose|j: int| 0 <= j < bucket@.len() && bucket@[j] == k as VarId;
                        assert(self.vars@[bucket@[j] as int]@ != VarV::Named(name@));
                    }
                }
                None
            },
        }
    }
}

/// Computes the hash of a variable name.
pub fn name_hash_exec(name: &str) -> (h: u64)
    ensures
        h == name_hash(name@),
{
    let cs = crate::text::chars_of(name);
    let mut h: u64 = 7;
    let mut i: usize = 0;
    while i < cs.len()
        invariant
            i <= cs.len(),
            cs@ == name@,
            h == name_hash(cs@.take(i as int)),
        decreases cs.len() - i,
    {
        assert(cs@.take(i + 1).drop_last() == cs@.take(i as int));
        h = mix_exec(h, cs[i] as u32 as u64);
        i = i + 1;
    }
    assert(cs@.take(cs.len() as int) == cs@);
    h
}


/// A sort key: a triple of numbers, ordered lexicographically.
pub type Key = (usize, usize, usize);

/// Lexicographic order on sort keys (non-strict).
pub open spec fn key_le(a: Key, b: Key) -> bool {
    a.0 < b.0 || (a.0 == b.0 && (a.1 < b.1 || (a.1 == b.1 && a.2 <= b.2)))
}

/// Lexicographic order on sort keys (strict).
pub open spec fn key_lt(a: Key, b: Key) -> bool {
    key_le(a, b) && a != b
}

/// Sorts a vector of sort keys in ascending lexicographic order.
///
/// Calls `slice::sort_unstable`, which the standard library documents as sorting the slice
/// (as a permutation of its elements) in ascending order; tuples of integers are ordered lexicographically.
#[verifier::external_body]
fn sort_keys(v: &mut Vec<Key>)
    ensures
        final(v)@.to_multiset() == old(v)@.to_multiset(),
        forall|i: int, j: int| 0 <= i < j < final(v)@.len() ==> key_le(#[trigger] final(v)@[i], #[trigger] final(v)@[j]),
{
    v.sort_unstable();
}

/// The sort key of a child: a negation `Not(g)` is placed right after `g`, other children by identifier.
pub open spec fn child_key(exprs: Seq<ExprV>, c: ExprId) -> Key {
    match exprs[c as int] {
        ExprV::Not(g) => (g, 1, c),
        _ => (c, 0, c),
    }
}

/// Whether `ds` lists the children `cs` sorted by their keys, without duplicates.
pub open spec fn canonical_children(exprs: Seq<ExprV>, cs: Seq<ExprId>, ds: Seq<ExprId>) -> bool {
    &&& forall|i: int, j: int| 0 <= i < j < ds.len() ==> key_lt(child_key(exprs, #[trigger] ds[i]), child_key(exprs, #[trigger] ds[j]))
    &&& forall|x: ExprId| #[trigger] ds.contains(x) <==> cs.contains(x)
}

/// Whether some child in a sorted child list is directly followed by its own negation.
pub open spec fn has_adjacent_complement(exprs: Seq<ExprV>, ds: Seq<ExprId>) -> bool {
    exists|i: int| 0 <= i < ds.len() - 1 && !(exprs[#[trigger] ds[i] as int] is Not) && exprs[ds[i + 1] as int] == ExprV::Not(ds[i])
}

/// The simplification of a conjunction (or disjunction) with sorted, deduplicated children.
///
/// A single child replaces its parent, and a child next to its own negation makes a
/// conjunction a contradiction `Or()` (a disjunction a tautology `And()`).
pub open spec fn simp_children(exprs: Seq<ExprV>, ds: Seq<ExprId>, is_and: bool) -> ExprV {
    if ds.len() == 1 {
        exprs[ds[0] as int]
    } else if has_adjacent_complement(exprs, ds) {
        if is_and { ExprV::Or(Seq::empty()) } else { ExprV::And(Seq::empty()) }
    } else {
        if is_and { ExprV::And(ds) } else { ExprV::Or(ds) }
    }
}

/// Whether `out` is the simplification of the expression `e` in the context of `exprs`.
///
/// Children are sorted and deduplicated (equality up to commutativity and idempotency),
/// unary conjunctions and disjunctions are replaced by their child,
/// double negations are removed, and obvious contradictions and tautologies are detected.
pub open spec fn simplified(exprs: Seq<ExprV>, e: ExprV, out: ExprV) -> bool {
    match e {
        ExprV::Var(_) => out == e,
        ExprV::Not(c) => match exprs[c as int] {
            ExprV::Not(g) => out == exprs[g as int],
            _ => out == e,
        },
        ExprV::And(cs) => exists|ds: Seq<ExprId>| #[trigger] canonical_children(exprs, cs, ds) && out == simp_children(exprs, ds, true),
        ExprV::Or(cs) => exists|ds: Seq<ExprId>| #[trigger] canonical_children(exprs, cs, ds) && out == simp_children(exprs, ds, false),
    }
}

/// The children contributed by one child when flattening.
pub open spec fn flatten_piece(exprs: Seq<ExprV>, c: ExprId, is_and: bool) -> Seq<ExprId> {
    match exprs[c as int] {
        ExprV::And(gs) => if is_and { gs } else { seq![c] },
        ExprV::Or(gs) => if is_and { seq![c] } else { gs },
        _ => seq![c],
    }
}

/// The children of a conjunction (or disjunction) after splicing in children of the same kind.
pub open spec fn flatten_ids(exprs: Seq<ExprV>, cs: Seq<ExprId>, is_and: bool) -> Seq<ExprId>
    decreases cs.len(),
{
    if cs.len() == 0 {
        Seq::empty()
    } else {
        flatten_ids(exprs, cs.drop_last(), is_and) + flatten_piece(exprs, cs.last(), is_and)
    }
}

/// The flattening of an expression: `And(And(a), Or(b, c))` becomes `And(a, Or(b, c))`.
pub open spec fn flattened(exprs: Seq<ExprV>, e: ExprV) -> ExprV {
    match e {
        ExprV::And(cs) => ExprV::And(flatten_ids(exprs, cs, true)),
        ExprV::Or(cs) => ExprV::Or(flatten_ids(exprs, cs, false)),
        _ => e,
    }
}

impl Arena {
    /// Returns the sort keys of the given children, sorted.
    fn sorted_keys(&self, cs: &Vec<ExprId>) -> (keys: Vec<Key>)
        requires
            self.wf(),
            ids_valid(cs@, self.exprs@.len()),
        ensures
            forall|t: int| 0 <= t < keys@.len() ==> #[trigger] keys@[t] == child_key(self.ev(), keys@[t].2) && cs@.contains(keys@[t].2),
            forall|x: ExprId| cs@.contains(x) ==> exists|t: int| 0 <= t < keys@.len() && #[trigger] keys@[t].2 == x,
            forall|a: int, b: int| 0 <= a < b < keys@.len() ==> key_le(#[trigger] keys@[a], #[trigger] keys@[b]),
    {
        let ghost ev = self.ev();
        let mut keys: Vec<Key> = Vec::new();
        let mut i: usize = 0;
        while i < cs.len()
            invariant
                self.wf(),
                ev == self.ev(),
                ids_valid(cs@, self.exprs@.len()),
                i <= cs.len(),
                keys@.len() == i,
                forall|j: int| 0 <= j < i ==> #[trigger] keys@[j] == child_key(ev, cs@[j]),
            decreases cs.len() - i,
        {
            let c = cs[i];
            let k: Key = match &self.exprs[c] {
                Expr::Not(g) => (*g, 1, c),
                _ => (c, 0, c),
            };
            keys.push(k);
            i = i + 1;
        }
        let ghost unsorted = keys@;
        sort_keys(&mut keys);
        proof {
            broadcast use vstd::seq_lib::group_to_multiset_ensures;
            assert forall|t: int| 0 <= t < keys@.len() implies
                #[trigger] keys@[t] == child_key(ev, keys@[t].2) && cs@.contains(keys@[t].2) by {
                assert(keys@.to_multiset().count(keys@[t]) > 0);
                assert(unsorted.to_multiset().count(keys@[t]) > 0);
                assert(unsorted.contains(keys@[t]));
                let u = choose|u: int| 0 <= u < unsorted.len() && unsorted[u] == keys@[t];
                assert(unsorted[u] == child_key(ev, cs@[u]));
            }
            assert forall|x: ExprId| cs@.contains(x) implies exists|t: int| 0 <= t < keys@.len() && #[trigger] keys@[t].2 == x by {
                let u = choose|u: int| 0 <= u < cs@.len() && cs@[u] == x;
                assert(unsorted[u] == child_key(ev, x));
                assert(unsorted.to_multiset().count(unsorted[u]) > 0);
                assert(keys@.to_multiset().count(unsorted[u]) > 0);
                let t = choose|t: int| 0 <= t < keys@.len() && keys@[t] == unsorted[u];
                assert(keys@[t].2 == x);
            }
        }
        keys
    }

    /// Returns the given children sorted by their keys, without duplicates.
    fn canonical_children_exec(&self, cs: &Vec<ExprId>) -> (ds: Vec<ExprId>)
        requires
            self.wf(),
            ids_valid(cs@, self.exprs@.len()),
        ensures
            canonical_children(self.ev(), cs@, ds@),
            ids_valid(ds@, self.exprs@.len()),
    {
        let ghost ev = self.ev();
        let keys = self.sorted_keys(cs);
        let mut ds: Vec<ExprId> = Vec::new();
        let mut j: usize = 0;
        while j < keys.len()
            invariant
                self.wf(),
                ev == self.ev(),
                j <= keys@.len(),
                forall|t: int| 0 <= t < keys@.len() ==> #[trigger] keys@[t] == child_key(ev, keys@[t].2) && cs@.contains(keys@[t].2),
                forall|a: int, b: int| 0 <= a < b < keys@.len() ==> key_le(#[trigger] keys@[a], #[trigger] keys@[b]),
                forall|a: int, b: int| 0 <= a < b < ds@.len() ==> key_lt(child_key(ev, #[trigger] ds@[a]), child_key(ev, #[trigger] ds@[b])),
                forall|x: ExprId| #[trigger] ds@.contains(x) <==> exists|t: int| 0 <= t < j && #[trigger] keys@[t].2 == x,
                j > 0 ==> ds@.len() > 0 && ds@.last() == keys@[j - 1].2,
                j == 0 ==> ds@.len() == 0,
            decreases keys@.len() - j,
        {
            let k = keys[j];
            if ds.len() == 0 || ds[ds.len() - 1] != k.2 {
                proof {
                    if ds@.len() > 0 {
                        let last = ds@.last();
                        assert(key_le(keys@[j - 1], keys@[j as int]));
                        assert(keys@[j - 1] == child_key(ev, last));
                        assert(keys@[j as int] == child_key(ev, k.2));
                        assert(child_key(ev, last) != child_key(ev, k.2));
                        assert forall|a: int| 0 <= a < ds@.len() implies key_lt(child_key(ev, #[trigger] ds@[a]), child_key(ev, k.2)) by {
                            if a < ds@.len() - 1 {
                                assert(key_lt(child_key(ev, ds@[a]), child_key(ev, ds@[ds@.len() - 1])));
                            }
                        }
                    }
                }
                let ghost old_ds = ds@;
                ds.push(k.2);
                proof {
                    assert forall|a: int, b: int| 0 <= a < b < ds@.len() implies key_lt(child_key(ev, #[trigger] ds@[a]), child_key(ev, #[trigger] ds@[b])) by {
                        if b < old_ds.len() {
                            assert(ds@[a] == old_ds[a] && ds@[b] == old_ds[b]);
                        }
                    }
                    assert forall|x: ExprId| #[trigger] ds@.contains(x) <==> exists|t: int| 0 <= t < j + 1 && #[trigger] keys@[t].2 == x by {
                        if ds@.contains(x) {
                            let a = choose|a: int| 0 <= a < ds@.len() && ds@[a] == x;
                            if a < old_ds.len() {
                                assert(old_ds.contains(x));
                            } else {
                                assert(keys@[j as int].2 == x);
                            }
                        }
                        if exists|t: int| 0 <= t < j + 1 && #[trigger] keys@[t].2 == x {
                            let t = choose|t: int| 0 <= t < j + 1 && #[trigger] keys@[t].2 == x;
                            if t < j {
                                assert(old_ds.contains(x));
                                let a = choose|a: int| 0 <= a < old_ds.len() && old_ds[a] == x;
                                assert(ds@[a] == x);
                            } else {
                                assert(ds@[old_ds.len() as int] == x);
                            }
                        }
                    }
                }
            } else {
                proof {
                    assert forall|x: ExprId| #[trigger] ds@.contains(x) <==> exists|t: int| 0 <= t < j + 1 && #[trigger] keys@[t].2 == x by {
                        if exists|t: int| 0 <= t < j + 1 && #[trigger] keys@[t].2 == x {
                            let t = choose|t: int| 0 <= t < j + 1 && #[trigger] keys@[t].2 == x;
                            if t == j {
                                assert(ds@[ds@.len() - 1] == x);
                            }
                        }
                    }
                }
            }
            j = j + 1;
        }
        proof {
            assert forall|x: ExprId| #[trigger] ds@.contains(x) <==> cs@.contains(x) by {
                if ds@.contains(x) {
                    let t = choose|t: int| 0 <= t < keys@.len() && #[trigger] keys@[t].2 == x;
                }
            }
            assert(canonical_children(ev, cs@, ds@));
            assert forall|a: int| 0 <= a < ds@.len() implies #[trigger] ds@[a] < self.exprs@.len() by {
                assert(ds@.contains(ds@[a]));
                assert(cs@.contains(ds@[a]));
            }
        }
        proof {
            assert forall|x: ExprId| #[trigger] ds@.contains(x) <==> cs@.contains(x) by {
                if ds@.contains(x) {
                    let t = choose|t: int| 0 <= t < keys@.len() && #[trigger] keys@[t].2 == x;
                }
            }
            assert(canonical_children(ev, cs@, ds@));
            assert forall|a: int| 0 <= a < ds@.len() implies #[trigger] ds@[a] < self.exprs@.len() by {
                assert(ds@.contains(ds@[a]));
                assert(cs@.contains(ds@[a]));
            }
        }
        ds
    }

    /// Returns whether some child in a sorted child list is directly followed by its own negation.
    fn has_adjacent_complement_exec(&self, ds: &Vec<ExprId>) -> (r: bool)
        requires
            self.wf(),
            ids_valid(ds@, self.exprs@.len()),
        ensures
            r == has_adjacent_complement(self.ev(), ds@),
    {
        let ghost ev = self.ev();
        if ds.len() < 2 {
            return false;
        }
        let mut complement = false;
        let mut i: usize = 0;
        while i < ds.len() - 1
            invariant
                self.wf(),
                ev == self.ev(),
                ds.len() >= 2,
                ids_valid(ds@, self.exprs@.len()),
                complement == exists|a: int| 0 <= a < i && !(ev[#[trigger] ds@[a] as int] is Not) && ev[ds@[a + 1] as int] == ExprV::Not(ds@[a]),
                i <= ds.len() - 1,
            decreases ds.len() - i,
        {
            let a = ds[i];
            let b = ds[i + 1];
            let found = match (&self.exprs[a], &self.exprs[b]) {
                (Expr::Not(_), _) => false,
                (_, Expr::Not(g)) => *g == a,
                _ => false,
            };
            proof {
                assert(ds@[i as int] == a);
                assert(found == (!(ev[ds@[i as int] as int] is Not) && ev[ds@[i + 1] as int] == ExprV::Not(ds@[i as int])));
            }
            complement = complement || found;
            i = i + 1;
        }
        complement
    }

    /// Sorts and deduplicates children and simplifies the resulting conjunction or disjunction.
    fn simp_children_exec(&self, cs: &Vec<ExprId>, is_and: bool) -> (r: Expr)
        requires
            self.wf(),
            ids_valid(cs@, self.exprs@.len()),
        ensures
            exists|ds: Seq<ExprId>| #[trigger] canonical_children(self.ev(), cs@, ds) && r@ == simp_children(self.ev(), ds, is_and),
            expr_valid(r@, self.exprs@.len(), self.vars@.len()),
    {
        let ds = self.canonical_children_exec(cs);
        if ds.len() == 1 {
            let r = self.exprs[ds[0]].clone();
            proof {
                assert(expr_valid(self.exprs@[ds@[0] as int]@, self.exprs@.len(), self.vars@.len()));
            }
            return r;
        }
        let complement = self.has_adjacent_complement_exec(&ds);
        if complement {
            if is_and { Expr::Or(Vec::new()) } else { Expr::And(Vec::new()) }
        } else {
            if is_and { Expr::And(ds) } else { Expr::Or(ds) }
        }
    }

    /// Simplifies an expression to an equivalent one (see `simplified`).
    pub fn simp_expr(&self, expr: &mut Expr)
        requires
            self.wf(),
            expr_valid(old(expr)@, self.exprs@.len(), self.vars@.len()),
        ensures
            simplified(self.ev(), old(expr)@, final(expr)@),
            expr_valid(final(expr)@, self.exprs@.len(), self.vars@.len()),
    {
        let new_expr: Option<Expr> = match &*expr {
            Expr::Var(_) => None,
            Expr::Not(c) => match &self.exprs[*c] {
                Expr::Not(g) => {
                    proof {
                        assert(expr_valid(self.exprs@[*c as int]@, self.exprs@.len(), self.vars@.len()));
                        assert(expr_valid(self.exprs@[*g as int]@, self.exprs@.len(), self.vars@.len()));
                    }
                    Some(self.exprs[*g].clone())
                },
                _ => None,
            },
            Expr::And(cs) => Some(self.simp_children_exec(cs, true)),
            Expr::Or(cs) => Some(self.simp_children_exec(cs, false)),
        };
        if let Some(e) = new_expr {
            *expr = e;
        }
    }

    /// Flattens children of a conjunction or disjunction of the same kind into their parent.
    pub fn flatten_expr(&self, expr: &mut Expr)
        requires
            self.wf(),
            expr_valid(old(expr)@, self.exprs@.len(), self.vars@.len()),
        ensures
            final(expr)@ == flattened(self.ev(), old(expr)@),
            expr_valid(final(expr)@, self.exprs@.len(), self.vars@.len()),
    {
        let flat: Option<Expr> = match &*expr {
            Expr::And(cs) => Some(Expr::And(self.flatten_ids_exec(cs, true))),
            Expr::Or(cs) => Some(Expr::Or(self.flatten_ids_exec(cs, false))),
            _ => None,
        };
        if let Some(e) = flat {
            *expr = e;
        }
    }

    fn flatten_ids_exec(&self, cs: &Vec<ExprId>, is_and: bool) -> (r: Vec<ExprId>)
        requires
            self.wf(),
            ids_valid(cs@, self.exprs@.len()),
        ensures
            r@ == flatten_ids(self.ev(), cs@, is_and),
            ids_valid(r@, self.exprs@.len()),
    {
        let ghost ev = self.ev();
        let mut r: Vec<ExprId> = Vec::new();
        let mut i: usize = 0;
        while i < cs.len()
            invariant
                self.wf(),
                ev == self.ev(),
                ids_valid(cs@, self.exprs@.len()),
                i <= cs.len(),
                r@ == flatten_ids(ev, cs@.take(i as int), is_and),
                ids_valid(r@, self.exprs@.len()),
            decreases cs.len() - i,
        {
            let c = cs[i];
            let ghost before = r@;
            proof {
                assert(cs@.take(i + 1).drop_last() == cs@.take(i as int));
                assert(expr_valid(self.exprs@[c as int]@, self.exprs@.len(), self.vars@.len()));
            }
            match &self.exprs[c] {
                Expr::And(gs) if is_and => {
                    crate::text::push_ids(&mut r, gs);
                },
                Expr::Or(gs) if !is_and => {
                    crate::text::push_ids(&mut r, gs);
                },
                _ => {
                    r.push(c);
                },
            }
            proof {
                assert(r@ == before + flatten_piece(ev, c, is_and));
                assert forall|a: int| 0 <= a < r@.len() implies #[trigger] r@[a] < self.exprs@.len() by {
                    if a >= before.len() {
                        assert(r@[a] == flatten_piece(ev, c, is_and)[a - before.len()]);
                    }
                }
            }
            i = i + 1;
        }
        assert(cs@.take(cs.len() as int) == cs@);
        r
    }
}


/// The simplification of a negation only depends on the expressions it refers to.
pub proof fn lemma_simplified_not_extends(ev1: Seq<ExprV>, ev2: Seq<ExprV>, c: ExprId, out: ExprV, n_vars: nat)
    requires
        extends(ev2, ev1),
        c < ev1.len(),
        expr_valid(ev1[c as int], ev1.len(), n_vars),
    ensures
        simplified(ev1, ExprV::Not(c), out) == simplified(ev2, ExprV::Not(c), out),
{
    assert(ev2[c as int] == ev1[c as int]);
    if let ExprV::Not(g) = ev1[c as int] {
        assert(ev2[g as int] == ev1[g as int]);
    }
}

impl Arena {
    /// The canonical identifier for the expression stored at `c`.
    pub open spec fn canon_id(&self, c: ExprId) -> ExprId {
        self.lookup(self.ev()[c as int])->0
    }

    /// Proves that the canonical identifier of a stored expression exists and refers to an equal expression.
    pub proof fn lemma_canon_id(&self, c: ExprId)
        requires
            self.wf(),
            c < self.ev().len(),
        ensures
            self.lookup(self.ev()[c as int]) is Some,
            self.canon_id(c) < self.ev().len(),
            self.ev()[self.canon_id(c) as int] == self.ev()[c as int],
    {
        self.lemma_lookup(self.ev()[c as int]);
    }

    /// Adds or looks up an expression, returning its identifier.
    ///
    /// This is the preferred way to obtain an identifier, as it ensures structural sharing:
    /// the expression is simplified (see `simplified`) and only added if no equal expression is stored yet.
    pub fn expr(&mut self, e: Expr) -> (id: ExprId)
        requires
            old(self).wf(),
            expr_valid(e@, old(self).exprs@.len(), old(self).vars@.len()),
        ensures
            final(self).wf(),
            extends(final(self).ev(), old(self).ev()),
            final(self).ev().len() <= old(self).ev().len() + 1,
            final(self).vars == old(self).vars,
            final(self).var_aux_id == old(self).var_aux_id,
            final(self).new_vars == old(self).new_vars,
            final(self).new_exprs == old(self).new_exprs,
            id < final(self).ev().len(),
            simplified(old(self).ev(), e@, final(self).ev()[id as int]),
            final(self).ev().len() > old(self).ev().len() ==> id == old(self).ev().len(),
            crate::meaning::new_below(final(self).ev(), old(self).ev().len(), old(self).vars@.len()),
            final(self).lookup(final(self).ev()[id as int]) == Some(id),
            crate::tseitin::stored(final(self), old(self), e@, id),
            crate::tseitin::tseitin_hyp(old(self).ev()) ==> crate::tseitin::tseitin_hyp(final(self).ev()),
            forall|e2: ExprV| #[trigger] final(self).lookup(e2) == old(self).lookup(e2)
                || (old(self).lookup(e2) is None && e2 == final(self).ev()[id as int]),
            expr_stored(*final(self), *old(self), e@, id),
    {
        let ghost e0 = e@;
        let mut e = e;
        self.simp_expr(&mut e);
        match self.get_expr(&e) {
            Some(id) => {
                proof {
                    self.lemma_lookup(e@);
                    crate::tseitin::lemma_stored_intro(self, old(self), e0, id);
                    crate::tseitin::lemma_stored_hyp(self, old(self), e0, id);
                    assert forall|out: ExprV| #[trigger] simplified(old(self).ev(), e0, out) && old(self).lookup(out) is Some
                        implies id == old(self).lookup(out)->0 && *self == *old(self) by {
                        lemma_simplified_unique(old(self).ev(), e0, out, e@);
                    }
                }
                id
            },
            None => {
                let ghost s = e@;
                proof {
                    self.lemma_lookup(e@);
                }
                let id = self.add_expr(e);
                assert(self.ev()[id as int] == s);
                assert(self.ev() =~= old(self).ev().push(s));
                proof {
                    assert forall|out: ExprV| #[trigger] simplified(old(self).ev(), e0, out) && old(self).lookup(out) is Some
                        implies id == old(self).lookup(out)->0 && *self == *old(self) by {
                        lemma_simplified_unique(old(self).ev(), e0, out, s);
                    }
                    crate::tseitin::lemma_stored_intro(self, old(self), e0, id);
                    crate::tseitin::lemma_stored_hyp(self, old(self), e0, id);
                }
                id
            },
        }
    }

    /// Returns expressions that negate the given expressions (each created or looked up with `expr`).
    pub fn negate_exprs(&mut self, ids: Vec<ExprId>) -> (r: Vec<ExprId>)
        requires
            old(self).wf(),
            ids_valid(ids@, old(self).exprs@.len()),
        ensures
            final(self).wf(),
            extends(final(self).ev(), old(self).ev()),
            final(self).vars == old(self).vars,
            final(self).var_aux_id == old(self).var_aux_id,
            final(self).new_vars == old(self).new_vars,
            final(self).new_exprs == old(self).new_exprs,
            r@.len() == ids@.len(),
            ids_valid(r@, final(self).exprs@.len()),
            forall|i: int| 0 <= i < r@.len() ==> simplified(old(self).ev(), ExprV::Not(ids@[i]), final(self).ev()[#[trigger] r@[i] as int]),
            crate::meaning::new_below(final(self).ev(), old(self).ev().len(), old(self).vars@.len()),
            crate::tseitin::tseitin_hyp(old(self).ev()) ==> crate::tseitin::tseitin_hyp(final(self).ev()),
            forall|i: int| old(self).ev().len() <= i < final(self).ev().len() ==> !(#[trigger] final(self).ev()[i] is Var),
    {
        let mut r: Vec<ExprId> = Vec::new();
        let mut i: usize = 0;
        while i < ids.len()
            invariant
                self.wf(),
                old(self).wf(),
                extends(self.ev(), old(self).ev()),
                self.vars == old(self).vars,
                self.var_aux_id == old(self).var_aux_id,
                self.new_vars == old(self).new_vars,
                self.new_exprs == old(self).new_exprs,
                ids_valid(ids@, old(self).exprs@.len()),
                i <= ids.len(),
                r@.len() == i,
                ids_valid(r@, self.exprs@.len()),
                forall|j: int| 0 <= j < i ==> simplified(old(self).ev(), ExprV::Not(ids@[j]), self.ev()[#[trigger] r@[j] as int]),
                crate::meaning::new_below(self.ev(), old(self).ev().len(), old(self).vars@.len()),
                crate::tseitin::tseitin_hyp(old(self).ev()) ==> crate::tseitin::tseitin_hyp(self.ev()),
                forall|k: int| old(self).ev().len() <= k < self.ev().len() ==> !(#[trigger] self.ev()[k] is Var),
            decreases ids.len() - i,
        {
            let c = ids[i];
            let ghost before = self.ev();
            let ghost before_arena = *self;
            let n = self.expr(Expr::Not(c));
            proof {
                crate::tseitin::lemma_stored_keeps(self, &before_arena, ExprV::Not(c), n);
                assert forall|k: int| old(self).ev().len() <= k < self.ev().len() implies !(#[trigger] self.ev()[k] is Var) by {
                    if k < before.len() {
                        assert(self.ev()[k] == before[k]);
                    }
                }
                assert(expr_valid(old(self).exprs@[c as int]@, old(self).exprs@.len(), old(self).vars@.len()));
                lemma_simplified_not_extends(old(self).ev(), before, c, self.ev()[n as int], old(self).vars@.len());
                assert forall|j: int| 0 <= j < i implies simplified(old(self).ev(), ExprV::Not(ids@[j]), self.ev()[#[trigger] r@[j] as int]) by {
                    assert(self.ev()[r@[j] as int] == before[r@[j] as int]);
                }
                if self.ev().len() > before.len() {
                    assert(old(self).wf());
                    assert forall|k: int| 0 <= k < old(self).ev().len() implies
                        expr_valid(#[trigger] old(self).ev()[k], old(self).ev().len(), old(self).vars@.len()) by {
                        assert(old(self).ev()[k] == old(self).exprs@[k]@);
                    }
                    crate::meaning::lemma_simplified_valid(old(self).ev(), ExprV::Not(c), self.ev()[n as int],
                        old(self).ev().len(), old(self).vars@.len());
                    assert forall|x: int| old(self).ev().len() <= x < self.ev().len() implies
                        expr_valid(#[trigger] self.ev()[x], old(self).ev().len(), old(self).vars@.len()) by {
                        if x < before.len() {
                            assert(self.ev()[x] == before[x]);
                        } else {
                            assert(x == n);
                        }
                    }
                }
            }
            r.push(n);
            i = i + 1;
        }
        r
    }

    /// Adds or looks up a named variable, returning the identifiers of its `Var` expression and of the variable.
    pub fn var_expr_with_id(&mut self, name: String) -> (r: (ExprId, VarId))
        requires
            old(self).wf(),
            old(self).vars@.len() < i32::MAX,
        ensures
            final(self).wf(),
            extends(final(self).ev(), old(self).ev()),
            extends(final(self).vv(), old(self).vv()),
            final(self).vv().len() <= old(self).vv().len() + 1,
            final(self).var_aux_id == old(self).var_aux_id,
            final(self).new_vars == old(self).new_vars,
            final(self).new_exprs == old(self).new_exprs,
            r.0 < final(self).ev().len(),
            0 <= r.1 < final(self).vv().len(),
            final(self).ev()[r.0 as int] == ExprV::Var(r.1),
            final(self).vv()[r.1 as int] == VarV::Named(name@),
            final(self).lookup(ExprV::Var(r.1)) == Some(r.0),
            old(self).has_named(name@) ==> final(self).vv() == old(self).vv(),
            crate::tseitin::tseitin_hyp(old(self).ev()) ==> crate::tseitin::tseitin_hyp(final(self).ev()),
    {
        let var_id = match self.get_var_named(name.clone()) {
            Some(v) => v,
            None => {
                let v = self.add_var_named(name);
                assert(self.vv().len() == self.vars@.len());
                v
            },
        };
        assert(0 <= var_id < self.vars@.len());
        assert(self.vv()[var_id as int] == VarV::Named(name@));
        let ghost mid = self.ev();
        let ghost mid_vv = self.vv();
        let id = self.expr(Expr::Var(var_id));
        assert(self.vv() == mid_vv);
        assert(extends(self.vv(), old(self).vv()));
        (id, var_id)
    }

    /// Adds or looks up a named variable, returning the identifier of its `Var` expression.
    pub fn var_expr(&mut self, name: String) -> (id: ExprId)
        requires
            old(self).wf(),
            old(self).vars@.len() < i32::MAX,
        ensures
            final(self).wf(),
            extends(final(self).ev(), old(self).ev()),
            extends(final(self).vv(), old(self).vv()),
            final(self).vv().len() <= old(self).vv().len() + 1,
            final(self).var_aux_id == old(self).var_aux_id,
            final(self).new_vars == old(self).new_vars,
            final(self).new_exprs == old(self).new_exprs,
            id < final(self).ev().len(),
            exists|v: VarId| 0 <= v < final(self).vv().len() && #[trigger] final(self).ev()[id as int] == ExprV::Var(v)
                && final(self).vv()[v as int] == VarV::Named(name@),
            crate::tseitin::tseitin_hyp(old(self).ev()) ==> crate::tseitin::tseitin_hyp(final(self).ev()),
            final(self).lookup(final(self).ev()[id as int]) == Some(id),
    {
        let (id, v) = self.var_expr_with_id(name);
        assert(self.ev()[id as int] == ExprV::Var(v));
        id
    }

    /// Adds a new auxiliary variable, returning its identifier and that of its `Var` expression.
    pub fn add_var_aux_expr(&mut self) -> (r: (VarId, ExprId))
        requires
            old(self).wf(),
            old(self).vars@.len() < i32::MAX,
            old(self).var_aux_id < u32::MAX,
        ensures
            final(self).wf(),
            extends(final(self).ev(), old(self).ev()),
            final(self).vv() == old(self).vv().push(VarV::Aux(final(self).var_aux_id)),
            final(self).var_aux_id == old(self).var_aux_id + 1,
            final(self).new_vars == old(self).new_vars,
            final(self).new_exprs == old(self).new_exprs,
            r.0 as int == old(self).vv().len(),
            r.1 < final(self).ev().len(),
            final(self).ev()[r.1 as int] == ExprV::Var(r.0),
            crate::tseitin::tseitin_hyp(old(self).ev()) ==> crate::tseitin::tseitin_hyp(final(self).ev()),
    {
        let var_id = self.add_var_aux();
        assert(self.vv().len() == self.vars@.len());
        let id = self.expr(Expr::Var(var_id));
        (var_id, id)
    }

    /// Replaces the expression stored at `id` (unless it is a variable).
    ///
    /// To preserve structural sharing, every child is first replaced by the canonical identifier
    /// of its expression; the result is then flattened and simplified before it is stored.
    /// The identifier is registered for the hash of its new expression.
    pub fn set_expr(&mut self, id: ExprId, expr: Expr)
        requires
            old(self).wf(),
            id < old(self).exprs@.len(),
            expr_valid(expr@, old(self).exprs@.len(), old(self).vars@.len()),
        ensures
            final(self).wf(),
            final(self).ev().len() == old(self).ev().len(),
            final(self).vars == old(self).vars,
            final(self).var_aux_id == old(self).var_aux_id,
            final(self).new_vars == old(self).new_vars,
            final(self).new_exprs == old(self).new_exprs,
            old(self).ev()[id as int] is Var ==> *final(self) == *old(self),
            !(old(self).ev()[id as int] is Var) ==> exists|c: ExprV| #[trigger] old(self).canonicalized(expr@, c)
                && expr_valid(c, old(self).exprs@.len(), old(self).vars@.len())
                && expr_valid(flattened(old(self).ev(), c), old(self).exprs@.len(), old(self).vars@.len())
                && simplified(old(self).ev(), flattened(old(self).ev(), c), final(self).ev()[id as int])
                && final(self).ev() == old(self).ev().update(id as int, final(self).ev()[id as int]),
    {
        if let Expr::Var(_) = &self.exprs[id] {
            return;
        }
        let ghost ev = self.ev();
        let mut e = self.canonicalize(expr);
        let ghost c = e@;
        self.flatten_expr(&mut e);
        let ghost f = e@;
        self.simp_expr(&mut e);
        let ghost s = e@;
        let h = e.calc_hash();
        self.exprs.set(id, e);
        let ghost old_inv = self.exprs_inv@;
        let mut bucket = match self.exprs_inv.remove(&h) {
            Some(b) => b,
            None => Vec::new(),
        };
        let ghost old_bucket = bucket@;
        bucket.push(id);
        self.exprs_inv.insert(h, bucket);
        proof {
            assert(self.ev() =~= ev.update(id as int, s));
            assert forall|i: int| 0 <= i < self.exprs@.len() implies
                expr_valid(#[trigger] self.exprs@[i]@, self.exprs@.len(), self.vars@.len()) by {
                if i != id {
                    assert(self.exprs@[i]@ == old(self).exprs@[i]@);
                    assert(expr_valid(old(self).exprs@[i]@, old(self).exprs@.len(), old(self).vars@.len()));
                }
            }
            assert forall|i: int| 0 <= i < self.exprs@.len() implies {
                let h3 = expr_hash(#[trigger] self.exprs@[i]@);
                self.exprs_inv@.contains_key(h3) && self.exprs_inv@[h3]@.contains(i as ExprId)
            } by {
                let h3 = expr_hash(self.exprs@[i]@);
                if i != id {
                    assert(self.exprs@[i]@ == old(self).exprs@[i]@);
                    assert(old_inv.contains_key(h3) && old_inv[h3]@.contains(i as ExprId));
                    if h3 == h {
                        let k = choose|k: int| 0 <= k < old_bucket.len() && old_bucket[k] == i as ExprId;
                        assert(self.exprs_inv@[h]@[k] == i as ExprId);
                    }
                } else {
                    assert(self.exprs_inv@[h]@[old_bucket.len() as int] == id);
                }
            }
            assert forall|h2: u64| #[trigger] self.exprs_inv@.contains_key(h2) implies ids_valid(self.exprs_inv@[h2]@, self.exprs@.len()) by {
                if h2 == h {
                    if old_inv.contains_key(h) {
                        assert(ids_valid(old_inv[h]@, ev.len()));
                    }
                    assert forall|j: int| 0 <= j < self.exprs_inv@[h]@.len() implies #[trigger] self.exprs_inv@[h]@[j] < self.exprs@.len() by {
                        if j < old_bucket.len() {
                            assert(self.exprs_inv@[h]@[j] == old_bucket[j]);
                        }
                    }
                } else {
                    assert(old_inv.contains_key(h2));
                    assert(ids_valid(old_inv[h2]@, ev.len()));
                }
            }
            assert(old(self).canonicalized(expr@, c));
            assert(f == flattened(old(self).ev(), c));
        }
    }

    /// Whether `c` is `e` with every child replaced by the canonical identifier of its expression.
    pub open spec fn canonicalized(&self, e: ExprV, c: ExprV) -> bool {
        match e {
            ExprV::Var(_) => c == e,
            ExprV::Not(x) => c == ExprV::Not(self.canon_id(x)),
            ExprV::And(xs) => c == ExprV::And(xs.map_values(|x: ExprId| self.canon_id(x))),
            ExprV::Or(xs) => c == ExprV::Or(xs.map_values(|x: ExprId| self.canon_id(x))),
        }
    }

    fn canonical_ids(&self, ids: Vec<ExprId>) -> (r: Vec<ExprId>)
        requires
            self.wf(),
            ids_valid(ids@, self.exprs@.len()),
        ensures
            r@ == ids@.map_values(|x: ExprId| self.canon_id(x)),
            ids_valid(r@, self.exprs@.len()),
    {
        let mut r: Vec<ExprId> = Vec::new();
        let mut i: usize = 0;
        while i < ids.len()
            invariant
                self.wf(),
                ids_valid(ids@, self.exprs@.len()),
                i <= ids.len(),
                r@ == ids@.take(i as int).map_values(|x: ExprId| self.canon_id(x)),
                ids_valid(r@, self.exprs@.len()),
            decreases ids.len() - i,
        {
            let c = ids[i];
            proof {
                self.lemma_canon_id(c);
            }
            let k = self.get_expr(&self.exprs[c]).unwrap();
            r.push(k);
            i = i + 1;
            assert(r@ =~= ids@.take(i as int).map_values(|x: ExprId| self.canon_id(x)));
        }
        assert(ids@.take(ids.len() as int) == ids@);
        r
    }

    fn canonicalize(&self, e: Expr) -> (r: Expr)
        requires
            self.wf(),
            expr_valid(e@, self.exprs@.len(), self.vars@.len()),
        ensures
            self.canonicalized(e@, r@),
            expr_valid(r@, self.exprs@.len(), self.vars@.len()),
    {
        match e {
            Expr::Var(v) => Expr::Var(v),
            Expr::Not(c) => {
                proof {
                    self.lemma_canon_id(c);
                }
                Expr::Not(self.get_expr(&self.exprs[c]).unwrap())
            },
            Expr::And(cs) => Expr::And(self.canonical_ids(cs)),
            Expr::Or(cs) => Expr::Or(self.canonical_ids(cs)),
        }
    }
}


/// The nesting depth up to which expressions are printed (deeper parts are printed as nothing).
///
/// Formulas in memory cannot come anywhere near this depth.
pub const FORMAT_DEPTH: u64 = 0xffff_ffff_ffff_ffff;

/// The printed form of an expression, up to a nesting depth of `fuel`.
///
/// Variables are printed by name (see `var_name`); other expressions as `Not(..)`, `And(.., ..)` or `Or(.., ..)`.
pub open spec fn format_spec(ev: Seq<ExprV>, vv: Seq<VarV>, aux: Seq<char>, id: ExprId, fuel: nat) -> Seq<char>
    decreases fuel, 0nat,
{
    if fuel == 0 {
        Seq::empty()
    } else {
        match ev[id as int] {
            ExprV::Var(v) => crate::var::var_name(vv[v as int], aux),
            ExprV::Not(c) => seq!['N', 'o', 't', '('] + format_list_spec(ev, vv, aux, seq![c], (fuel - 1) as nat) + seq![')'],
            ExprV::And(cs) => seq!['A', 'n', 'd', '('] + format_list_spec(ev, vv, aux, cs, (fuel - 1) as nat) + seq![')'],
            ExprV::Or(cs) => seq!['O', 'r', '('] + format_list_spec(ev, vv, aux, cs, (fuel - 1) as nat) + seq![')'],
        }
    }
}

/// The printed form of a list of expressions, separated by `, `.
pub open spec fn format_list_spec(ev: Seq<ExprV>, vv: Seq<VarV>, aux: Seq<char>, cs: Seq<ExprId>, fuel: nat) -> Seq<char>
    decreases fuel, cs.len(),
{
    if cs.len() == 0 {
        Seq::empty()
    } else if cs.len() == 1 {
        format_spec(ev, vv, aux, cs[0], fuel)
    } else {
        format_list_spec(ev, vv, aux, cs.drop_last(), fuel) + seq![',', ' '] + format_spec(ev, vv, aux, cs.last(), fuel)
    }
}

impl Arena {
    /// Appends the printed form of an expression (see `format_spec`).
    pub fn format_expr(&self, aux: &Vec<char>, id: ExprId, fuel: u64, out: &mut Vec<char>)
        requires
            self.wf(),
            id < self.exprs@.len(),
        ensures
            final(out)@ == old(out)@ + format_spec(self.ev(), self.vv(), aux@, id, fuel as nat),
        decreases fuel, 0nat,
    {
        if fuel == 0 {
            assert(old(out)@ + Seq::<char>::empty() == old(out)@);
            return;
        }
        let ghost start = out@;
        proof {
            assert(expr_valid(self.exprs@[id as int]@, self.exprs@.len(), self.vars@.len()));
        }
        match &self.exprs[id] {
            Expr::Var(v) => {
                self.vars[*v as usize].push_name(aux, out);
            },
            Expr::Not(c) => {
                out.push('N');
                out.push('o');
                out.push('t');
                out.push('(');
                let mut cs: Vec<ExprId> = Vec::new();
                cs.push(*c);
                assert(cs@ =~= seq![*c]);
                self.format_list(aux, &cs, fuel - 1, out);
                out.push(')');
                assert(out@ =~= start + format_spec(self.ev(), self.vv(), aux@, id, fuel as nat));
            },
            Expr::And(cs) => {
                out.push('A');
                out.push('n');
                out.push('d');
                out.push('(');
                self.format_list(aux, cs, fuel - 1, out);
                out.push(')');
                assert(out@ =~= start + format_spec(self.ev(), self.vv(), aux@, id, fuel as nat));
            },
            Expr::Or(cs) => {
                out.push('O');
                out.push('r');
                out.push('(');
                self.format_list(aux, cs, fuel - 1, out);
                out.push(')');
                assert(out@ =~= start + format_spec(self.ev(), self.vv(), aux@, id, fuel as nat));
            },
        }
    }

    /// Appends the printed forms of a list of expressions, separated by `, `.
    pub fn format_list(&self, aux: &Vec<char>, cs: &Vec<ExprId>, fuel: u64, out: &mut Vec<char>)
        requires
            self.wf(),
            ids_valid(cs@, self.exprs@.len()),
        ensures
            final(out)@ == old(out)@ + format_list_spec(self.ev(), self.vv(), aux@, cs@, fuel as nat),
        decreases fuel, cs@.len(),
    {
        let mut i: usize = 0;
        while i < cs.len()
            invariant
                self.wf(),
                ids_valid(cs@, self.exprs@.len()),
                i <= cs.len(),
                out@ == old(out)@ + format_list_spec(self.ev(), self.vv(), aux@, cs@.take(i as int), fuel as nat),
            decreases cs.len() - i,
        {
            let ghost before = out@;
            if i > 0 {
                out.push(',');
                out.push(' ');
            }
            self.format_expr(aux, cs[i], fuel, out);
            proof {
                assert(cs@.take(i + 1).drop_last() == cs@.take(i as int));
                if i == 0 {
                    assert(cs@.take(1) == seq![cs@[0]]);
                }
                assert(out@ =~= old(out)@ + format_list_spec(self.ev(), self.vv(), aux@, cs@.take(i + 1), fuel as nat));
            }
            i = i + 1;
        }
        assert(cs@.take(cs.len() as int) == cs@);
    }
}


/// The inverse lookups do not depend on the Tseitin buffers.
pub proof fn lemma_wf_index_frame(a: &Arena, b: &Arena)
    requires
        a.wf_index(),
        a.exprs == b.exprs,
        a.exprs_inv == b.exprs_inv,
        a.vars == b.vars,
        a.vars_inv == b.vars_inv,
        a.var_aux_id == b.var_aux_id,
    ensures
        b.wf_index(),
        forall|e: ExprV| #[trigger] b.lookup(e) == a.lookup(e),
{
}


/// The simplification of an expression only depends on the expressions it refers to.
pub proof fn lemma_simplified_extends(ev1: Seq<ExprV>, ev2: Seq<ExprV>, e: ExprV, out: ExprV, n_vars: nat)
    requires
        extends(ev2, ev1),
        expr_valid(e, ev1.len(), n_vars),
        forall|i: int| 0 <= i < ev1.len() ==> expr_valid(#[trigger] ev1[i], ev1.len(), n_vars),
        simplified(ev1, e, out),
    ensures
        simplified(ev2, e, out),
{
    match e {
        ExprV::Var(_) => {},
        ExprV::Not(c) => {
            assert(ev2[c as int] == ev1[c as int]);
            if let ExprV::Not(g) = ev1[c as int] {
                assert(expr_valid(ev1[c as int], ev1.len(), n_vars));
                assert(ev2[g as int] == ev1[g as int]);
            }
        },
        ExprV::And(cs) => {
            let ds = choose|ds: Seq<ExprId>| #[trigger] canonical_children(ev1, cs, ds) && out == simp_children(ev1, ds, true);
            lemma_canonical_children_extends(ev1, ev2, cs, ds);
            lemma_simp_children_extends(ev1, ev2, cs, ds, true);
        },
        ExprV::Or(cs) => {
            let ds = choose|ds: Seq<ExprId>| #[trigger] canonical_children(ev1, cs, ds) && out == simp_children(ev1, ds, false);
            lemma_canonical_children_extends(ev1, ev2, cs, ds);
            lemma_simp_children_extends(ev1, ev2, cs, ds, false);
        },
    }
}

proof fn lemma_canonical_children_extends(ev1: Seq<ExprV>, ev2: Seq<ExprV>, cs: Seq<ExprId>, ds: Seq<ExprId>)
    requires
        extends(ev2, ev1),
        ids_valid(cs, ev1.len()),
        canonical_children(ev1, cs, ds),
    ensures
        canonical_children(ev2, cs, ds),
        ids_valid(ds, ev1.len()),
{
    assert forall|i: int| 0 <= i < ds.len() implies #[trigger] ds[i] < ev1.len() by {
        assert(ds.contains(ds[i]));
        assert(cs.contains(ds[i]));
    }
    assert forall|i: int| 0 <= i < ds.len() implies child_key(ev2, #[trigger] ds[i]) == child_key(ev1, ds[i]) by {
        assert(ev2[ds[i] as int] == ev1[ds[i] as int]);
    }
    assert forall|i: int, j: int| 0 <= i < j < ds.len() implies key_lt(child_key(ev2, #[trigger] ds[i]), child_key(ev2, #[trigger] ds[j])) by {
        assert(child_key(ev2, ds[i]) == child_key(ev1, ds[i]));
        assert(child_key(ev2, ds[j]) == child_key(ev1, ds[j]));
    }
}

proof fn lemma_simp_children_extends(ev1: Seq<ExprV>, ev2: Seq<ExprV>, cs: Seq<ExprId>, ds: Seq<ExprId>, is_and: bool)
    requires
        extends(ev2, ev1),
        ids_valid(ds, ev1.len()),
    ensures
        simp_children(ev1, ds, is_and) == simp_children(ev2, ds, is_and),
{
    if ds.len() >= 1 {
        assert(ev2[ds[0] as int] == ev1[ds[0] as int]);
    }
    if has_adjacent_complement(ev1, ds) {
        let i = choose|i: int| 0 <= i < ds.len() - 1 && !(ev1[#[trigger] ds[i] as int] is Not) && ev1[ds[i + 1] as int] == ExprV::Not(ds[i]);
        assert(ev2[ds[i] as int] == ev1[ds[i] as int]);
        assert(ev2[ds[i + 1] as int] == ev1[ds[i + 1] as int]);
    }
    if has_adjacent_complement(ev2, ds) {
        let i = choose|i: int| 0 <= i < ds.len() - 1 && !(ev2[#[trigger] ds[i] as int] is Not) && ev2[ds[i + 1] as int] == ExprV::Not(ds[i]);
        assert(ev2[ds[i] as int] == ev1[ds[i] as int]);
        assert(ev2[ds[i + 1] as int] == ev1[ds[i + 1] as int]);
    }
}


/// Returns a copy of a list of identifiers.
fn copy_vec<T: Copy>(v: &Vec<T>) -> (r: Vec<T>)
    ensures
        r@ == v@,
{
    let mut r: Vec<T> = Vec::new();
    let mut i: usize = 0;
    while i < v.len()
        invariant
            i <= v@.len(),
            r@ == v@.take(i as int),
        decreases v.len() - i,
    {
        r.push(v[i]);
        i = i + 1;
        assert(r@ =~= v@.take(i as int));
    }
    assert(v@.take(v@.len() as int) =~= v@);
    r
}

/// Returns a copy of an optional list of identifiers.
fn copy_opt_vec<T: Copy>(v: &Option<Vec<T>>) -> (r: Option<Vec<T>>)
    ensures
        match v {
            Some(x) => r matches Some(y) && y@ == x@,
            None => r is None,
        },
{
    match v {
        Some(x) => Some(copy_vec(x)),
        None => None,
    }
}

impl Clone for Arena {
    /// Returns a copy of this arena, with the same expressions, variables and lookups.
    fn clone(&self) -> (r: Self)
        ensures
            r.ev() == self.ev(),
            r.vv() == self.vv(),
            r.exprs@.len() == self.exprs@.len(),
            r.vars@.len() == self.vars@.len(),
            r.var_aux_id == self.var_aux_id,
            r.new_vars is None == self.new_vars is None,
            r.new_exprs is None == self.new_exprs is None,
            self.wf() ==> r.wf(),
            forall|e: ExprV| #[trigger] r.lookup(e) == self.lookup(e),
    {
        let mut exprs: Vec<Expr> = Vec::new();
        let mut i: usize = 0;
        while i < self.exprs.len()
            invariant
                i <= self.exprs@.len(),
                exprs@.len() == i,
                forall|k: int| 0 <= k < i ==> #[trigger] exprs@[k]@ == self.exprs@[k]@,
            decreases self.exprs.len() - i,
        {
            exprs.push(self.exprs[i].clone());
            i = i + 1;
        }
        let mut vars: Vec<Var> = Vec::new();
        let mut j: usize = 0;
        while j < self.vars.len()
            invariant
                j <= self.vars@.len(),
                vars@.len() == j,
                forall|k: int| 0 <= k < j ==> #[trigger] vars@[k]@ == self.vars@[k]@,
            decreases self.vars.len() - j,
        {
            vars.push(self.vars[j].clone());
            j = j + 1;
        }
        let r = Arena {
            exprs,
            exprs_inv: self.exprs_inv.clone(),
            vars,
            vars_inv: self.vars_inv.clone(),
            var_aux_id: self.var_aux_id,
            new_vars: copy_opt_vec(&self.new_vars),
            new_exprs: copy_opt_vec(&self.new_exprs),
        };
        assert(r.ev() =~= self.ev());
        assert(r.vv() =~= self.vv());
        r
    }
}


/// Whether `new` is `old` after `Arena::expr` stored the expression `e` at `id`: `id` holds its
/// simplification and is found again by looking that up; if an equal simplification was already
/// stored, its identifier is returned and nothing changes.
pub open spec fn expr_stored(new: Arena, old: Arena, e: ExprV, id: ExprId) -> bool {
    &&& new.wf()
    &&& extends(new.ev(), old.ev())
    &&& id < new.ev().len()
    &&& simplified(old.ev(), e, new.ev()[id as int])
    &&& new.lookup(new.ev()[id as int]) == Some(id)
    &&& forall|out: ExprV| #[trigger] simplified(old.ev(), e, out) && old.lookup(out) is Some
        ==> id == old.lookup(out)->0 && new == old
}

/// Two lists sorted strictly by the children's keys with the same elements are equal.
proof fn lemma_sorted_children_unique(exprs: Seq<ExprV>, ds1: Seq<ExprId>, ds2: Seq<ExprId>)
    requires
        forall|i: int, j: int| 0 <= i < j < ds1.len() ==> key_lt(child_key(exprs, #[trigger] ds1[i]), child_key(exprs, #[trigger] ds1[j])),
        forall|i: int, j: int| 0 <= i < j < ds2.len() ==> key_lt(child_key(exprs, #[trigger] ds2[i]), child_key(exprs, #[trigger] ds2[j])),
        forall|x: ExprId| #[trigger] ds1.contains(x) <==> ds2.contains(x),
    ensures
        ds1 == ds2,
    decreases ds1.len(),
{
    if ds1.len() == 0 {
        if ds2.len() > 0 {
            assert(ds2.contains(ds2[0]));
            assert(ds1.contains(ds2[0]));
        }
        assert(ds1 =~= ds2);
    } else {
        assert(ds1.contains(ds1[0]));
        assert(ds2.len() > 0);
        assert(ds2.contains(ds2[0]));
        assert(ds1.contains(ds2[0]));
        assert(ds2.contains(ds1[0]));
        let j = choose|j: int| 0 <= j < ds1.len() && ds1[j] == ds2[0];
        let i = choose|i: int| 0 <= i < ds2.len() && ds2[i] == ds1[0];
        if i > 0 && j > 0 {
            assert(key_lt(child_key(exprs, ds2[0]), child_key(exprs, ds2[i])));
            assert(key_lt(child_key(exprs, ds1[0]), child_key(exprs, ds1[j])));
            assert(false);
        }
        assert(ds1[0] == ds2[0]) by {
            if i > 0 {
                assert(j == 0);
            }
        }
        let t1 = ds1.drop_first();
        let t2 = ds2.drop_first();
        assert forall|x: ExprId| #[trigger] t1.contains(x) <==> t2.contains(x) by {
            if t1.contains(x) {
                let k = choose|k: int| 0 <= k < t1.len() && t1[k] == x;
                assert(ds1[k + 1] == x);
                assert(key_lt(child_key(exprs, ds1[0]), child_key(exprs, ds1[k + 1])));
                assert(x != ds1[0]);
                assert(ds1.contains(x));
                let m = choose|m: int| 0 <= m < ds2.len() && ds2[m] == x;
                assert(m != 0);
                assert(t2[m - 1] == x);
            }
            if t2.contains(x) {
                let k = choose|k: int| 0 <= k < t2.len() && t2[k] == x;
                assert(ds2[k + 1] == x);
                assert(key_lt(child_key(exprs, ds2[0]), child_key(exprs, ds2[k + 1])));
                assert(x != ds2[0]);
                assert(ds2.contains(x));
                assert(ds1.contains(x));
                assert(x != ds1[0]);
                let m = choose|m: int| 0 <= m < ds1.len() && ds1[m] == x;
                assert(m != 0);
                assert(t1[m - 1] == x);
            }
        }
        assert forall|a: int, b: int| 0 <= a < b < t1.len() implies key_lt(child_key(exprs, #[trigger] t1[a]), child_key(exprs, #[trigger] t1[b])) by {
            assert(t1[a] == ds1[a + 1] && t1[b] == ds1[b + 1]);
        }
        assert forall|a: int, b: int| 0 <= a < b < t2.len() implies key_lt(child_key(exprs, #[trigger] t2[a]), child_key(exprs, #[trigger] t2[b])) by {
            assert(t2[a] == ds2[a + 1] && t2[b] == ds2[b + 1]);
        }
        lemma_sorted_children_unique(exprs, t1, t2);
        assert(ds1 =~= seq![ds1[0]] + t1);
        assert(ds2 =~= seq![ds2[0]] + t2);
    }
}

/// The simplification of an expression is unique.
pub proof fn lemma_simplified_unique(exprs: Seq<ExprV>, e: ExprV, out1: ExprV, out2: ExprV)
    requires
        simplified(exprs, e, out1),
        simplified(exprs, e, out2),
    ensures
        out1 == out2,
{
    match e {
        ExprV::And(cs) => {
            let d1 = choose|ds: Seq<ExprId>| #[trigger] canonical_children(exprs, cs, ds) && out1 == simp_children(exprs, ds, true);
            let d2 = choose|ds: Seq<ExprId>| #[trigger] canonical_children(exprs, cs, ds) && out2 == simp_children(exprs, ds, true);
            lemma_sorted_children_unique(exprs, d1, d2);
        },
        ExprV::Or(cs) => {
            let d1 = choose|ds: Seq<ExprId>| #[trigger] canonical_children(exprs, cs, ds) && out1 == simp_children(exprs, ds, false);
            let d2 = choose|ds: Seq<ExprId>| #[trigger] canonical_children(exprs, cs, ds) && out2 == simp_children(exprs, ds, false);
            lemma_sorted_children_unique(exprs, d1, d2);
        },
        _ => {},
    }
}

} // verus!

//! Incremental model counting: the formulas whose model counts relate the model counts of two
//! formulas, and the arithmetic that derives one count from the other.
//!
//! Model counts are arbitrarily large integers; they are held as decimal text and computed on
//! with `num`'s `BigInt`.

use num::BigInt;
use std::str::FromStr;
use vstd::prelude::*;
use vstd::arithmetic::power::{pow, lemma_pow_positive};
use crate::arena::Arena;
use crate::arena::extends;
use crate::clauses::{Clauses, ClausesError, clauses_result};
use crate::expr::{ExprId, ExprV};
use crate::formula::Formula;
use crate::meaning::{agree_on, agree_on_set, agrees, evaluates, lemma_evaluates_prefix, law_acyclic_meaning_unique, ranked};
use crate::clauses::{clauses_view, remap_of, satisfies};
use crate::tseitin::{acyclic, counts_models};
use crate::var::VarId;
use crate::syntax::{digit_value, is_digit};
use crate::text::{decimal, digit_char, push_decimal, push_str_chars, signed_decimal, string_of};

verus! {

broadcast use vstd::std_specs::hash::group_hash_axioms;

/// Whether `s` is a digit followed by digits and underscores.
pub open spec fn digit_run(s: Seq<char>) -> bool {
    &&& s.len() > 0
    &&& is_digit(s[0])
    &&& forall|i: int| 0 <= i < s.len() ==> is_digit(#[trigger] s[i]) || s[i] == '_'
}

/// The value of the digits of `s`, underscores skipped.
pub open spec fn digit_run_value(s: Seq<char>) -> int
    decreases s.len(),
{
    if s.len() == 0 {
        0
    } else if s.last() == '_' {
        digit_run_value(s.drop_last())
    } else {
        digit_run_value(s.drop_last()) * 10 + digit_value(s.last())
    }
}

/// The integer that `BigInt::from_str` reads from a text: a digit run, optionally after `-` or
/// `+`; `None` if the text is not of that form.
pub open spec fn big_value(s: Seq<char>) -> Option<int> {
    if s.len() > 0 && s[0] == '-' && digit_run(s.drop_first()) {
        Some(-digit_run_value(s.drop_first()))
    } else if s.len() > 0 && s[0] == '+' && digit_run(s.drop_first()) {
        Some(digit_run_value(s.drop_first()))
    } else if digit_run(s) {
        Some(digit_run_value(s))
    } else {
        None
    }
}

/// Whether a text holds an integer (see `big_value`).
pub open spec fn is_big(s: Seq<char>) -> bool {
    big_value(s) is Some
}

/// The integer a text holds (see `big_value`).
pub open spec fn big(s: Seq<char>) -> int {
    big_value(s)->0
}

/// The absolute value of an integer.
pub open spec fn abs(a: int) -> int {
    if a < 0 { -a } else { a }
}

/// Integer division rounded towards zero.
pub open spec fn trunc_div(a: int, b: int) -> int {
    let q = abs(a) / abs(b);
    if (a < 0) != (b < 0) { -q } else { q }
}

/// Reads an integer with `BigInt::from_str` and prints it with `BigInt`'s `Display`.
///
/// Claims: the text is read exactly when it has the form that `big_value` describes, and the
/// printed integer is `big_value`'s value in canonical decimal form (`-` for negative values,
/// no leading zeros).
#[verifier::external_body]
pub(crate) fn big_parse(s: &str) -> (r: Option<String>)
    ensures
        match big_value(s@) {
            Some(v) => r matches Some(t) && t@ == signed_decimal(v),
            None => r is None,
        },
{
    match BigInt::from_str(s) {
        Ok(b) => Some(b.to_string()),
        Err(_) => None,
    }
}

/// Adds two integers with `BigInt`'s `+`.
///
/// Claims: the printed result is the sum of the integers the texts hold.
#[verifier::external_body]
pub(crate) fn big_add(a: &str, b: &str) -> (r: String)
    requires
        is_big(a@),
        is_big(b@),
    ensures
        r@ == signed_decimal(big(a@) + big(b@)),
{
    (BigInt::from_str(a).unwrap() + BigInt::from_str(b).unwrap()).to_string()
}

/// Subtracts two integers with `BigInt`'s `-`.
///
/// Claims: the printed result is the difference of the integers the texts hold.
#[verifier::external_body]
pub(crate) fn big_sub(a: &str, b: &str) -> (r: String)
    requires
        is_big(a@),
        is_big(b@),
    ensures
        r@ == signed_decimal(big(a@) - big(b@)),
{
    (BigInt::from_str(a).unwrap() - BigInt::from_str(b).unwrap()).to_string()
}

/// Multiplies two integers with `BigInt`'s `*`.
///
/// Claims: the printed result is the product of the integers the texts hold.
#[verifier::external_body]
fn big_mul(a: &str, b: &str) -> (r: String)
    requires
        is_big(a@),
        is_big(b@),
    ensures
        r@ == signed_decimal(big(a@) * big(b@)),
{
    (BigInt::from_str(a).unwrap() * BigInt::from_str(b).unwrap()).to_string()
}

/// Divides two integers with `BigInt`'s `/`, which rounds towards zero (and panics on a zero divisor).
///
/// Claims: the printed result is the quotient, rounded towards zero, of the integers the texts hold.
#[verifier::external_body]
fn big_div(a: &str, b: &str) -> (r: String)
    requires
        is_big(a@),
        is_big(b@),
        big(b@) != 0,
    ensures
        r@ == signed_decimal(trunc_div(big(a@), big(b@))),
{
    (BigInt::from_str(a).unwrap() / BigInt::from_str(b).unwrap()).to_string()
}

/// Raises an integer to a power with `BigInt::pow`.
///
/// Claims: the printed result is the integer the text holds, raised to the power `e`.
#[verifier::external_body]
fn big_pow(a: &str, e: u32) -> (r: String)
    requires
        is_big(a@),
    ensures
        r@ == signed_decimal(pow(big(a@), e as nat)),
{
    BigInt::from_str(a).unwrap().pow(e).to_string()
}

/// A digit's character is a digit with that value.
proof fn lemma_digit_char(d: nat)
    requires
        d < 10,
    ensures
        is_digit(digit_char(d)),
        digit_value(digit_char(d)) == d,
{
}

/// The decimal form of a natural number is a digit run with that value.
proof fn lemma_decimal_run(n: nat)
    ensures
        digit_run(decimal(n)),
        digit_run_value(decimal(n)) == n,
        forall|i: int| 0 <= i < decimal(n).len() ==> is_digit(#[trigger] decimal(n)[i]),
    decreases n,
{
    if n < 10 {
        lemma_digit_char(n);
        let s = decimal(n);
        assert(s == seq![digit_char(n)]);
        assert(s.drop_last() =~= Seq::<char>::empty());
        assert(s.last() != '_');
        assert(digit_run_value(s.drop_last()) == 0);
    } else {
        lemma_decimal_run(n / 10);
        lemma_digit_char(n % 10);
        let s = decimal(n);
        assert(s == decimal(n / 10) + seq![digit_char(n % 10)]);
        assert(s.drop_last() =~= decimal(n / 10));
        assert(s.last() == digit_char(n % 10));
        assert(s.last() != '_');
        assert((n / 10) * 10 + n % 10 == n) by (nonlinear_arith);
        assert forall|i: int| 0 <= i < s.len() implies is_digit(#[trigger] s[i]) by {
            if i < decimal(n / 10).len() {
                assert(s[i] == decimal(n / 10)[i]);
            }
        }
        assert(s[0] == decimal(n / 10)[0]);
    }
}

/// `big_value` reads back the canonical decimal form of every integer.
pub proof fn lemma_big_value_of_decimal(v: int)
    ensures
        big_value(signed_decimal(v)) == Some(v),
{
    if v < 0 {
        lemma_decimal_run((-v) as nat);
        let s = signed_decimal(v);
        assert(s.drop_first() =~= decimal((-v) as nat));
    } else {
        lemma_decimal_run(v as nat);
        let s = decimal(v as nat);
        assert(is_digit(s[0]));
    }
}

/// Reads a model count: returns its canonical decimal form if the text holds an integer as
/// `BigInt::from_str` reads it, and `None` otherwise.
pub fn read_count(s: &str) -> (r: Option<String>)
    ensures
        match big_value(s@) {
            Some(v) => r matches Some(t) && t@ == signed_decimal(v),
            None => r is None,
        },
{
    big_parse(s)
}

/// The model counts that `count_inc_queries` asks for, as decimal text.
pub struct CountIncCounts {
    /// Solutions of the left formula's reduction that are no solutions of the left formula.
    pub a2_to_a: String,
    /// Solutions of the right formula's reduction that are no solutions of the right formula.
    pub b2_to_b: String,
    /// Solutions of the left reduction that are no solutions of the right reduction.
    pub removed: String,
    /// Solutions of the right reduction that are no solutions of the left reduction.
    pub added: String,
}

/// The model count of the right formula, given that of the left one (`left`), the four counts
/// of `CountIncCounts`, and the numbers of variables only in the left and only in the right formula.
///
/// The left reduction has the left formula's solutions plus `a2_to_a`, each counted once per
/// assignment of the variables only in the left formula; the right reduction has the left
/// reduction's solutions minus `removed` plus `added`; and the right formula has the right
/// reduction's solutions, once per assignment of the variables only in the right formula, minus `b2_to_b`.
pub open spec fn count_inc_value(left: int, a2_to_a: int, b2_to_b: int, removed: int, added: int, a_vars: nat, b_vars: nat) -> int {
    let cnt_a2 = trunc_div(left + a2_to_a, pow(2, a_vars));
    let cnt_b2 = cnt_a2 - removed + added;
    cnt_b2 * pow(2, b_vars) - b2_to_b
}

/// The shell command that computes the right formula's model count from the left one's, which it
/// reads in place of `#` (see `count_inc_value`); the counts are given as text.
pub open spec fn count_inc_term(a2_to_a: Seq<char>, b2_to_b: Seq<char>, removed: Seq<char>, added: Seq<char>, a_vars: nat, b_vars: nat) -> Seq<char> {
    "(((#+"@ + a2_to_a + ")/2^"@ + decimal(a_vars) + ")-"@ + removed + "+"@ + added + ")*2^"@
        + decimal(b_vars) + "-"@ + b2_to_b + "# | sed 's/#/<left model count>/' | bc"@
}

/// Returns the model count of the right formula if that of the left one is given, and otherwise
/// a shell command that computes it from the left one's (see `count_inc_value` and `count_inc_term`).
///
/// All counts must be integers as `BigInt::from_str` reads them; they are printed in canonical form.
pub fn count_inc_result(left: Option<&str>, counts: &CountIncCounts, a_vars: u32, b_vars: u32) -> (r: String)
    requires
        left matches Some(t) ==> is_big(t@),
        is_big(counts.a2_to_a@),
        is_big(counts.b2_to_b@),
        is_big(counts.removed@),
        is_big(counts.added@),
    ensures
        match left {
            Some(t) => r@ == signed_decimal(count_inc_value(big(t@), big(counts.a2_to_a@), big(counts.b2_to_b@),
                big(counts.removed@), big(counts.added@), a_vars as nat, b_vars as nat)),
            None => r@ == count_inc_term(signed_decimal(big(counts.a2_to_a@)), signed_decimal(big(counts.b2_to_b@)),
                signed_decimal(big(counts.removed@)), signed_decimal(big(counts.added@)), a_vars as nat, b_vars as nat),
        },
{
    match left {
        Some(t) => {
            let two = "2";
            proof {
                reveal_strlit("2");
                assert(two@ =~= seq!['2']);
                assert(two@.drop_last() =~= Seq::<char>::empty());
                assert(digit_run_value(two@.drop_last()) == 0);
                assert(digit_run(two@));
                assert(digit_run_value(two@) == 2);
                assert(big_value(two@) == Some(2int));
                lemma_pow_positive(2, a_vars as nat);
                lemma_pow_positive(2, b_vars as nat);
            }
            let pow_a = big_pow(two, a_vars);
            proof { lemma_big_value_of_decimal(pow(2, a_vars as nat)); }
            let sum = big_add(t, &counts.a2_to_a);
            proof { lemma_big_value_of_decimal(big(t@) + big(counts.a2_to_a@)); }
            let cnt_a2 = big_div(&sum, &pow_a);
            proof { lemma_big_value_of_decimal(trunc_div(big(sum@), big(pow_a@))); }
            let diff = big_sub(&cnt_a2, &counts.removed);
            proof { lemma_big_value_of_decimal(big(cnt_a2@) - big(counts.removed@)); }
            let cnt_b2 = big_add(&diff, &counts.added);
            proof { lemma_big_value_of_decimal(big(diff@) + big(counts.added@)); }
            let pow_b = big_pow(two, b_vars);
            proof { lemma_big_value_of_decimal(pow(2, b_vars as nat)); }
            let prod = big_mul(&cnt_b2, &pow_b);
            proof { lemma_big_value_of_decimal(big(cnt_b2@) * big(pow_b@)); }
            big_sub(&prod, &counts.b2_to_b)
        },
        None => {
            let c1 = canonical(&counts.a2_to_a);
            let c2 = canonical(&counts.b2_to_b);
            let removed = canonical(&counts.removed);
            let added = canonical(&counts.added);
            let mut out: Vec<char> = Vec::new();
            push_str_chars(&mut out, "(((#+");
            push_str_chars(&mut out, c1.as_str());
            push_str_chars(&mut out, ")/2^");
            push_decimal(&mut out, a_vars as u64);
            push_str_chars(&mut out, ")-");
            push_str_chars(&mut out, removed.as_str());
            push_str_chars(&mut out, "+");
            push_str_chars(&mut out, added.as_str());
            push_str_chars(&mut out, ")*2^");
            push_decimal(&mut out, b_vars as u64);
            push_str_chars(&mut out, "-");
            push_str_chars(&mut out, c2.as_str());
            push_str_chars(&mut out, "# | sed 's/#/<left model count>/' | bc");
            proof {
                assert(out@ =~= count_inc_term(c1@, c2@, removed@, added@, a_vars as nat, b_vars as nat));
            }
            string_of(&out)
        },
    }
}

/// Returns the canonical form of a text that holds an integer.
fn canonical(s: &String) -> (r: String)
    requires
        is_big(s@),
    ensures
        r@ == signed_decimal(big(s@)),
{
    match big_parse(s.as_str()) {
        Some(t) => t,
        None => String::new(),
    }
}

/// Whether `f` in `x` results from `g` in `y` by Tseitin's transformation (see
/// `Formula::to_cnf_tseitin`): the variables of `g` are kept, every variable the transformation adds
/// is an auxiliary variable of `f`, and a traversal applies the Tseitin visitor to every
/// expression reachable from the root of `g`.
pub open spec fn tseitin_done(f: Formula, x: Arena, g: Formula, y: Arena) -> bool {
    &&& x.wf()
    &&& f.valid_in(&x)
    &&& g.sub_var_ids@.subset_of(f.sub_var_ids@)
    &&& extends(x.vv(), y.vv())
    &&& forall|v: VarId| #[trigger] f.sub_var_ids@.contains(v) && !g.sub_var_ids@.contains(v)
        ==> y.vars@.len() <= v < x.vars@.len() && x.vv()[v as int] is Aux
    &&& exists|arenas: Seq<Arena>, steps: Seq<(crate::visit::Visitor, ExprId)>| #[trigger] crate::visit::visit_trace(arenas, steps)
        && arenas[0].ev() == y.ev() && arenas[0].vv() == y.vv()
        && extends(x.ev(), arenas.last().ev())
        && forall|z: ExprId| crate::visit::reaches(y.ev(), g.root_id, z) ==> #[trigger] steps.contains((crate::visit::Visitor::Tseitin, z))
}

/// Returns the clause representation of a formula whose solutions are to be counted; with
/// `tseitin`, the formula is first transformed by Tseitin's transformation (assuming its root), on
/// copies of the formula and the arena. The formula and the arena are not modified.
pub fn clauses_for_count(formula: &Formula, arena: &Arena, tseitin: bool) -> (r: Result<Clauses, ClausesError>)
    requires
        arena.wf(),
        formula.valid_in(arena),
        arena.new_vars is None,
        arena.new_exprs is None,
    ensures
        !tseitin ==> clauses_result(*formula, *arena, r),
        !tseitin ==> (r matches Ok(c) ==> c.var_remap@ == remap_of(crate::clauses::formula_var_ids(formula, arena))),
        !tseitin ==> (r matches Ok(c) ==> forall|value: spec_fn(crate::expr::ExprId) -> bool, assignment: spec_fn(crate::var::VarId) -> bool|
            #[trigger] crate::meaning::evaluates(arena.ev(), value, assignment)
            ==> value(formula.root_id) == crate::clauses::satisfies(crate::clauses::clauses_view(c.clauses@),
                crate::clauses::formula_var_ids(formula, arena), assignment)),
        tseitin ==> exists|f: Formula, a: Arena| #[trigger] clauses_result(f, a, r)
            && a.wf()
            && f.valid_in(&a)
            && formula.sub_var_ids@.subset_of(f.sub_var_ids@)
            && a.ev().len() >= arena.ev().len()
            && extends(a.vv(), arena.vv())
            && tseitin_done(f, a, *formula, *arena),
        tseitin ==> (crate::tseitin::tseitin_hyp(arena.ev()) ==> (r matches Ok(c) ==> exists|ids: Seq<crate::var::VarId>|
            #[trigger] crate::clauses::remap_of(ids) == c.var_remap@
            && crate::tseitin::counts_models(crate::clauses::clauses_view(c.clauses@), ids, arena.ev(), formula.root_id, arena.vars@.len()))),
{
    if tseitin {
        let mut copy = formula.clone();
        let mut arena_copy = arena.clone();
        let ghost a0 = arena_copy;
        let ghost f0 = copy;
        copy.to_cnf_tseitin(true, &mut arena_copy);
        let r = copy.to_clauses(&arena_copy);
        assert(clauses_result(copy, arena_copy, r));
        assert(tseitin_done(copy, arena_copy, *formula, *arena)) by {
            let (arenas, steps) = choose|arenas: Seq<Arena>, steps: Seq<(crate::visit::Visitor, ExprId)>| #[trigger] crate::visit::visit_trace(arenas, steps)
                && arenas[0].ev() == a0.ev() && arenas[0].vars == a0.vars
                && extends(arena_copy.ev(), arenas.last().ev())
                && (forall|k: int| 0 <= k < steps.len() ==> #[trigger] steps[k].0 == crate::visit::Visitor::Nothing || steps[k].0 == crate::visit::Visitor::Tseitin)
                && (forall|z: ExprId| crate::visit::reaches(a0.ev(), f0.root_id, z) ==> #[trigger] steps.contains((crate::visit::Visitor::Tseitin, z)))
                && forall|k: int| 0 <= k < steps.len() ==> crate::visit::reaches(a0.ev(), f0.root_id, #[trigger] steps[k].1);
            assert(arenas[0].vv() == arena.vv());
        }
        proof {
            if crate::tseitin::tseitin_hyp(arena.ev()) && r is Ok {
                let c = r->Ok_0;
                let ids = crate::clauses::formula_var_ids(&copy, &arena_copy);
                let cs = crate::clauses::clauses_view(c.clauses@);
                assert(crate::clauses::remap_of(ids) == c.var_remap@);
                crate::formula::lemma_selected_ids_sound(|v: crate::var::VarId| copy.sub_var_ids@.contains(v), arena_copy.vars@.len() as int);
                assert forall|x: crate::var::VarId| #[trigger] ids.to_set().contains(x) implies copy.sub_var_ids@.contains(x) by {
                    let k = choose|k: int| 0 <= k < ids.len() && ids[k] == x;
                }
                crate::tseitin::lemma_tseitin_counts(arena.ev(), arena_copy.ev(), formula.root_id, copy.root_id,
                    arena.vars@.len(), ids, cs, copy.sub_var_ids@);
            }
        }
        r
    } else {
        formula.to_clauses(arena)
    }
}

/// The clause representations whose model counts `count_inc_result` combines (see
/// `CountIncCounts`), with the numbers of variables only in the left and only in the right formula.
pub struct CountIncQueries {
    /// The number of variables only in the left formula.
    pub a_vars: usize,
    /// The number of variables only in the right formula.
    pub b_vars: usize,
    /// The left reduction and not the left formula, after Tseitin's transformation.
    pub a2_to_a: Result<Clauses, ClausesError>,
    /// The right reduction and not the right formula, after Tseitin's transformation.
    pub b2_to_b: Result<Clauses, ClausesError>,
    /// Both reductions, transformed by Tseitin's transformation, assuming the left and not the right one.
    pub removed: Result<Clauses, ClausesError>,
    /// Both reductions, transformed by Tseitin's transformation, assuming the right and not the left one.
    pub added: Result<Clauses, ClausesError>,
}

/// Whether `r2` is the reduction of the proto-CNF formula `x` by the variables `foreign` (see
/// `Formula::remove_constraints`): the variables of `x` without `foreign`, and at its root the
/// simplified conjunction of the constraints of `x` that mention none of `foreign`, computed in
/// expressions `ev1` that extend `ev0` and that `ev` extends.
pub open spec fn reduction(r2: Formula, x: Formula, foreign: Set<VarId>, ev0: Seq<ExprV>, ev: Seq<ExprV>) -> bool {
    &&& r2.sub_var_ids@ == x.sub_var_ids@.difference(foreign)
    &&& r2.root_id < ev.len()
    &&& x.root_id < ev0.len()
    &&& exists|ev1: Seq<ExprV>| #[trigger] extends(ev1, ev0) && extends(ev, ev1)
        && crate::arena::simplified(ev1, ExprV::And(crate::formula::unmentioning(ev1, crate::expr::children(ev1[x.root_id as int]), foreign)),
            ev[r2.root_id as int])
}

/// Returns the clause representations whose model counts relate the model count of the right
/// formula `b` to that of the left formula `a` (see `count_inc_value`).
///
/// The reduction of each formula keeps only its constraints that mention no variable foreign to
/// the other formula (`Formula::remove_constraints`). Both formulas must be in proto-CNF.
#[verifier::spinoff_prover]
#[verifier::rlimit(50)]
pub fn count_inc_queries(a: &Formula, b: &Formula, arena: &mut Arena) -> (r: CountIncQueries)
    requires
        old(arena).wf(),
        a.valid_in(old(arena)),
        b.valid_in(old(arena)),
        a.proto_cnf(old(arena)),
        b.proto_cnf(old(arena)),
        old(arena).new_vars is None,
        old(arena).new_exprs is None,
    ensures
        final(arena).wf(),
        final(arena).new_vars is None,
        final(arena).new_exprs is None,
        final(arena).ev().len() >= old(arena).ev().len(),
        extends(final(arena).vv(), old(arena).vv()),
        r.a_vars == a.sub_var_ids@.difference(b.sub_var_ids@).len(),
        r.b_vars == b.sub_var_ids@.difference(a.sub_var_ids@).len(),
        exists|f: Formula, x: Arena| #[trigger] clauses_result(f, x, r.a2_to_a) && f.valid_in(&x)
            && a.sub_var_ids@.subset_of(f.sub_var_ids@),
        exists|f: Formula, x: Arena| #[trigger] clauses_result(f, x, r.b2_to_b) && f.valid_in(&x)
            && b.sub_var_ids@.subset_of(f.sub_var_ids@),
        exists|f: Formula, x: Arena| #[trigger] clauses_result(f, x, r.removed) && f.valid_in(&x)
            && a.sub_var_ids@.intersect(b.sub_var_ids@).subset_of(f.sub_var_ids@),
        exists|f: Formula, x: Arena| #[trigger] clauses_result(f, x, r.added) && f.valid_in(&x)
            && a.sub_var_ids@.intersect(b.sub_var_ids@).subset_of(f.sub_var_ids@),
        crate::tseitin::tseitin_hyp(old(arena).ev()) ==> queries_count(r, old(arena).ev(), a.root_id, b.root_id, old(arena).vars@.len()),
        exists|a2: Formula, g: Formula, f: Formula, x: Arena, y: Arena|
            #![trigger reduction(a2, *a, a.sub_var_ids@.difference(b.sub_var_ids@), old(arena).ev(), y.ev()), clauses_result(f, x, r.a2_to_a), tseitin_done(f, x, g, y)]
            reduction(a2, *a, a.sub_var_ids@.difference(b.sub_var_ids@), old(arena).ev(), y.ev())
            && y.vv() == old(arena).vv() && g.valid_in(&y) && gap_root(y.ev(), g.root_id, a2.root_id, a.root_id)
            && clauses_result(f, x, r.a2_to_a) && tseitin_done(f, x, g, y),
        exists|b2: Formula, g: Formula, f: Formula, x: Arena, y: Arena|
            #![trigger reduction(b2, *b, b.sub_var_ids@.difference(a.sub_var_ids@), old(arena).ev(), y.ev()), clauses_result(f, x, r.b2_to_b), tseitin_done(f, x, g, y)]
            reduction(b2, *b, b.sub_var_ids@.difference(a.sub_var_ids@), old(arena).ev(), y.ev())
            && y.vv() == old(arena).vv() && g.valid_in(&y) && gap_root(y.ev(), g.root_id, b2.root_id, b.root_id)
            && clauses_result(f, x, r.b2_to_b) && tseitin_done(f, x, g, y),
        exists|a2: Formula, b2: Formula, both0: Formula, both: Formula, y0: Arena, y: Arena, f: Formula, x: Arena|
            #![trigger reduction(a2, *a, a.sub_var_ids@.difference(b.sub_var_ids@), old(arena).ev(), y0.ev()),
                reduction(b2, *b, b.sub_var_ids@.difference(a.sub_var_ids@), old(arena).ev(), y0.ev()),
                clauses_result(f, x, r.removed), tseitin_done(both, y, both0, y0)]
            reduction(a2, *a, a.sub_var_ids@.difference(b.sub_var_ids@), old(arena).ev(), y0.ev())
            && reduction(b2, *b, b.sub_var_ids@.difference(a.sub_var_ids@), old(arena).ev(), y0.ev())
            && conjunction(both0, a2, b2, y0.ev()) && y0.vv() == old(arena).vv()
            && tseitin_done(both, y, both0, y0) && clauses_result(f, x, r.removed) && assumed_copy(f, x, both, a2.root_id, b2.root_id),
        exists|a2: Formula, b2: Formula, both0: Formula, both: Formula, y0: Arena, y: Arena, f: Formula, x: Arena|
            #![trigger reduction(a2, *a, a.sub_var_ids@.difference(b.sub_var_ids@), old(arena).ev(), y0.ev()),
                reduction(b2, *b, b.sub_var_ids@.difference(a.sub_var_ids@), old(arena).ev(), y0.ev()),
                clauses_result(f, x, r.added), tseitin_done(both, y, both0, y0)]
            reduction(a2, *a, a.sub_var_ids@.difference(b.sub_var_ids@), old(arena).ev(), y0.ev())
            && reduction(b2, *b, b.sub_var_ids@.difference(a.sub_var_ids@), old(arena).ev(), y0.ev())
            && conjunction(both0, a2, b2, y0.ev()) && y0.vv() == old(arena).vv()
            && tseitin_done(both, y, both0, y0) && clauses_result(f, x, r.added) && assumed_copy(f, x, both, b2.root_id, a2.root_id),
{
    let (_common, a_ids, b_ids) = a.diff_vars(b);
    let a_vars = a_ids.len();
    let b_vars = b_ids.len();
    let a2 = a.remove_constraints(&a_ids, arena);
    let ghost ar1 = *arena;
    let b2 = b.remove_constraints(&b_ids, arena);
    let ghost ar2 = *arena;
    let a2_to_a = reduction_gap(&a2, a, arena);
    let ghost ar3 = *arena;
    let b2_to_b = reduction_gap(&b2, b, arena);
    let ghost ar4 = *arena;
    assert(a2.sub_var_ids@ =~= a.sub_var_ids@.intersect(b.sub_var_ids@));
    let (removed, added) = reductions_differ(&a2, &b2, arena);
    let r = CountIncQueries { a_vars, b_vars, a2_to_a, b2_to_b, removed, added };
    proof {
        assert(exists|a2: Formula, g: Formula, f: Formula, x: Arena, y: Arena|
            #![trigger reduction(a2, *a, a.sub_var_ids@.difference(b.sub_var_ids@), old(arena).ev(), y.ev()), clauses_result(f, x, r.a2_to_a), tseitin_done(f, x, g, y)]
            reduction(a2, *a, a.sub_var_ids@.difference(b.sub_var_ids@), old(arena).ev(), y.ev())
            && y.vv() == old(arena).vv() && g.valid_in(&y) && gap_root(y.ev(), g.root_id, a2.root_id, a.root_id)
            && clauses_result(f, x, r.a2_to_a) && tseitin_done(f, x, g, y)) by {
            let (f, y, g) = choose|f: Formula, y: Arena, g: Formula| #![trigger clauses_result(f, y, a2_to_a), tseitin_done(f, y, g, ar3)]
                clauses_result(f, y, a2_to_a) && tseitin_done(f, y, g, ar3)
                && g.valid_in(&ar3) && gap_root(ar3.ev(), g.root_id, a2.root_id, a.root_id);
            assert(extends(ar1.ev(), old(arena).ev()) && extends(ar3.ev(), ar1.ev())) by {
                assert forall|i: int| 0 <= i < ar1.ev().len() implies #[trigger] ar3.ev()[i] == ar1.ev()[i] by {
                    assert(ar2.ev()[i] == ar1.ev()[i]);
                }
            }
            assert(ar3.ev()[a2.root_id as int] == ar1.ev()[a2.root_id as int]);
            assert(extends(old(arena).ev(), old(arena).ev()));
            assert(extends(ar3.ev(), old(arena).ev())) by {
                assert forall|i: int| 0 <= i < old(arena).ev().len() implies #[trigger] ar3.ev()[i] == old(arena).ev()[i] by {
                    assert(ar1.ev()[i] == old(arena).ev()[i]);
                }
            }
            assert(reduction(a2, *a, a.sub_var_ids@.difference(b.sub_var_ids@), old(arena).ev(), ar3.ev()));
            assert(clauses_result(f, y, r.a2_to_a) && tseitin_done(f, y, g, ar3));
        }
        assert(exists|b2: Formula, g: Formula, f: Formula, x: Arena, y: Arena|
            #![trigger reduction(b2, *b, b.sub_var_ids@.difference(a.sub_var_ids@), old(arena).ev(), y.ev()), clauses_result(f, x, r.b2_to_b), tseitin_done(f, x, g, y)]
            reduction(b2, *b, b.sub_var_ids@.difference(a.sub_var_ids@), old(arena).ev(), y.ev())
            && y.vv() == old(arena).vv() && g.valid_in(&y) && gap_root(y.ev(), g.root_id, b2.root_id, b.root_id)
            && clauses_result(f, x, r.b2_to_b) && tseitin_done(f, x, g, y)) by {
            let (f2, y2, g2) = choose|f: Formula, y: Arena, g: Formula| #![trigger clauses_result(f, y, b2_to_b), tseitin_done(f, y, g, ar4)]
                clauses_result(f, y, b2_to_b) && tseitin_done(f, y, g, ar4)
                && g.valid_in(&ar4) && gap_root(ar4.ev(), g.root_id, b2.root_id, b.root_id);
            assert(extends(ar2.ev(), ar1.ev()) && extends(ar4.ev(), ar2.ev())) by {
                assert forall|i: int| 0 <= i < ar2.ev().len() implies #[trigger] ar4.ev()[i] == ar2.ev()[i] by {
                    assert(ar3.ev()[i] == ar2.ev()[i]);
                }
            }
            assert(ar4.ev()[b2.root_id as int] == ar2.ev()[b2.root_id as int]);
            assert(extends(ar4.ev(), ar1.ev())) by {
                assert forall|i: int| 0 <= i < ar1.ev().len() implies #[trigger] ar4.ev()[i] == ar1.ev()[i] by {
                    assert(ar2.ev()[i] == ar1.ev()[i]);
                }
            }
            assert(ar4.ev()[b2.root_id as int] == ar2.ev()[b2.root_id as int]);
            assert(extends(ar1.ev(), old(arena).ev()));
            assert(reduction(b2, *b, b.sub_var_ids@.difference(a.sub_var_ids@), old(arena).ev(), ar4.ev()));
            assert(clauses_result(f2, y2, r.b2_to_b) && tseitin_done(f2, y2, g2, ar4));
        }
        assert(extends(ar4.ev(), old(arena).ev()) && extends(ar4.ev(), ar1.ev())) by {
            assert forall|i: int| 0 <= i < ar1.ev().len() implies #[trigger] ar4.ev()[i] == ar1.ev()[i] by {
                assert(ar2.ev()[i] == ar1.ev()[i]);
                assert(ar3.ev()[i] == ar2.ev()[i]);
            }
            assert forall|i: int| 0 <= i < old(arena).ev().len() implies #[trigger] ar4.ev()[i] == old(arena).ev()[i] by {
                assert(ar1.ev()[i] == old(arena).ev()[i]);
                assert(ar2.ev()[i] == ar1.ev()[i]);
                assert(ar3.ev()[i] == ar2.ev()[i]);
            }
        }
        let (both0, both, y0, y, f, x) = choose|both0: Formula, both: Formula, y0: Arena, y: Arena, f: Formula, x: Arena|
            #![trigger clauses_result(f, x, removed), tseitin_done(both, y, both0, y0)]
            conjunction(both0, a2, b2, y0.ev()) && extends(y0.ev(), ar4.ev()) && y0.vv() == ar4.vv()
            && tseitin_done(both, y, both0, y0) && clauses_result(f, x, removed) && assumed_copy(f, x, both, a2.root_id, b2.root_id);
        let (both1, bothb, y1, yb, fb, xb) = choose|both0: Formula, both: Formula, y0: Arena, y: Arena, f: Formula, x: Arena|
            #![trigger clauses_result(f, x, added), tseitin_done(both, y, both0, y0)]
            conjunction(both0, a2, b2, y0.ev()) && extends(y0.ev(), ar4.ev()) && y0.vv() == ar4.vv()
            && tseitin_done(both, y, both0, y0) && clauses_result(f, x, added) && assumed_copy(f, x, both, b2.root_id, a2.root_id);
        assert(reduction(a2, *a, a.sub_var_ids@.difference(b.sub_var_ids@), old(arena).ev(), y0.ev())) by {
            assert(extends(y0.ev(), old(arena).ev())) by {
                assert forall|i: int| 0 <= i < old(arena).ev().len() implies #[trigger] y0.ev()[i] == old(arena).ev()[i] by {
                    assert(ar4.ev()[i] == old(arena).ev()[i]);
                }
            }
            assert(y0.ev()[a2.root_id as int] == ar1.ev()[a2.root_id as int]);
            assert(extends(old(arena).ev(), old(arena).ev()));
        }
        assert(reduction(b2, *b, b.sub_var_ids@.difference(a.sub_var_ids@), old(arena).ev(), y0.ev())) by {
            assert(extends(y0.ev(), ar1.ev())) by {
                assert forall|i: int| 0 <= i < ar1.ev().len() implies #[trigger] y0.ev()[i] == ar1.ev()[i] by {
                    assert(ar4.ev()[i] == ar1.ev()[i]);
                }
            }
            assert(y0.ev()[b2.root_id as int] == ar2.ev()[b2.root_id as int]) by {
                assert(ar3.ev()[b2.root_id as int] == ar2.ev()[b2.root_id as int]);
                assert(ar4.ev()[b2.root_id as int] == ar3.ev()[b2.root_id as int]);
            }
            assert(extends(ar1.ev(), old(arena).ev()));
        }
        assert(clauses_result(f, x, r.removed) && tseitin_done(both, y, both0, y0));
        assert(reduction(a2, *a, a.sub_var_ids@.difference(b.sub_var_ids@), old(arena).ev(), y1.ev())) by {
            assert(extends(y1.ev(), old(arena).ev())) by {
                assert forall|i: int| 0 <= i < old(arena).ev().len() implies #[trigger] y1.ev()[i] == old(arena).ev()[i] by {
                    assert(ar4.ev()[i] == old(arena).ev()[i]);
                }
            }
            assert(y1.ev()[a2.root_id as int] == ar1.ev()[a2.root_id as int]);
            assert(extends(old(arena).ev(), old(arena).ev()));
        }
        assert(reduction(b2, *b, b.sub_var_ids@.difference(a.sub_var_ids@), old(arena).ev(), y1.ev())) by {
            assert(extends(y1.ev(), ar1.ev())) by {
                assert forall|i: int| 0 <= i < ar1.ev().len() implies #[trigger] y1.ev()[i] == ar1.ev()[i] by {
                    assert(ar4.ev()[i] == ar1.ev()[i]);
                }
            }
            assert(y1.ev()[b2.root_id as int] == ar2.ev()[b2.root_id as int]) by {
                assert(ar3.ev()[b2.root_id as int] == ar2.ev()[b2.root_id as int]);
                assert(ar4.ev()[b2.root_id as int] == ar3.ev()[b2.root_id as int]);
            }
            assert(extends(ar1.ev(), old(arena).ev()));
        }
        assert(clauses_result(fb, xb, r.added) && tseitin_done(bothb, yb, both1, y1));
        if crate::tseitin::tseitin_hyp(old(arena).ev()) {
            let n = old(arena).vars@.len();
            assert(implied_by(ar2.ev(), a2.root_id, a.root_id)) by {
                assert forall|value: spec_fn(ExprId) -> bool, assignment: spec_fn(VarId) -> bool|
                    #[trigger] evaluates(ar2.ev(), value, assignment) && value(a.root_id) implies value(a2.root_id) by {
                    lemma_evaluates_prefix(ar2.ev(), ar1.ev(), value, assignment);
                }
            }
            assert(weakenings(ar2.ev(), old(arena).ev(), a2.root_id, b2.root_id, a.root_id, b.root_id));
            assert(extends(ar4.ev(), ar2.ev())) by {
                assert forall|i: int| 0 <= i < ar2.ev().len() implies #[trigger] ar4.ev()[i] == ar2.ev()[i] by {
                    assert(ar3.ev()[i] == ar2.ev()[i]);
                }
            }
            if a2_to_a is Ok {
                let c = a2_to_a->Ok_0;
                let (g, ids) = choose|g: ExprId, ids: Seq<VarId>|
                    g < ar3.ev().len()
                    && gap_root(ar3.ev(), g, a2.root_id, a.root_id)
                    && remap_of(ids) == c.var_remap@
                    && #[trigger] counts_models(clauses_view(c.clauses@), ids, ar3.ev(), g, ar2.vars@.len());
                lemma_difference_of_gap(clauses_view(c.clauses@), ids, ar2.ev(), ar3.ev(), g, a2.root_id, a.root_id, n);
            }
            if b2_to_b is Ok {
                let c = b2_to_b->Ok_0;
                let (g, ids) = choose|g: ExprId, ids: Seq<VarId>|
                    g < ar4.ev().len()
                    && gap_root(ar4.ev(), g, b2.root_id, b.root_id)
                    && remap_of(ids) == c.var_remap@
                    && #[trigger] counts_models(clauses_view(c.clauses@), ids, ar4.ev(), g, ar3.vars@.len());
                lemma_difference_of_gap(clauses_view(c.clauses@), ids, ar2.ev(), ar4.ev(), g, b2.root_id, b.root_id, n);
            }
            if removed is Ok {
                let c = removed->Ok_0;
                let ids = choose|ids: Seq<VarId>| #[trigger] remap_of(ids) == c.var_remap@
                    && counts_difference(clauses_view(c.clauses@), ids, ar4.ev(), a2.root_id, b2.root_id, n);
                lemma_difference_prefix(clauses_view(c.clauses@), ids, ar2.ev(), ar4.ev(), a2.root_id, b2.root_id, n);
            }
            if added is Ok {
                let c = added->Ok_0;
                let ids = choose|ids: Seq<VarId>| #[trigger] remap_of(ids) == c.var_remap@
                    && counts_difference(clauses_view(c.clauses@), ids, ar4.ev(), b2.root_id, a2.root_id, n);
                lemma_difference_prefix(clauses_view(c.clauses@), ids, ar2.ev(), ar4.ev(), b2.root_id, a2.root_id, n);
            }
            assert(counted_difference(r.a2_to_a, ar2.ev(), a2.root_id, a.root_id, n));
            assert(counted_difference(r.b2_to_b, ar2.ev(), b2.root_id, b.root_id, n));
            assert(counted_difference(r.removed, ar2.ev(), a2.root_id, b2.root_id, n));
            assert(counted_difference(r.added, ar2.ev(), b2.root_id, a2.root_id, n));
            assert(queries_count(r, old(arena).ev(), a.root_id, b.root_id, n));
        }
    }
    r
}

/// Returns the clause representation, after Tseitin's transformation, of the solutions of a
/// formula's reduction `x2` that are no solutions of the formula `x` (see `clauses_for_count`).
fn reduction_gap(x2: &Formula, x: &Formula, arena: &mut Arena) -> (r: Result<Clauses, ClausesError>)
    requires
        old(arena).wf(),
        x2.valid_in(old(arena)),
        x.valid_in(old(arena)),
        old(arena).new_vars is None,
        old(arena).new_exprs is None,
    ensures
        final(arena).wf(),
        final(arena).new_vars is None,
        final(arena).new_exprs is None,
        extends(final(arena).ev(), old(arena).ev()),
        final(arena).vars == old(arena).vars,
        exists|f: Formula, y: Arena| #[trigger] clauses_result(f, y, r) && f.valid_in(&y)
            && x.sub_var_ids@.subset_of(f.sub_var_ids@),
        crate::tseitin::tseitin_hyp(old(arena).ev()) ==> crate::tseitin::tseitin_hyp(final(arena).ev()),
        crate::tseitin::tseitin_hyp(old(arena).ev()) ==> (r matches Ok(c) ==> exists|g: crate::expr::ExprId, ids: Seq<crate::var::VarId>|
            g < final(arena).ev().len()
            && gap_root(final(arena).ev(), g, x2.root_id, x.root_id)
            && crate::clauses::remap_of(ids) == c.var_remap@
            && #[trigger] crate::tseitin::counts_models(crate::clauses::clauses_view(c.clauses@), ids, final(arena).ev(), g, old(arena).vars@.len())),
        exists|f: Formula, y: Arena, g: Formula| #![trigger clauses_result(f, y, r), tseitin_done(f, y, g, *final(arena))]
            clauses_result(f, y, r) && tseitin_done(f, y, g, *final(arena))
            && g.valid_in(final(arena)) && gap_root(final(arena).ev(), g.root_id, x2.root_id, x.root_id),
{
    let gap = x2.and_not(x, arena);
    let r = clauses_for_count(&gap, arena, true);
    proof {
        let (f, y) = choose|f: Formula, y: Arena| #[trigger] clauses_result(f, y, r) && y.wf() && f.valid_in(&y)
            && gap.sub_var_ids@.subset_of(f.sub_var_ids@) && y.ev().len() >= arena.ev().len() && extends(y.vv(), arena.vv())
            && tseitin_done(f, y, gap, *arena);
        assert(gap_root(arena.ev(), gap.root_id, x2.root_id, x.root_id));
        assert(clauses_result(f, y, r) && tseitin_done(f, y, gap, *arena));
        if crate::tseitin::tseitin_hyp(old(arena).ev()) && r is Ok {
            let c = r->Ok_0;
            let ids = choose|ids: Seq<crate::var::VarId>| #[trigger] crate::clauses::remap_of(ids) == c.var_remap@
                && crate::tseitin::counts_models(crate::clauses::clauses_view(c.clauses@), ids, arena.ev(), gap.root_id, arena.vars@.len());
            assert(gap_root(arena.ev(), gap.root_id, x2.root_id, x.root_id));
        }
    }
    r
}

/// Whether the clauses `cs` over the variables `ids` count the models of the expressions `ev` in
/// which `x2` holds and `x` does not: every solution of the clauses is such a model, every such
/// model extends to a solution of the clauses (keeping the variables below `n_vars`), and
/// solutions that agree on the variables below `n_vars` agree on all of `ids`.
pub open spec fn counts_difference(cs: Seq<Seq<VarId>>, ids: Seq<VarId>, ev: Seq<ExprV>, x2: ExprId, x: ExprId, n_vars: nat) -> bool {
    &&& forall|value: spec_fn(ExprId) -> bool, assignment: spec_fn(VarId) -> bool|
        #[trigger] evaluates(ev, value, assignment) && satisfies(cs, ids, assignment) ==> value(x2) && !value(x)
    &&& forall|value: spec_fn(ExprId) -> bool, assignment: spec_fn(VarId) -> bool|
        #[trigger] evaluates(ev, value, assignment) && value(x2) && !value(x)
        ==> exists|assignment2: spec_fn(VarId) -> bool| agree_on(assignment2, assignment, n_vars) && #[trigger] satisfies(cs, ids, assignment2)
    &&& forall|assignment1: spec_fn(VarId) -> bool, assignment2: spec_fn(VarId) -> bool|
        #[trigger] satisfies(cs, ids, assignment1) && #[trigger] satisfies(cs, ids, assignment2) && agree_on(assignment1, assignment2, n_vars)
        ==> agree_on_set(assignment1, assignment2, ids.to_set())
}

/// Whether the clause representation `r`, where there is one, counts the models of the
/// expressions `ev` in which `x2` holds and `x` does not (see `counts_difference`).
pub open spec fn counted_difference(r: Result<Clauses, ClausesError>, ev: Seq<ExprV>, x2: ExprId, x: ExprId, n_vars: nat) -> bool {
    r matches Ok(c) ==> exists|ids: Seq<VarId>| #[trigger] remap_of(ids) == c.var_remap@
        && counts_difference(clauses_view(c.clauses@), ids, ev, x2, x, n_vars)
}

/// Whether `a2` and `b2` are expressions of `ev`, an extension of `ev0`, that hold wherever `a`
/// and `b` hold, respectively.
pub open spec fn weakenings(ev: Seq<ExprV>, ev0: Seq<ExprV>, a2: ExprId, b2: ExprId, a: ExprId, b: ExprId) -> bool {
    &&& extends(ev, ev0)
    &&& a2 < ev.len()
    &&& b2 < ev.len()
    &&& implied_by(ev, a2, a)
    &&& implied_by(ev, b2, b)
}

/// Whether the queries `q` count what `count_inc_value` combines, for the formulas with roots `a`
/// and `b` in the expressions `ev0`: for reductions `a2` and `b2` that hold wherever `a` and `b`
/// hold, the clauses count the models of `a2` and not `a`, of `b2` and not `b`, of `a2` and not
/// `b2`, and of `b2` and not `a2` (up to the variables below `n_vars`).
pub open spec fn queries_count(q: CountIncQueries, ev0: Seq<ExprV>, a: ExprId, b: ExprId, n_vars: nat) -> bool {
    exists|ev: Seq<ExprV>, a2: ExprId, b2: ExprId| #[trigger] weakenings(ev, ev0, a2, b2, a, b)
        && counted_difference(q.a2_to_a, ev, a2, a, n_vars)
        && counted_difference(q.b2_to_b, ev, b2, b, n_vars)
        && counted_difference(q.removed, ev, a2, b2, n_vars)
        && counted_difference(q.added, ev, b2, a2, n_vars)
}

/// Clauses that count the models of an expression `g` meaning `x2` and not `x` count, in expressions
/// that `big` extends, the models in which `x2` holds and `x` does not.
proof fn lemma_difference_of_gap(cs: Seq<Seq<VarId>>, ids: Seq<VarId>, ev: Seq<ExprV>, big: Seq<ExprV>, g: ExprId,
    x2: ExprId, x: ExprId, n_vars: nat)
    requires
        acyclic(ev),
        acyclic(big),
        extends(big, ev),
        x2 < ev.len(),
        x < ev.len(),
        gap_root(big, g, x2, x),
        counts_models(cs, ids, big, g, n_vars),
    ensures
        counts_difference(cs, ids, ev, x2, x, n_vars),
{
    let (rank, bound) = choose|rank: spec_fn(ExprId) -> nat, bound: nat| #[trigger] ranked(big, rank, bound);
    let (rank0, bound0) = choose|rank: spec_fn(ExprId) -> nat, bound: nat| #[trigger] ranked(ev, rank, bound);
    assert forall|value: spec_fn(ExprId) -> bool, assignment: spec_fn(VarId) -> bool|
        #[trigger] evaluates(ev, value, assignment) && satisfies(cs, ids, assignment) implies value(x2) && !value(x) by {
        law_acyclic_meaning_unique(big, rank, bound, assignment);
        let w = choose|w: spec_fn(ExprId) -> bool| #[trigger] evaluates(big, w, assignment);
        lemma_evaluates_prefix(big, ev, w, assignment);
        law_acyclic_meaning_unique(ev, rank0, bound0, assignment);
        assert(agrees(w, value, ev.len()));
        assert(w(g));
        assert(w(x2) == value(x2) && w(x) == value(x));
    }
    assert forall|value: spec_fn(ExprId) -> bool, assignment: spec_fn(VarId) -> bool|
        #[trigger] evaluates(ev, value, assignment) && value(x2) && !value(x)
        implies exists|assignment2: spec_fn(VarId) -> bool| agree_on(assignment2, assignment, n_vars) && #[trigger] satisfies(cs, ids, assignment2) by {
        law_acyclic_meaning_unique(big, rank, bound, assignment);
        let w = choose|w: spec_fn(ExprId) -> bool| #[trigger] evaluates(big, w, assignment);
        lemma_evaluates_prefix(big, ev, w, assignment);
        law_acyclic_meaning_unique(ev, rank0, bound0, assignment);
        assert(agrees(w, value, ev.len()));
        assert(w(x2) == value(x2) && w(x) == value(x));
        assert(w(g));
    }
}

/// What clauses count of the models of some expressions they count of the models of a prefix
/// that holds `x2` and `x`.
proof fn lemma_difference_prefix(cs: Seq<Seq<VarId>>, ids: Seq<VarId>, small: Seq<ExprV>, big: Seq<ExprV>,
    x2: ExprId, x: ExprId, n_vars: nat)
    requires
        acyclic(small),
        acyclic(big),
        extends(big, small),
        x2 < small.len(),
        x < small.len(),
        counts_difference(cs, ids, big, x2, x, n_vars),
    ensures
        counts_difference(cs, ids, small, x2, x, n_vars),
{
    let (rank, bound) = choose|rank: spec_fn(ExprId) -> nat, bound: nat| #[trigger] ranked(big, rank, bound);
    let (rank0, bound0) = choose|rank: spec_fn(ExprId) -> nat, bound: nat| #[trigger] ranked(small, rank, bound);
    assert forall|value: spec_fn(ExprId) -> bool, assignment: spec_fn(VarId) -> bool|
        #[trigger] evaluates(small, value, assignment) && satisfies(cs, ids, assignment) implies value(x2) && !value(x) by {
        law_acyclic_meaning_unique(big, rank, bound, assignment);
        let w = choose|w: spec_fn(ExprId) -> bool| #[trigger] evaluates(big, w, assignment);
        lemma_evaluates_prefix(big, small, w, assignment);
        law_acyclic_meaning_unique(small, rank0, bound0, assignment);
        assert(agrees(w, value, small.len()));
        assert(w(x2) == value(x2) && w(x) == value(x));
    }
    assert forall|value: spec_fn(ExprId) -> bool, assignment: spec_fn(VarId) -> bool|
        #[trigger] evaluates(small, value, assignment) && value(x2) && !value(x)
        implies exists|assignment2: spec_fn(VarId) -> bool| agree_on(assignment2, assignment, n_vars) && #[trigger] satisfies(cs, ids, assignment2) by {
        law_acyclic_meaning_unique(big, rank, bound, assignment);
        let w = choose|w: spec_fn(ExprId) -> bool| #[trigger] evaluates(big, w, assignment);
        lemma_evaluates_prefix(big, small, w, assignment);
        law_acyclic_meaning_unique(small, rank0, bound0, assignment);
        assert(agrees(w, value, small.len()));
        assert(w(x2) == value(x2) && w(x) == value(x));
    }
}

/// The clauses of the definitions `defs` of Tseitin's transformation (not assuming the root),
/// conjoined with an expression `g` that means `x2` and not `x`, count the models of the
/// expressions `e1` before the transformation in which `x2` holds and `x` does not.
proof fn lemma_assumed_difference(e1: Seq<ExprV>, e2: Seq<ExprV>, fin: Seq<ExprV>, defs: ExprId, g: ExprId,
    x2: ExprId, x: ExprId, n_vars: nat, cs: Seq<Seq<VarId>>, ids: Seq<VarId>, vars: Set<VarId>)
    requires
        acyclic(e1),
        acyclic(e2),
        acyclic(fin),
        extends(fin, e2),
        e1.len() <= e2.len(),
        defs < e2.len(),
        x2 < e1.len(),
        x < e1.len(),
        forall|value: spec_fn(ExprId) -> bool, assignment: spec_fn(VarId) -> bool|
            #[trigger] evaluates(e2, value, assignment) && value(defs) ==> evaluates(e1, value, assignment),
        forall|value: spec_fn(ExprId) -> bool, assignment: spec_fn(VarId) -> bool|
            #[trigger] evaluates(e1, value, assignment)
            ==> exists|value2: spec_fn(ExprId) -> bool, assignment2: spec_fn(VarId) -> bool|
                #[trigger] evaluates(e2, value2, assignment2) && value2(defs)
                && agree_on(assignment2, assignment, n_vars)
                && agrees(value2, value, e1.len()),
        forall|value1: spec_fn(ExprId) -> bool, value2: spec_fn(ExprId) -> bool,
            assignment1: spec_fn(VarId) -> bool, assignment2: spec_fn(VarId) -> bool|
            #[trigger] evaluates(e2, value1, assignment1) && #[trigger] evaluates(e2, value2, assignment2)
            && value1(defs) && value2(defs)
            && agree_on(assignment1, assignment2, n_vars)
            ==> agree_on_set(assignment1, assignment2, vars),
        gap_root(fin, g, x2, x),
        forall|value: spec_fn(ExprId) -> bool, assignment: spec_fn(VarId) -> bool|
            #[trigger] evaluates(fin, value, assignment) ==> satisfies(cs, ids, assignment) == (value(defs) && value(g)),
        forall|v: VarId| #[trigger] ids.to_set().contains(v) ==> vars.contains(v),
    ensures
        counts_difference(cs, ids, e1, x2, x, n_vars),
{
    lemma_assumed_sound(e1, e2, fin, defs, g, x2, x, cs, ids);
    lemma_assumed_complete(e1, e2, fin, defs, g, x2, x, n_vars, cs, ids);
    lemma_assumed_unique(e2, fin, defs, g, n_vars, cs, ids, vars);
}

/// Every solution of the assumed clauses is a model of `x2` and not `x` (see
/// `lemma_assumed_difference`).
proof fn lemma_assumed_sound(e1: Seq<ExprV>, e2: Seq<ExprV>, fin: Seq<ExprV>, defs: ExprId, g: ExprId,
    x2: ExprId, x: ExprId, cs: Seq<Seq<VarId>>, ids: Seq<VarId>)
    requires
        acyclic(e1),
        acyclic(fin),
        extends(fin, e2),
        x2 < e1.len(),
        x < e1.len(),
        forall|value: spec_fn(ExprId) -> bool, assignment: spec_fn(VarId) -> bool|
            #[trigger] evaluates(e2, value, assignment) && value(defs) ==> evaluates(e1, value, assignment),
        gap_root(fin, g, x2, x),
        forall|value: spec_fn(ExprId) -> bool, assignment: spec_fn(VarId) -> bool|
            #[trigger] evaluates(fin, value, assignment) ==> satisfies(cs, ids, assignment) == (value(defs) && value(g)),
    ensures
        forall|value: spec_fn(ExprId) -> bool, assignment: spec_fn(VarId) -> bool|
            #[trigger] evaluates(e1, value, assignment) && satisfies(cs, ids, assignment) ==> value(x2) && !value(x),
{
    let (rank1, bound1) = choose|rank: spec_fn(ExprId) -> nat, bound: nat| #[trigger] ranked(e1, rank, bound);
    let (rank, bound) = choose|rank: spec_fn(ExprId) -> nat, bound: nat| #[trigger] ranked(fin, rank, bound);
    assert forall|value: spec_fn(ExprId) -> bool, assignment: spec_fn(VarId) -> bool|
        #[trigger] evaluates(e1, value, assignment) && satisfies(cs, ids, assignment) implies value(x2) && !value(x) by {
        law_acyclic_meaning_unique(fin, rank, bound, assignment);
        let w = choose|w: spec_fn(ExprId) -> bool| #[trigger] evaluates(fin, w, assignment);
        lemma_evaluates_prefix(fin, e2, w, assignment);
        assert(w(defs) && w(g));
        assert(evaluates(e1, w, assignment));
        law_acyclic_meaning_unique(e1, rank1, bound1, assignment);
        assert(agrees(w, value, e1.len()));
        assert(w(x2) == value(x2) && w(x) == value(x));
    }
}

/// Every model of `x2` and not `x` extends to a solution of the assumed clauses (see
/// `lemma_assumed_difference`).
proof fn lemma_assumed_complete(e1: Seq<ExprV>, e2: Seq<ExprV>, fin: Seq<ExprV>, defs: ExprId, g: ExprId,
    x2: ExprId, x: ExprId, n_vars: nat, cs: Seq<Seq<VarId>>, ids: Seq<VarId>)
    requires
        acyclic(e2),
        acyclic(fin),
        extends(fin, e2),
        e1.len() <= e2.len(),
        defs < e2.len(),
        x2 < e1.len(),
        x < e1.len(),
        forall|value: spec_fn(ExprId) -> bool, assignment: spec_fn(VarId) -> bool|
            #[trigger] evaluates(e1, value, assignment)
            ==> exists|value2: spec_fn(ExprId) -> bool, assignment2: spec_fn(VarId) -> bool|
                #[trigger] evaluates(e2, value2, assignment2) && value2(defs)
                && agree_on(assignment2, assignment, n_vars)
                && agrees(value2, value, e1.len()),
        gap_root(fin, g, x2, x),
        forall|value: spec_fn(ExprId) -> bool, assignment: spec_fn(VarId) -> bool|
            #[trigger] evaluates(fin, value, assignment) ==> satisfies(cs, ids, assignment) == (value(defs) && value(g)),
    ensures
        forall|value: spec_fn(ExprId) -> bool, assignment: spec_fn(VarId) -> bool|
            #[trigger] evaluates(e1, value, assignment) && value(x2) && !value(x)
            ==> exists|assignment2: spec_fn(VarId) -> bool| agree_on(assignment2, assignment, n_vars) && #[trigger] satisfies(cs, ids, assignment2),
{
    let (rank2, bound2) = choose|rank: spec_fn(ExprId) -> nat, bound: nat| #[trigger] ranked(e2, rank, bound);
    let (rank, bound) = choose|rank: spec_fn(ExprId) -> nat, bound: nat| #[trigger] ranked(fin, rank, bound);
    assert forall|value: spec_fn(ExprId) -> bool, assignment: spec_fn(VarId) -> bool|
        #[trigger] evaluates(e1, value, assignment) && value(x2) && !value(x)
        implies exists|assignment2: spec_fn(VarId) -> bool| agree_on(assignment2, assignment, n_vars) && #[trigger] satisfies(cs, ids, assignment2) by {
        let (v2, asg2) = choose|value2: spec_fn(ExprId) -> bool, assignment2: spec_fn(VarId) -> bool|
            #[trigger] evaluates(e2, value2, assignment2) && value2(defs)
            && agree_on(assignment2, assignment, n_vars)
            && agrees(value2, value, e1.len());
        law_acyclic_meaning_unique(fin, rank, bound, asg2);
        let w = choose|w: spec_fn(ExprId) -> bool| #[trigger] evaluates(fin, w, asg2);
        lemma_evaluates_prefix(fin, e2, w, asg2);
        law_acyclic_meaning_unique(e2, rank2, bound2, asg2);
        assert(agrees(w, v2, e2.len()));
        assert(w(x2) == value(x2) && w(x) == value(x));
        assert(w(defs) && w(g));
        assert(satisfies(cs, ids, asg2));
    }
}

/// Solutions of the assumed clauses that agree on the variables below `n_vars` agree on all of
/// them (see `lemma_assumed_difference`).
proof fn lemma_assumed_unique(e2: Seq<ExprV>, fin: Seq<ExprV>, defs: ExprId, g: ExprId,
    n_vars: nat, cs: Seq<Seq<VarId>>, ids: Seq<VarId>, vars: Set<VarId>)
    requires
        acyclic(fin),
        extends(fin, e2),
        forall|value1: spec_fn(ExprId) -> bool, value2: spec_fn(ExprId) -> bool,
            assignment1: spec_fn(VarId) -> bool, assignment2: spec_fn(VarId) -> bool|
            #[trigger] evaluates(e2, value1, assignment1) && #[trigger] evaluates(e2, value2, assignment2)
            && value1(defs) && value2(defs)
            && agree_on(assignment1, assignment2, n_vars)
            ==> agree_on_set(assignment1, assignment2, vars),
        forall|value: spec_fn(ExprId) -> bool, assignment: spec_fn(VarId) -> bool|
            #[trigger] evaluates(fin, value, assignment) ==> satisfies(cs, ids, assignment) == (value(defs) && value(g)),
        forall|v: VarId| #[trigger] ids.to_set().contains(v) ==> vars.contains(v),
    ensures
        forall|assignment1: spec_fn(VarId) -> bool, assignment2: spec_fn(VarId) -> bool|
            #[trigger] satisfies(cs, ids, assignment1) && #[trigger] satisfies(cs, ids, assignment2) && agree_on(assignment1, assignment2, n_vars)
            ==> agree_on_set(assignment1, assignment2, ids.to_set()),
{
    let (rank, bound) = choose|rank: spec_fn(ExprId) -> nat, bound: nat| #[trigger] ranked(fin, rank, bound);
    assert forall|assignment1: spec_fn(VarId) -> bool, assignment2: spec_fn(VarId) -> bool|
        #[trigger] satisfies(cs, ids, assignment1) && #[trigger] satisfies(cs, ids, assignment2) && agree_on(assignment1, assignment2, n_vars)
        implies agree_on_set(assignment1, assignment2, ids.to_set()) by {
        law_acyclic_meaning_unique(fin, rank, bound, assignment1);
        law_acyclic_meaning_unique(fin, rank, bound, assignment2);
        let w1 = choose|w: spec_fn(ExprId) -> bool| #[trigger] evaluates(fin, w, assignment1);
        let w2 = choose|w: spec_fn(ExprId) -> bool| #[trigger] evaluates(fin, w, assignment2);
        lemma_evaluates_prefix(fin, e2, w1, assignment1);
        lemma_evaluates_prefix(fin, e2, w2, assignment2);
        assert(w1(defs) && w2(defs));
        assert(agree_on_set(assignment1, assignment2, vars));
    }
}

/// Whether `x2` holds wherever `x` holds.
pub open spec fn implied_by(ev: Seq<crate::expr::ExprV>, x2: crate::expr::ExprId, x: crate::expr::ExprId) -> bool {
    forall|value: spec_fn(crate::expr::ExprId) -> bool, assignment: spec_fn(crate::var::VarId) -> bool|
        #[trigger] crate::meaning::evaluates(ev, value, assignment) ==> (value(x) ==> value(x2))
}

/// Whether the expression `g` means that `x2` holds and `x` does not.
pub open spec fn gap_root(ev: Seq<crate::expr::ExprV>, g: crate::expr::ExprId, x2: crate::expr::ExprId, x: crate::expr::ExprId) -> bool {
    forall|value: spec_fn(crate::expr::ExprId) -> bool, assignment: spec_fn(crate::var::VarId) -> bool|
        #[trigger] crate::meaning::evaluates(ev, value, assignment) ==> value(g) == (value(x2) && !value(x))
}

/// Whether `c` is the conjunction of the formulas `x` and `y` (see `Formula::and`): over the
/// variables of both, with the simplified conjunction of their roots at its root, computed in
/// expressions that `ev` extends.
pub open spec fn conjunction(c: Formula, x: Formula, y: Formula, ev: Seq<ExprV>) -> bool {
    &&& c.sub_var_ids@ == x.sub_var_ids@.union(y.sub_var_ids@)
    &&& c.root_id < ev.len()
    &&& exists|ev1: Seq<ExprV>| #[trigger] extends(ev, ev1)
        && crate::arena::simplified(ev1, ExprV::And(seq![x.root_id, y.root_id]), ev[c.root_id as int])
}

/// Whether `f` in `z` is the formula `both` that additionally assumes `x` and not `y` (see
/// `Formula::assuming`): over the variables of `both`, with the simplified, flattened conjunction of
/// the root of `both` and an expression that holds exactly where `x` holds and `y` does not.
pub open spec fn assumed_copy(f: Formula, z: Arena, both: Formula, x: ExprId, y: ExprId) -> bool {
    &&& f.sub_var_ids@ == both.sub_var_ids@
    &&& f.valid_in(&z)
    &&& exists|id: ExprId, ev1: Seq<ExprV>| #![trigger gap_root(z.ev(), id, x, y), extends(z.ev(), ev1)]
        id < ev1.len() && gap_root(z.ev(), id, x, y) && extends(z.ev(), ev1)
        && crate::arena::simplified(ev1, crate::arena::flattened(ev1, ExprV::And(seq![both.root_id, id])), z.ev()[f.root_id as int])
}

/// Returns the clause representations of the solutions of one reduction that are no solutions of
/// the other: both reductions are conjoined and transformed by Tseitin's transformation (without
/// assuming the root), then the left and not the right one, and the right and not the left one
/// are assumed.
fn reductions_differ(a2: &Formula, b2: &Formula, arena: &mut Arena) -> (r: (Result<Clauses, ClausesError>, Result<Clauses, ClausesError>))
    requires
        old(arena).wf(),
        a2.valid_in(old(arena)),
        b2.valid_in(old(arena)),
        old(arena).new_vars is None,
        old(arena).new_exprs is None,
    ensures
        final(arena).wf(),
        final(arena).new_vars is None,
        final(arena).new_exprs is None,
        final(arena).ev().len() >= old(arena).ev().len(),
        extends(final(arena).vv(), old(arena).vv()),
        exists|f: Formula, y: Arena| #[trigger] clauses_result(f, y, r.0) && f.valid_in(&y)
            && a2.sub_var_ids@.subset_of(f.sub_var_ids@) && b2.sub_var_ids@.subset_of(f.sub_var_ids@),
        exists|f: Formula, y: Arena| #[trigger] clauses_result(f, y, r.1) && f.valid_in(&y)
            && a2.sub_var_ids@.subset_of(f.sub_var_ids@) && b2.sub_var_ids@.subset_of(f.sub_var_ids@),
        crate::tseitin::tseitin_hyp(old(arena).ev()) ==> counted_difference(r.0, old(arena).ev(), a2.root_id, b2.root_id, old(arena).vars@.len()),
        crate::tseitin::tseitin_hyp(old(arena).ev()) ==> counted_difference(r.1, old(arena).ev(), b2.root_id, a2.root_id, old(arena).vars@.len()),
        exists|both0: Formula, both: Formula, y0: Arena, y: Arena, f: Formula, x: Arena|
            #![trigger clauses_result(f, x, r.0), tseitin_done(both, y, both0, y0)]
            conjunction(both0, *a2, *b2, y0.ev()) && extends(y0.ev(), old(arena).ev()) && y0.vv() == old(arena).vv()
            && tseitin_done(both, y, both0, y0) && clauses_result(f, x, r.0) && assumed_copy(f, x, both, a2.root_id, b2.root_id),
        exists|both0: Formula, both: Formula, y0: Arena, y: Arena, f: Formula, x: Arena|
            #![trigger clauses_result(f, x, r.1), tseitin_done(both, y, both0, y0)]
            conjunction(both0, *a2, *b2, y0.ev()) && extends(y0.ev(), old(arena).ev()) && y0.vv() == old(arena).vv()
            && tseitin_done(both, y, both0, y0) && clauses_result(f, x, r.1) && assumed_copy(f, x, both, b2.root_id, a2.root_id),
{
    let ghost e0 = arena.ev();
    let mut both = a2.and(b2, arena);
    let ghost ar1 = *arena;
    let ghost both0 = both;
    both.to_cnf_tseitin(false, arena);
    let ghost ar2 = *arena;
    assert(tseitin_done(both, ar2, both0, ar1)) by {
        let (arenas, steps) = choose|arenas: Seq<Arena>, steps: Seq<(crate::visit::Visitor, ExprId)>| #[trigger] crate::visit::visit_trace(arenas, steps)
            && arenas[0].ev() == ar1.ev() && arenas[0].vars == ar1.vars
            && extends(ar2.ev(), arenas.last().ev())
            && (forall|k: int| 0 <= k < steps.len() ==> #[trigger] steps[k].0 == crate::visit::Visitor::Nothing || steps[k].0 == crate::visit::Visitor::Tseitin)
            && (forall|z: ExprId| crate::visit::reaches(ar1.ev(), both0.root_id, z) ==> #[trigger] steps.contains((crate::visit::Visitor::Tseitin, z)))
            && forall|k: int| 0 <= k < steps.len() ==> crate::visit::reaches(ar1.ev(), both0.root_id, #[trigger] steps[k].1);
        assert(arenas[0].vv() == ar1.vv());
    }
    assert(conjunction(both0, *a2, *b2, ar1.ev())) by {
        assert(extends(ar1.ev(), e0));
    }
    assert(a2.sub_var_ids@.subset_of(both.sub_var_ids@));
    assert(b2.sub_var_ids@.subset_of(both.sub_var_ids@));
    let removed = assumed_clauses(&both, a2, b2, arena);
    let ghost ar3 = *arena;
    let added = assumed_clauses(&both, b2, a2, arena);
    let ghost ar4 = *arena;
    let r = (removed, added);
    proof {
        let f1 = choose|f: Formula| #[trigger] clauses_result(f, ar3, removed) && assumed_copy(f, ar3, both, a2.root_id, b2.root_id);
        assert(clauses_result(f1, ar3, r.0) && tseitin_done(both, ar2, both0, ar1));
        let f2 = choose|f: Formula| #[trigger] clauses_result(f, ar4, added) && assumed_copy(f, ar4, both, b2.root_id, a2.root_id);
        assert(clauses_result(f2, ar4, r.1) && tseitin_done(both, ar2, both0, ar1));
        let (f, y) = choose|f: Formula, y: Arena| #[trigger] clauses_result(f, y, removed) && f.valid_in(&y)
            && a2.sub_var_ids@.subset_of(f.sub_var_ids@) && b2.sub_var_ids@.subset_of(f.sub_var_ids@);
        assert(clauses_result(f, y, r.0));
        let (g, z) = choose|g: Formula, z: Arena| #[trigger] clauses_result(g, z, added) && g.valid_in(&z)
            && b2.sub_var_ids@.subset_of(g.sub_var_ids@) && a2.sub_var_ids@.subset_of(g.sub_var_ids@);
        assert(clauses_result(g, z, r.1));
        if crate::tseitin::tseitin_hyp(e0) {
            let n = e0.len();
            let nv = old(arena).vars@.len();
            assert(extends(ar4.ev(), ar2.ev())) by {
                assert forall|i: int| 0 <= i < ar2.ev().len() implies #[trigger] ar4.ev()[i] == ar2.ev()[i] by {
                    assert(ar3.ev()[i] == ar2.ev()[i]);
                }
            }
            if removed is Ok {
                let c = removed->Ok_0;
                let (g, ids) = choose|g: ExprId, ids: Seq<VarId>|
                    #[trigger] assumed_meaning(ar3.ev(), c, ids, g, both.root_id, a2.root_id, b2.root_id, both.sub_var_ids@);
                lemma_assumed_difference(ar1.ev(), ar2.ev(), ar3.ev(), both.root_id, g, a2.root_id, b2.root_id, nv,
                    clauses_view(c.clauses@), ids, both.sub_var_ids@);
                lemma_difference_prefix(clauses_view(c.clauses@), ids, e0, ar1.ev(), a2.root_id, b2.root_id, nv);
                assert(counted_difference(r.0, e0, a2.root_id, b2.root_id, nv));
            }
            if added is Ok {
                let c = added->Ok_0;
                let (g, ids) = choose|g: ExprId, ids: Seq<VarId>|
                    #[trigger] assumed_meaning(ar4.ev(), c, ids, g, both.root_id, b2.root_id, a2.root_id, both.sub_var_ids@);
                lemma_assumed_difference(ar1.ev(), ar2.ev(), ar4.ev(), both.root_id, g, b2.root_id, a2.root_id, nv,
                    clauses_view(c.clauses@), ids, both.sub_var_ids@);
                lemma_difference_prefix(clauses_view(c.clauses@), ids, e0, ar1.ev(), b2.root_id, a2.root_id, nv);
                assert(counted_difference(r.1, e0, b2.root_id, a2.root_id, nv));
            }
        }
    }
    r
}

/// Whether the clause representation `c` over the variables `ids` (all of them in `vars`) means
/// that `defs` holds and so does `g`, an expression of `ev` that means `x2` and not `x`.
spec fn assumed_meaning(ev: Seq<ExprV>, c: Clauses, ids: Seq<VarId>, g: ExprId, defs: ExprId, x2: ExprId, x: ExprId, vars: Set<VarId>) -> bool {
    &&& remap_of(ids) == c.var_remap@
    &&& g < ev.len()
    &&& gap_root(ev, g, x2, x)
    &&& forall|v: VarId| #[trigger] ids.to_set().contains(v) ==> vars.contains(v)
    &&& forall|value: spec_fn(ExprId) -> bool, assignment: spec_fn(VarId) -> bool|
        #[trigger] evaluates(ev, value, assignment) ==> satisfies(clauses_view(c.clauses@), ids, assignment) == (value(defs) && value(g))
}

/// Returns the clause representation of a formula `both` that additionally assumes `x` and not `y`.
fn assumed_clauses(both: &Formula, x: &Formula, y: &Formula, arena: &mut Arena) -> (r: Result<Clauses, ClausesError>)
    requires
        old(arena).wf(),
        both.valid_in(old(arena)),
        x.valid_in(old(arena)),
        y.valid_in(old(arena)),
        x.sub_var_ids@.subset_of(both.sub_var_ids@),
        y.sub_var_ids@.subset_of(both.sub_var_ids@),
        old(arena).new_vars is None,
        old(arena).new_exprs is None,
    ensures
        final(arena).wf(),
        final(arena).new_vars is None,
        final(arena).new_exprs is None,
        extends(final(arena).ev(), old(arena).ev()),
        final(arena).vars == old(arena).vars,
        crate::tseitin::tseitin_hyp(old(arena).ev()) ==> crate::tseitin::tseitin_hyp(final(arena).ev()),
        exists|f: Formula, z: Arena| #[trigger] clauses_result(f, z, r) && f.valid_in(&z)
            && x.sub_var_ids@.subset_of(f.sub_var_ids@) && y.sub_var_ids@.subset_of(f.sub_var_ids@),
        r matches Ok(c) ==> exists|g: ExprId, ids: Seq<VarId>|
            #[trigger] assumed_meaning(final(arena).ev(), c, ids, g, both.root_id, x.root_id, y.root_id, both.sub_var_ids@),
        exists|f: Formula| #[trigger] clauses_result(f, *final(arena), r) && assumed_copy(f, *final(arena), *both, x.root_id, y.root_id),
{
    let id = x.and_not_expr(y, arena);
    let ghost a1 = *arena;
    let f = both.assuming(id, arena);
    let r = clauses_for_count(&f, arena, false);
    assert(clauses_result(f, *arena, r));
    proof {
        assert(gap_root(arena.ev(), id, x.root_id, y.root_id)) by {
            assert forall|value: spec_fn(ExprId) -> bool, assignment: spec_fn(VarId) -> bool|
                #[trigger] evaluates(arena.ev(), value, assignment) implies value(id) == (value(x.root_id) && !value(y.root_id)) by {
                lemma_evaluates_prefix(arena.ev(), a1.ev(), value, assignment);
            }
        }
        assert(extends(arena.ev(), a1.ev()));
        assert(assumed_copy(f, *arena, *both, x.root_id, y.root_id));
        if r is Ok {
            let c = r->Ok_0;
            let ids = crate::clauses::formula_var_ids(&f, arena);
            assert(remap_of(ids) == c.var_remap@);
            crate::formula::lemma_selected_ids_sound(|v: VarId| f.sub_var_ids@.contains(v), arena.vars@.len() as int);
            assert forall|v: VarId| #[trigger] ids.to_set().contains(v) implies both.sub_var_ids@.contains(v) by {
                let k = choose|k: int| 0 <= k < ids.len() && ids[k] == v;
            }
            assert forall|value: spec_fn(ExprId) -> bool, assignment: spec_fn(VarId) -> bool|
                #[trigger] evaluates(arena.ev(), value, assignment) implies value(id) == (value(x.root_id) && !value(y.root_id)) by {
                lemma_evaluates_prefix(arena.ev(), a1.ev(), value, assignment);
            }
            assert(assumed_meaning(arena.ev(), c, ids, id, both.root_id, x.root_id, y.root_id, both.sub_var_ids@));
        }
    }
    r
}

} // verus!

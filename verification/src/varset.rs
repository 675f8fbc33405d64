//! Operations on sets of identifiers.

use std::collections::HashSet;
use vstd::prelude::*;
use vstd::std_specs::iter::IteratorSpec;
use std::hash::Hash;

verus! {

broadcast use vstd::std_specs::hash::group_hash_axioms;

/// Returns the elements of a set, in unspecified order and without duplicates.
pub fn set_to_vec<T: Copy + Eq + Hash>(s: &HashSet<T>) -> (r: Vec<T>)
    requires
        vstd::std_specs::hash::obeys_key_model::<T>(),
    ensures
        r@.to_set() == s@,
        r@.no_duplicates(),
        r@.len() == s@.len(),
{
    let ghost all = vstd::std_specs::hash::spec_hash_keys_iter(s).remaining().unref();
    let mut r: Vec<T> = Vec::new();
    for x in it: s.iter()
        invariant
            it.seq().unref() == all,
            r@ == all.take(it.index() as int),
            all.to_set() == s@,
            all.no_duplicates(),
            all.len() == s@.len(),
    {
        r.push(*x);
        assert(r@ =~= all.take(it.index() + 1));
    }
    assert(r@ =~= all);
    r
}


/// Inserts all elements of a sequence into a set.
pub fn insert_all<T: Copy + Eq + Hash>(s: &mut HashSet<T>, xs: &Vec<T>)
    requires
        vstd::std_specs::hash::obeys_key_model::<T>(),
    ensures
        final(s)@ == old(s)@.union(xs@.to_set()),
{
    let mut i: usize = 0;
    while i < xs.len()
        invariant
            vstd::std_specs::hash::obeys_key_model::<T>(),
            i <= xs.len(),
            s@ == old(s)@.union(xs@.take(i as int).to_set()),
        decreases xs.len() - i,
    {
        s.insert(xs[i]);
        i = i + 1;
        assert(xs@.take(i as int).to_set() =~= xs@.take(i - 1).to_set().insert(xs@[i - 1])) by {
            assert(xs@.take(i as int) == xs@.take(i - 1).push(xs@[i - 1]));
            xs@.take(i - 1).lemma_push_to_set_commute(xs@[i - 1]);
        }
        assert(s@ =~= old(s)@.union(xs@.take(i as int).to_set()));
    }
    assert(xs@.take(xs.len() as int) == xs@);
}

/// Returns a set holding the elements of a sequence.
pub fn set_from_vec<T: Copy + Eq + Hash>(xs: &Vec<T>) -> (r: HashSet<T>)
    requires
        vstd::std_specs::hash::obeys_key_model::<T>(),
    ensures
        r@ == xs@.to_set(),
{
    let mut r: HashSet<T> = HashSet::new();
    insert_all(&mut r, xs);
    assert(r@ =~= xs@.to_set());
    r
}

/// Returns a copy of a set.
pub fn copy_set<T: Copy + Eq + Hash>(s: &HashSet<T>) -> (r: HashSet<T>)
    requires
        vstd::std_specs::hash::obeys_key_model::<T>(),
    ensures
        r@ == s@,
{
    let v = set_to_vec(s);
    set_from_vec(&v)
}

/// Returns the elements of `a` that satisfy membership (or non-membership) in `b`.
fn filter_by<T: Copy + Eq + Hash>(a: &HashSet<T>, b: &HashSet<T>, keep_members: bool) -> (r: HashSet<T>)
    requires
        vstd::std_specs::hash::obeys_key_model::<T>(),
    ensures
        keep_members ==> r@ == a@.intersect(b@),
        !keep_members ==> r@ == a@.difference(b@),
{
    let v = set_to_vec(a);
    let mut r: HashSet<T> = HashSet::new();
    let mut i: usize = 0;
    while i < v.len()
        invariant
            vstd::std_specs::hash::obeys_key_model::<T>(),
            i <= v.len(),
            v@.to_set() == a@,
            forall|x: T| #[trigger] r@.contains(x) <==> (v@.take(i as int).contains(x) && (b@.contains(x) == keep_members)),
        decreases v.len() - i,
    {
        let x = v[i];
        if b.contains(&x) == keep_members {
            r.insert(x);
        }
        i = i + 1;
        assert forall|y: T| #[trigger] r@.contains(y) <==> (v@.take(i as int).contains(y) && (b@.contains(y) == keep_members)) by {
            assert(v@.take(i as int) == v@.take(i - 1).push(x));
            if v@.take(i - 1).contains(y) {
                let k = choose|k: int| 0 <= k < i - 1 && #[trigger] v@.take(i - 1)[k] == y;
                assert(v@.take(i as int)[k] == y);
            }
            if v@.take(i as int).contains(y) && y != x {
                let k = choose|k: int| 0 <= k < i && #[trigger] v@.take(i as int)[k] == y;
                assert(v@.take(i - 1)[k] == y);
            }
            assert(v@.take(i as int)[i - 1] == x);
        }
    }
    assert(v@.take(v.len() as int) == v@);
    if keep_members {
        assert(r@ =~= a@.intersect(b@));
    } else {
        assert(r@ =~= a@.difference(b@));
    }
    r
}

/// Returns the intersection of two sets.
pub fn intersection<T: Copy + Eq + Hash>(a: &HashSet<T>, b: &HashSet<T>) -> (r: HashSet<T>)
    requires
        vstd::std_specs::hash::obeys_key_model::<T>(),
    ensures
        r@ == a@.intersect(b@),
{
    filter_by(a, b, true)
}

/// Returns the difference of two sets.
pub fn difference<T: Copy + Eq + Hash>(a: &HashSet<T>, b: &HashSet<T>) -> (r: HashSet<T>)
    requires
        vstd::std_specs::hash::obeys_key_model::<T>(),
    ensures
        r@ == a@.difference(b@),
{
    filter_by(a, b, false)
}

/// Returns the union of two sets.
pub fn union<T: Copy + Eq + Hash>(a: &HashSet<T>, b: &HashSet<T>) -> (r: HashSet<T>)
    requires
        vstd::std_specs::hash::obeys_key_model::<T>(),
    ensures
        r@ == a@.union(b@),
{
    let mut r = copy_set(a);
    let v = set_to_vec(b);
    insert_all(&mut r, &v);
    r
}

/// Returns whether every element of one set is in another.
pub fn is_subset<T: Copy + Eq + Hash>(a: &HashSet<T>, b: &HashSet<T>) -> (r: bool)
    requires
        vstd::std_specs::hash::obeys_key_model::<T>(),
    ensures
        r == a@.subset_of(b@),
{
    let v = set_to_vec(a);
    let mut i: usize = 0;
    while i < v.len()
        invariant
            vstd::std_specs::hash::obeys_key_model::<T>(),
            i <= v.len(),
            v@.to_set() == a@,
            forall|k: int| 0 <= k < i ==> b@.contains(#[trigger] v@[k]),
        decreases v.len() - i,
    {
        if !b.contains(&v[i]) {
            assert(a@.contains(v@[i as int]));
            return false;
        }
        i = i + 1;
    }
    assert forall|x: T| a@.contains(x) implies b@.contains(x) by {
        assert(v@.to_set().contains(x));
        let k = choose|k: int| 0 <= k < v@.len() && v@[k] == x;
    }
    true
}

/// Returns whether two sets are equal.
pub fn set_eq<T: Copy + Eq + Hash>(a: &HashSet<T>, b: &HashSet<T>) -> (r: bool)
    requires
        vstd::std_specs::hash::obeys_key_model::<T>(),
    ensures
        r == (a@ == b@),
{
    let r = is_subset(a, b) && is_subset(b, a);
    if r {
        assert(a@ =~= b@);
    }
    r
}

} // verus!

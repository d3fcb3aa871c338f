//! Hash sets and hash maps that hash with FNV-1a.
//!
//! `FnvHashSet` and `FnvHashMap` are the standard library's tables with the
//! hasher of the `fnv` crate in place of the default one. The functions of
//! this file make the calls into them. Their contracts are not proved
//! here: each states, over the table's view, what the called method is
//! documented to do.
use fnv::FnvHashMap;
use fnv::FnvHashSet;
use fnv::FnvHasher;
use std::collections::HashSet;
use std::hash::BuildHasherDefault;
use std::hash::Hash;
use vstd::prelude::*;
use vstd::std_specs::hash::obeys_key_model;
use vstd::std_specs::iter::IteratorSpec;

verus! {

/// `fnv::FnvHasher`, the state of one FNV-1a hash computation.
#[verifier::external_type_specification]
#[verifier::external_body]
pub struct ExFnvHasher(FnvHasher);

/// `std::hash::BuildHasherDefault`, which makes each hasher with `Default`.
#[verifier::external_type_specification]
#[verifier::external_body]
#[verifier::reject_recursive_types(H)]
pub struct ExBuildHasherDefault<H>(BuildHasherDefault<H>);

/// `HashSet::with_capacity_and_hasher` with the default FNV hasher: a set
/// that holds nothing.
#[verifier::external_body]
pub(crate) fn set_with_capacity<T: Eq + Hash>(capacity: usize) -> (s: FnvHashSet<T>)
    ensures
        s@ == Set::<T>::empty(),
{
    HashSet::with_capacity_and_hasher(capacity, Default::default())
}

/// `HashSet::insert`: adds `value` to the set and returns whether it was
/// not there before.
#[verifier::external_body]
pub(crate) fn set_insert<T: Eq + Hash>(s: &mut FnvHashSet<T>, value: T) -> (fresh: bool)
    requires
        obeys_key_model::<T>(),
    ensures
        final(s)@ == old(s)@.insert(value),
        fresh == !old(s)@.contains(value),
{
    s.insert(value)
}

/// `HashSet::contains`: whether the set holds `value`.
#[verifier::external_body]
pub(crate) fn set_contains<T: Eq + Hash>(s: &FnvHashSet<T>, value: &T) -> (found: bool)
    requires
        obeys_key_model::<T>(),
    ensures
        found == s@.contains(*value),
{
    s.contains(value)
}

/// `HashSet::remove`: takes `value` out of the set and returns whether it
/// was there.
#[verifier::external_body]
pub(crate) fn set_remove<T: Eq + Hash>(s: &mut FnvHashSet<T>, value: &T) -> (found: bool)
    requires
        obeys_key_model::<T>(),
    ensures
        final(s)@ == old(s)@.remove(*value),
        found == old(s)@.contains(*value),
{
    s.remove(value)
}

/// `HashSet::is_empty`: whether the set holds nothing.
#[verifier::external_body]
pub(crate) fn set_is_empty<T: Eq + Hash>(s: &FnvHashSet<T>) -> (empty: bool)
    requires
        obeys_key_model::<T>(),
    ensures
        empty == (s@ == Set::<T>::empty()),
{
    s.is_empty()
}

/// `HashSet::capacity`: how many elements the set can hold without
/// reallocating. Nothing is claimed of the number.
#[verifier::external_body]
pub(crate) fn set_capacity<T: Eq + Hash>(s: &FnvHashSet<T>) -> (capacity: usize) {
    s.capacity()
}

/// `HashSet::shrink_to_fit`: gives spare capacity back and keeps the
/// elements.
#[verifier::external_body]
pub(crate) fn set_shrink_to_fit<T: Eq + Hash>(s: &mut FnvHashSet<T>)
    ensures
        final(s)@ == old(s)@,
{
    s.shrink_to_fit()
}

/// `HashSet::iter`, copied out: every element of the set once, in an order
/// that is not specified.
#[verifier::external_body]
pub(crate) fn set_items<T: Eq + Hash + Copy>(s: &FnvHashSet<T>) -> (items: Vec<T>)
    requires
        obeys_key_model::<T>(),
    ensures
        items@.to_set() == s@,
        items@.no_duplicates(),
{
    s.iter().copied().collect()
}

/// `HashSet::drain`, collected: empties the set and hands every element
/// out once, in an order that is not specified.
#[verifier::external_body]
pub(crate) fn set_drain<T: Eq + Hash>(s: &mut FnvHashSet<T>) -> (items: Vec<T>)
    requires
        obeys_key_model::<T>(),
    ensures
        final(s)@ == Set::<T>::empty(),
        items@.to_set() == old(s)@,
        items@.no_duplicates(),
{
    s.drain().collect()
}

/// `HashMap::get`: the value stored under `key`, if there is one.
#[verifier::external_body]
pub(crate) fn map_get<'a, K: Eq + Hash, V>(m: &'a FnvHashMap<K, V>, key: &K) -> (value: Option<&'a V>)
    requires
        obeys_key_model::<K>(),
    ensures
        match value {
            Some(v) => m@.contains_key(*key) && *v == m@[*key],
            None => !m@.contains_key(*key),
        },
{
    m.get(key)
}

/// `HashMap::contains_key`: whether a value is stored under `key`.
#[verifier::external_body]
pub(crate) fn map_contains_key<K: Eq + Hash, V>(m: &FnvHashMap<K, V>, key: &K) -> (found: bool)
    requires
        obeys_key_model::<K>(),
    ensures
        found == m@.contains_key(*key),
{
    m.contains_key(key)
}

/// `HashMap::insert`: stores `value` under `key` and returns what was
/// stored there before.
#[verifier::external_body]
pub(crate) fn map_insert<K: Eq + Hash, V>(m: &mut FnvHashMap<K, V>, key: K, value: V) -> (before:
    Option<V>)
    requires
        obeys_key_model::<K>(),
    ensures
        final(m)@ == old(m)@.insert(key, value),
        match before {
            Some(v) => old(m)@.contains_key(key) && v == old(m)@[key],
            None => !old(m)@.contains_key(key),
        },
{
    m.insert(key, value)
}

/// `HashMap::remove`: takes the entry of `key` out of the map and returns
/// its value, if there was one.
#[verifier::external_body]
pub(crate) fn map_remove<K: Eq + Hash, V>(m: &mut FnvHashMap<K, V>, key: &K) -> (before: Option<V>)
    requires
        obeys_key_model::<K>(),
    ensures
        final(m)@ == old(m)@.remove(*key),
        match before {
            Some(v) => old(m)@.contains_key(*key) && v == old(m)@[*key],
            None => !old(m)@.contains_key(*key),
        },
{
    m.remove(key)
}

/// A hash map holds finitely many keys.
pub proof fn lemma_map_finite<K, V>(m: &FnvHashMap<K, V>)
    ensures
        m@.dom().finite(),
{
    vstd::std_specs::hash::axiom_spec_keys_iter(m);
    let keys = vstd::std_specs::hash::spec_keys_iter(m).remaining().unref();
    vstd::seq_lib::seq_to_set_is_finite(keys);
}

} // verus!

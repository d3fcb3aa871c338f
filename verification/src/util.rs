//! Small containers used by the engine.
use fnv::FnvHashSet;
use std::hash::Hash;
use vstd::laws_eq::obeys_concrete_eq;
use vstd::prelude::*;
use vstd::std_specs::hash::obeys_key_model;
use vstd::std_specs::iter::IteratorSpec;
use crate::fnv_table::set_capacity;
use crate::fnv_table::set_contains;
use crate::fnv_table::set_drain;
use crate::fnv_table::set_insert;
use crate::fnv_table::set_is_empty;
use crate::fnv_table::set_items;
use crate::fnv_table::set_remove;
use crate::fnv_table::set_shrink_to_fit;
use crate::fnv_table::set_with_capacity;

verus! {

/// The elements among the first `i + 1` of a sequence are those among the
/// first `i`, and the one at `i`. If the sequence holds nothing twice, the
/// one at `i` is not among the first `i`.
pub proof fn lemma_take_step<T>(s: Seq<T>, i: int)
    requires
        0 <= i < s.len(),
    ensures
        s.take(i + 1).to_set() == s.take(i).to_set().insert(s[i]),
        s.to_set().contains(s[i]),
        s.no_duplicates() ==> !s.take(i).to_set().contains(s[i]),
{
    assert(s.take(i + 1) =~= s.take(i).push(s[i]));
    s.take(i).lemma_push_to_set_commute(s[i]);
    if s.no_duplicates() && s.take(i).to_set().contains(s[i]) {
        let j = choose|j: int| 0 <= j < s.take(i).len() && s.take(i)[j] == s[i];
        assert(s[j] == s[i]);
    }
}

/// None of a sequence's elements are among its first zero, and all of them
/// are among its first `len`.
pub proof fn lemma_take_ends<T>(s: Seq<T>)
    ensures
        s.take(0).to_set() == Set::<T>::empty(),
        s.take(s.len() as int) == s,
{
    assert(s.take(0).to_set() =~= Set::<T>::empty());
    assert(s.take(s.len() as int) =~= s);
}

/// The capacity that a `TightSet` starts with and never shrinks below.
pub const MIN_TIGHT_SET_CAPACITY: usize = 4;

/// A hash set that gives memory back as it empties.
///
/// Its view is the mathematical set of its elements. How much memory it
/// holds is not part of the view: shrinking never changes the elements.
pub struct TightSet<T: Hash + Eq> {
    set: FnvHashSet<T>,
}

impl<T: Hash + Eq> View for TightSet<T> {
    type V = Set<T>;

    closed spec fn view(&self) -> Set<T> {
        self.set@
    }
}

impl<T: Hash + Eq> TightSet<T> {
    /// The elements of a `TightSet` are finitely many.
    pub proof fn lemma_finite(&self)
        ensures
            self@.finite(),
    {
        vstd::std_specs::hash::axiom_spec_hash_keys_iter(&self.set);
        let s = vstd::std_specs::hash::spec_hash_keys_iter(&self.set).remaining().unref();
        vstd::seq_lib::seq_to_set_is_finite(s);
    }

    /// An empty set.
    pub fn new() -> (r: TightSet<T>)
        ensures
            r@ == Set::<T>::empty(),
    {
        TightSet { set: set_with_capacity(MIN_TIGHT_SET_CAPACITY) }
    }

    /// Adds `value`. Returns whether it was not in the set before.
    pub fn insert(&mut self, value: T) -> (r: bool)
        requires
            obeys_key_model::<T>(),
        ensures
            final(self)@ == old(self)@.insert(value),
            r == !old(self)@.contains(value),
    {
        set_insert(&mut self.set, value)
    }

    /// Whether the set holds `value`.
    pub fn contains(&self, value: &T) -> (r: bool)
        requires
            obeys_key_model::<T>(),
        ensures
            r == self@.contains(*value),
    {
        set_contains(&self.set, value)
    }

    /// Takes `value` out. Returns whether it was in the set. After a
    /// removal that leaves the set at most a quarter full, spare memory is
    /// given back.
    pub fn remove(&mut self, value: &T) -> (r: bool)
        requires
            obeys_key_model::<T>(),
        ensures
            final(self)@ == old(self)@.remove(*value),
            r == old(self)@.contains(*value),
    {
        let success = set_remove(&mut self.set, value);
        if success {
            let capacity = set_capacity(&self.set);
            if capacity > MIN_TIGHT_SET_CAPACITY && capacity / 4 >= self.set.len() {
                set_shrink_to_fit(&mut self.set);
            }
        }
        success
    }

    /// Every element once, in an order that is not specified.
    pub fn iter(&self) -> (r: Vec<T>)
        where T: Copy
        requires
            obeys_key_model::<T>(),
        ensures
            r@.to_set() == self@,
            r@.no_duplicates(),
    {
        set_items(&self.set)
    }

    /// Empties the set and returns every element once, in an order that is
    /// not specified.
    pub fn drain(&mut self) -> (r: Vec<T>)
        requires
            obeys_key_model::<T>(),
        ensures
            final(self)@ == Set::<T>::empty(),
            r@.to_set() == old(self)@,
            r@.no_duplicates(),
    {
        set_drain(&mut self.set)
    }

    /// Whether the set holds nothing.
    pub fn is_empty(&self) -> (r: bool)
        requires
            obeys_key_model::<T>(),
        ensures
            r == (self@ == Set::<T>::empty()),
    {
        set_is_empty(&self.set)
    }

    /// Empties the set, and drops its memory where it had grown.
    pub fn clear(&mut self)
        ensures
            final(self)@ == Set::<T>::empty(),
    {
        if set_capacity(&self.set) <= MIN_TIGHT_SET_CAPACITY {
            self.set.clear();
        } else {
            self.set = set_with_capacity(MIN_TIGHT_SET_CAPACITY);
        }
    }
}

/// A sequence of size 1 or 2 that may be iterated over and is not
/// heap-allocated.
#[derive(PartialEq, Eq, Debug)]
pub enum OneOrTwo<T: Copy + Eq> {
    /// One value.
    One(T),
    /// Two values, in order.
    Two(T, T),
}

impl<T: Copy + Eq> View for OneOrTwo<T> {
    type V = Seq<T>;

    open spec fn view(&self) -> Seq<T> {
        match *self {
            OneOrTwo::One(a) => seq![a],
            OneOrTwo::Two(a, b) => seq![a, b],
        }
    }
}

impl<T: Copy + Eq> OneOrTwo<T> {
    /// Whether `id` is one of the values.
    pub open spec fn has(self, id: T) -> bool {
        match self {
            OneOrTwo::One(a) => a == id,
            OneOrTwo::Two(a, b) => a == id || b == id,
        }
    }

    /// The value that stands beside `id`: none beside a single value, the
    /// second beside the first, else the first.
    pub open spec fn spec_other_id(self, id: T) -> Option<T> {
        match self {
            OneOrTwo::One(_) => None,
            OneOrTwo::Two(a, b) => if a == id { Some(b) } else { Some(a) },
        }
    }

    /// Given one of the values, the other one, if there is another.
    pub fn other_id(self, id: T) -> (r: Option<T>)
        requires
            obeys_concrete_eq::<T>(),
            self.has(id),
        ensures
            r == self.spec_other_id(id),
    {
        proof {
            reveal(obeys_concrete_eq);
        }
        match self {
            OneOrTwo::One(_) => None,
            OneOrTwo::Two(id_1, id_2) => {
                if id_1 == id {
                    Some(id_2)
                } else {
                    Some(id_1)
                }
            },
        }
    }

    /// An iterator over the one or two values, in order.
    pub fn iter(self) -> (r: Iter<T>)
        ensures
            r.spec_items() == self@,
            r.spec_index() == 0,
    {
        Iter { one_or_two: self, index: 0 }
    }
}

/// Walks the values of a [`OneOrTwo`].
pub struct Iter<T: Copy + Eq> {
    one_or_two: OneOrTwo<T>,
    index: u8,
}

impl<T: Copy + Eq> Iter<T> {
    /// All the values that are walked, in order.
    pub closed spec fn spec_items(self) -> Seq<T> {
        self.one_or_two@
    }

    /// How many values have been handed out.
    pub closed spec fn spec_index(self) -> int {
        self.index as int
    }

    /// The iterator never counts beyond the values it has.
    pub open spec fn wf(self) -> bool {
        0 <= self.spec_index() <= self.spec_items().len()
    }

    /// Returns the next value, or `None` when all have been handed out.
    pub fn next(&mut self) -> (r: Option<T>)
        requires
            old(self).wf(),
        ensures
            final(self).wf(),
            final(self).spec_items() == old(self).spec_items(),
            old(self).spec_index() < old(self).spec_items().len() ==> {
                &&& r == Some(old(self).spec_items()[old(self).spec_index()])
                &&& final(self).spec_index() == old(self).spec_index() + 1
            },
            old(self).spec_index() >= old(self).spec_items().len() ==> {
                &&& r is None
                &&& final(self).spec_index() == old(self).spec_index()
            },
    {
        let result = match self.one_or_two {
            OneOrTwo::One(val) => if self.index == 0 { Some(val) } else { None },
            OneOrTwo::Two(a, b) => if self.index == 0 {
                Some(a)
            } else if self.index == 1 {
                Some(b)
            } else {
                None
            },
        };
        if result.is_some() {
            self.index += 1
        }
        result
    }
}

} // verus!

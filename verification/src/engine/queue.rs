//! The ordered store behind the event queue.
use std::collections::BTreeMap;
use vstd::prelude::*;
use vstd::std_specs::btree::axiom_increasing_seq_meaning;
use vstd::std_specs::btree::axiom_spec_keys_iter;
use vstd::std_specs::btree::spec_keys_iter;
use vstd::std_specs::cmp::OrdSpec;
use vstd::std_specs::iter::IteratorSpec;

verus! {

/// Whether `code` is the least key of `queue`.
pub open spec fn is_head<V>(queue: Map<u128, V>, code: u128) -> bool {
    &&& queue.contains_key(code)
    &&& forall|other: u128| queue.contains_key(other) ==> code <= other
}

/// The least key of the ordered map, `None` when the map is empty.
pub fn first_code<V>(events: &BTreeMap<u128, V>) -> (r: Option<u128>)
    ensures
        match r {
            Some(code) => is_head(events@, code),
            None => events@.dom() =~= Set::<u128>::empty(),
        },
{
    let mut r: Option<u128> = None;
    for k in it: events.keys()
        invariant
            r is None,
            it.index() == 0,
    {
        r = Some(*k);
        proof {
            let s = it.seq();
            assert(s[0] == k);
            assert(s == spec_keys_iter(events).remaining());
            axiom_spec_keys_iter(events);
            axiom_increasing_seq_meaning::<&u128>(s);
            assert(s.unref()[0] == *k);
            assert(s.unref().to_set().contains(*k));
            assert forall|j: u128| events@.contains_key(j) implies *k <= j by {
                assert(s.unref().to_set().contains(j));
                let i = choose|i: int| 0 <= i < s.len() && s.unref()[i] == j;
                if i > 0 {
                    assert(OrdSpec::cmp_spec(&s[0], &s[i]) is Less);
                }
            }
        }
        return r;
    }
    r
}

} // verus!

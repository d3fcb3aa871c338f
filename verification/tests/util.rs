use collider::util::OneOrTwo;
use collider::util::TightSet;

#[test]
fn one_or_two_other_id() {
    assert_eq!(OneOrTwo::One(4).other_id(4), None);
    assert_eq!(OneOrTwo::Two(4, 9).other_id(4), Some(9));
    assert_eq!(OneOrTwo::Two(4, 9).other_id(9), Some(4));
    assert_eq!(OneOrTwo::Two(4, 4).other_id(4), Some(4));
}

#[test]
fn one_or_two_iterates_in_order() {
    let mut iter = OneOrTwo::One(3).iter();
    assert_eq!(iter.next(), Some(3));
    assert_eq!(iter.next(), None);
    assert_eq!(iter.next(), None);
    let mut iter = OneOrTwo::Two(3, 1).iter();
    assert_eq!(iter.next(), Some(3));
    assert_eq!(iter.next(), Some(1));
    assert_eq!(iter.next(), None);
    assert_eq!(iter.next(), None);
}

#[test]
fn tight_set_insert_contains_remove() {
    let mut set: TightSet<u64> = TightSet::new();
    assert!(set.is_empty());
    assert!(!set.contains(&5));
    assert!(set.insert(5));
    assert!(!set.insert(5));
    assert!(set.insert(6));
    assert!(set.contains(&5));
    assert!(set.contains(&6));
    assert!(!set.contains(&7));
    assert!(!set.is_empty());
    assert!(set.remove(&5));
    assert!(!set.remove(&5));
    assert!(!set.contains(&5));
    assert!(set.contains(&6));
    assert!(set.remove(&6));
    assert!(set.is_empty());
}

#[test]
fn tight_set_iter_lists_every_element_once() {
    let mut set: TightSet<u128> = TightSet::new();
    for value in [10u128, 20, 30, 20, 10] {
        set.insert(value);
    }
    let mut items = set.iter();
    items.sort();
    assert_eq!(items, vec![10, 20, 30]);
    assert!(set.contains(&20));
}

#[test]
fn tight_set_drain_empties_the_set() {
    let mut set: TightSet<u64> = TightSet::new();
    set.insert(1);
    set.insert(2);
    let mut items = set.drain();
    items.sort();
    assert_eq!(items, vec![1, 2]);
    assert!(set.is_empty());
    assert_eq!(set.iter(), Vec::<u64>::new());
    assert!(set.insert(1));
}

#[test]
fn tight_set_keeps_its_elements_when_it_shrinks() {
    let mut set: TightSet<u64> = TightSet::new();
    for value in 0..1000u64 {
        assert!(set.insert(value));
    }
    for value in 0..990u64 {
        assert!(set.remove(&value));
    }
    let mut items = set.iter();
    items.sort();
    assert_eq!(items, (990..1000u64).collect::<Vec<u64>>());
    for value in 990..1000u64 {
        assert!(set.contains(&value));
    }
}

#[test]
fn tight_set_clear() {
    let mut set: TightSet<u64> = TightSet::new();
    set.insert(1);
    set.clear();
    assert!(set.is_empty());
    for value in 0..100u64 {
        set.insert(value);
    }
    set.clear();
    assert!(set.is_empty());
    assert!(!set.contains(&50));
    assert!(set.insert(50));
}

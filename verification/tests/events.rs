use collider::engine::events::EventManager;
use collider::engine::events::InternalEvent;
use collider::engine::key::EventKey;
use collider::engine::key::PAIR_BASE;
use collider::engine::record::put;
use collider::engine::record::HitboxInfo;
use collider::engine::record::Records;
use collider::engine::HbProfile;
use collider::time::HIGH_TIME;
use collider::time::INFINITY;
use collider::util::OneOrTwo;
use collider::util::TightSet;
use std::cmp::Ordering;

#[derive(Copy, Clone, PartialEq, Eq, Debug)]
struct Plain {
    id: u64,
}

impl HbProfile for Plain {
    fn spec_id(&self) -> u64 {
        self.id
    }
    fn spec_group(&self) -> Option<u32> {
        Some(0)
    }
    fn spec_interact_groups(&self) -> &'static [u32] {
        &[0]
    }
    fn spec_can_interact(&self, _other: &Plain) -> bool {
        true
    }
    fn id(&self) -> u64 {
        self.id
    }
    fn group(&self) -> Option<u32> {
        Some(0)
    }
    fn interact_groups(&self) -> &'static [u32] {
        &[0]
    }
    fn can_interact(&self, _other: &Plain) -> bool {
        true
    }
}

fn table(ids: &[u64]) -> Records<Plain, ()> {
    let mut map: Records<Plain, ()> = Records::default();
    for &id in ids {
        put(&mut map, id, HitboxInfo::new((), Plain { id }, None));
    }
    map
}

fn keys_of(map: &Records<Plain, ()>, id: u64) -> Vec<u128> {
    let mut keys = map[&id].event_keys.iter();
    keys.sort();
    keys
}

#[test]
fn key_code_round_trip() {
    let key = EventKey { time: 0x4022_0000_0000_0000, index: 17 };
    let code = key.code();
    assert_eq!(code, (0x4022_0000_0000_0000u128 << 64) | 17);
    let back = EventKey::from_code(code);
    assert_eq!(back.time, key.time);
    assert_eq!(back.index, key.index);
    assert_eq!(back.time(), 0x4022_0000_0000_0000);
    let top = EventKey { time: u64::MAX, index: u64::MAX };
    assert_eq!(top.code(), u128::MAX);
    assert_eq!(EventKey::from_code(0).index, 0);
}

#[test]
fn keys_are_ordered_by_time_then_index() {
    let early = EventKey { time: 5, index: 9 };
    let late = EventKey { time: 6, index: 1 };
    let tie = EventKey { time: 5, index: 10 };
    assert!(early.lt(&late));
    assert!(!late.lt(&early));
    assert!(early.lt(&tie));
    assert!(!tie.lt(&early));
    assert!(!early.lt(&early));
    assert!(early.code() < late.code());
    assert!(early.code() < tie.code());
}

#[test]
fn keys_compare_by_time_then_index() {
    let early = EventKey { time: 5, index: 9 };
    let late = EventKey { time: 6, index: 1 };
    let tie = EventKey { time: 5, index: 10 };
    assert_eq!(early.partial_cmp(&late), Some(Ordering::Less));
    assert_eq!(late.partial_cmp(&early), Some(Ordering::Greater));
    assert_eq!(early.partial_cmp(&tie), Some(Ordering::Less));
    assert_eq!(tie.partial_cmp(&early), Some(Ordering::Greater));
    assert_eq!(early.partial_cmp(&early), Some(Ordering::Equal));
    assert!(early < late && early <= tie && late > tie);
}

#[test]
fn keys_are_equal_by_index() {
    let a = EventKey { time: 5, index: 9 };
    let b = EventKey { time: 7, index: 9 };
    let c = EventKey { time: 5, index: 10 };
    assert!(a == b);
    assert!(a != c);
}

#[test]
fn pair_bit() {
    assert!(!EventKey { time: 1, index: 0 }.is_pair());
    assert!(!EventKey { time: 1, index: PAIR_BASE - 1 }.is_pair());
    assert!(EventKey { time: 1, index: PAIR_BASE }.is_pair());
}

#[test]
fn internal_event_ids() {
    assert_eq!(InternalEvent::Reiterate(3).involved_hitbox_ids(), OneOrTwo::One(3));
    assert_eq!(InternalEvent::PanicSmallHitbox(4).involved_hitbox_ids(), OneOrTwo::One(4));
    assert_eq!(InternalEvent::PanicDurationPassed(5).involved_hitbox_ids(), OneOrTwo::One(5));
    assert_eq!(InternalEvent::Collide(1, 2).involved_hitbox_ids(), OneOrTwo::Two(1, 2));
    assert_eq!(InternalEvent::Separate(2, 1).involved_hitbox_ids(), OneOrTwo::Two(2, 1));
    assert_eq!(InternalEvent::Reiterate(3).other_id(3), None);
    assert_eq!(InternalEvent::Collide(1, 2).other_id(1), Some(2));
    assert_eq!(InternalEvent::Collide(1, 2).other_id(2), Some(1));
}

#[test]
fn empty_queue_peeks_infinity() {
    let events = EventManager::new();
    assert_eq!(events.peek_time(), INFINITY);
    assert!(events.peek_key().is_none());
    assert_eq!(events.peek_event(0), None);
    assert_eq!(events.spare(), PAIR_BASE);
}

#[test]
fn new_event_key_allocates_indices_in_order() {
    let mut events = EventManager::new();
    let a = events.new_event_key(10, false).unwrap();
    let b = events.new_event_key(10, true).unwrap();
    let c = events.new_event_key(3, false).unwrap();
    assert_eq!((a.time, a.index), (10, 0));
    assert_eq!((b.time, b.index), (10, PAIR_BASE + 1));
    assert_eq!((c.time, c.index), (3, 2));
    assert!(events.new_event_key(HIGH_TIME, false).is_none());
    assert!(events.new_event_key(INFINITY, true).is_none());
    let d = events.new_event_key(HIGH_TIME - 1, false).unwrap();
    assert_eq!(d.index, 3);
    assert_eq!(events.spare(), PAIR_BASE - 4);
}

#[test]
fn events_beyond_high_time_are_not_scheduled() {
    let mut events = EventManager::new();
    let mut keys: TightSet<u128> = TightSet::new();
    events.add_solitaire_event(HIGH_TIME, InternalEvent::Reiterate(1), &mut keys);
    events.add_solitaire_event(INFINITY, InternalEvent::Reiterate(1), &mut keys);
    assert!(keys.is_empty());
    assert_eq!(events.peek_time(), INFINITY);
    events.add_solitaire_event(HIGH_TIME - 1, InternalEvent::Reiterate(1), &mut keys);
    assert_eq!(events.peek_time(), HIGH_TIME - 1);
    assert_eq!(keys.iter().len(), 1);
}

#[test]
fn next_delivers_by_time_then_in_the_order_added() {
    let mut events = EventManager::new();
    let mut map = table(&[1, 2, 3]);
    let mut take = |map: &mut Records<Plain, ()>, id: u64| map.remove(&id).unwrap();
    let mut one = take(&mut map, 1);
    let mut two = take(&mut map, 2);
    let mut three = take(&mut map, 3);
    events.add_pair_event(20, InternalEvent::Collide(1, 2), &mut one.event_keys, &mut two.event_keys);
    events.add_pair_event(10, InternalEvent::Collide(1, 3), &mut one.event_keys, &mut three.event_keys);
    events.add_pair_event(10, InternalEvent::Collide(2, 3), &mut two.event_keys, &mut three.event_keys);
    events.add_solitaire_event(10, InternalEvent::Reiterate(2), &mut two.event_keys);
    put(&mut map, 1, one);
    put(&mut map, 2, two);
    put(&mut map, 3, three);
    assert_eq!(keys_of(&map, 1).len(), 2);
    assert_eq!(keys_of(&map, 2).len(), 3);
    assert_eq!(keys_of(&map, 3).len(), 2);

    assert_eq!(events.peek_time(), 10);
    assert_eq!(events.next(9, &mut map), None);
    assert_eq!(events.next(11, &mut map), None);
    assert_eq!(events.peek_event(10), Some(InternalEvent::Reiterate(2)));
    assert_eq!(events.next(10, &mut map), Some(InternalEvent::Reiterate(2)));
    assert_eq!(events.next(10, &mut map), Some(InternalEvent::Collide(1, 3)));
    assert_eq!(events.next(10, &mut map), Some(InternalEvent::Collide(2, 3)));
    assert_eq!(events.next(10, &mut map), None);
    assert_eq!(keys_of(&map, 3), Vec::<u128>::new());
    assert_eq!(keys_of(&map, 1).len(), 1);
    assert_eq!(keys_of(&map, 1), keys_of(&map, 2));
    assert_eq!(events.peek_time(), 20);
    assert_eq!(events.next(20, &mut map), Some(InternalEvent::Collide(1, 2)));
    assert_eq!(events.peek_time(), INFINITY);
    assert_eq!(keys_of(&map, 1), Vec::<u128>::new());
    assert_eq!(keys_of(&map, 2), Vec::<u128>::new());
}

#[test]
fn clear_related_events_cancels_on_both_sides() {
    let mut events = EventManager::new();
    let mut map = table(&[1, 2, 3]);
    let mut one = map.remove(&1).unwrap();
    let mut two = map.remove(&2).unwrap();
    let mut three = map.remove(&3).unwrap();
    events.add_pair_event(20, InternalEvent::Collide(1, 2), &mut one.event_keys, &mut two.event_keys);
    events.add_pair_event(10, InternalEvent::Separate(3, 1), &mut three.event_keys, &mut one.event_keys);
    events.add_pair_event(15, InternalEvent::Collide(2, 3), &mut two.event_keys, &mut three.event_keys);
    events.add_solitaire_event(5, InternalEvent::Reiterate(1), &mut one.event_keys);
    put(&mut map, 2, two);
    put(&mut map, 3, three);
    assert_eq!(one.event_keys.iter().len(), 3);

    events.clear_related_events(1, &mut one.event_keys, &mut map);
    assert!(one.event_keys.is_empty());
    assert_eq!(keys_of(&map, 2).len(), 1);
    assert_eq!(keys_of(&map, 2), keys_of(&map, 3));
    assert_eq!(events.peek_time(), 15);
    put(&mut map, 1, one);
    assert_eq!(events.next(15, &mut map), Some(InternalEvent::Collide(2, 3)));
    assert_eq!(events.peek_time(), INFINITY);
}

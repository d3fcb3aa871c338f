use collider::engine::collider::Collider;
use collider::engine::tracking::PeerTable;
use collider::engine::tracking::PeerTimes;
use collider::engine::tracking::Reply;
use collider::engine::tracking::Snapshot;
use collider::engine::tracking::SolitaireCheck;
use collider::engine::tracking::Step;
use collider::engine::events::InternalEvent;
use collider::engine::key::PAIR_BASE;
use collider::engine::HbProfile;
use collider::index_rect::IndexRect;
use collider::time::HIGH_TIME;
use collider::time::INFINITY;
use collider::HbEvent;

#[derive(Copy, Clone, PartialEq, Eq, PartialOrd, Ord, Debug)]
struct Tag {
    id: u64,
    group: Option<u32>,
    shy: bool,
}

fn tag(id: u64) -> Tag {
    Tag { id, group: Some(0), shy: false }
}

impl HbProfile for Tag {
    fn spec_id(&self) -> u64 {
        self.id
    }
    fn spec_group(&self) -> Option<u32> {
        self.group
    }
    fn spec_interact_groups(&self) -> &'static [u32] {
        &[0]
    }
    fn spec_can_interact(&self, other: &Tag) -> bool {
        !self.shy && !other.shy
    }
    fn id(&self) -> u64 {
        self.id
    }
    fn group(&self) -> Option<u32> {
        self.group
    }
    fn interact_groups(&self) -> &'static [u32] {
        &[0]
    }
    fn can_interact(&self, other: &Tag) -> bool {
        !self.shy && !other.shy
    }
}

fn never() -> SolitaireCheck {
    SolitaireCheck { reiterate_at: INFINITY, end_time: INFINITY, small_at: INFINITY }
}

fn cell(x: i32, y: i32) -> IndexRect {
    IndexRect::new((x, y), (x + 1, y + 1))
}

fn peers(entries: &[(u64, bool, u64, u64)]) -> PeerTable {
    let mut table = PeerTable::default();
    for &(id, touching, collide_at, separate_at) in entries {
        table.insert(id, PeerTimes { touching, collide_at, separate_at });
    }
    table
}

fn snapshot(name: &'static str, check: SolitaireCheck, area: IndexRect, peers: PeerTable) -> Snapshot<&'static str> {
    Snapshot { hitbox: name, check, area, peers }
}

fn sorted(mut tags: Vec<Tag>) -> Vec<u64> {
    tags.sort();
    tags.iter().map(|t| t.id).collect()
}

#[test]
fn a_new_engine_is_empty() {
    let engine: Collider<Tag, &'static str> = Collider::new(true);
    assert_eq!(engine.time(), 0);
    assert_eq!(engine.next_time(), INFINITY);
    assert_eq!(engine.peek_event(), None);
    assert!(!engine.contains(0));
    assert!(!engine.is_overlapping(0, 1));
    assert_eq!(engine.spare_keys(), PAIR_BASE);
}

#[test]
fn next_on_an_empty_engine_is_idle() {
    let mut engine: Collider<Tag, &'static str> = Collider::new(true);
    assert_eq!(engine.next(Reply::Nothing), Step::Idle);
    assert_eq!(engine.time(), 0);
}

#[test]
fn add_stores_the_description_and_schedules_the_earliest_check() {
    let mut engine = Collider::new(true);
    let check = SolitaireCheck { reiterate_at: 40, end_time: 30, small_at: 50 };
    assert_eq!(check.earliest(1), (30, InternalEvent::PanicDurationPassed(1)));
    let met = engine.add_hitbox(tag(1), snapshot("one", check, cell(0, 0), peers(&[])));
    assert_eq!(met, vec![]);
    assert!(engine.contains(1));
    assert_eq!(*engine.get_hitbox(1), "one");
    assert_eq!(engine.get_profile(1), tag(1));
    assert_eq!(engine.get_area(1), Some(cell(0, 0)));
    assert_eq!(engine.next_time(), 30);
    assert_eq!(engine.spare_keys(), PAIR_BASE - 1);
    assert_eq!(engine.next(Reply::Nothing), Step::Idle);
    engine.set_time(30);
    assert_eq!(engine.peek_event(), Some(InternalEvent::PanicDurationPassed(1)));
    assert_eq!(
        engine.next(Reply::Nothing),
        Step::Fault(InternalEvent::PanicDurationPassed(1))
    );
    assert_eq!(engine.next_time(), INFINITY);
}

#[test]
fn earliest_prefers_reiteration_then_end_among_equal_times() {
    let check = SolitaireCheck { reiterate_at: 7, end_time: 7, small_at: 7 };
    assert_eq!(check.earliest(3), (7, InternalEvent::Reiterate(3)));
    let check = SolitaireCheck { reiterate_at: 8, end_time: 7, small_at: 7 };
    assert_eq!(check.earliest(3), (7, InternalEvent::PanicDurationPassed(3)));
    let check = SolitaireCheck { reiterate_at: 8, end_time: 7, small_at: 6 };
    assert_eq!(check.earliest(3), (6, InternalEvent::PanicSmallHitbox(3)));
    let check = SolitaireCheck { reiterate_at: 5, end_time: 7, small_at: 6 };
    assert_eq!(check.earliest(3), (5, InternalEvent::Reiterate(3)));
}

#[test]
fn without_checks_only_reiterations_are_scheduled() {
    let mut engine = Collider::new(false);
    let check = SolitaireCheck { reiterate_at: 40, end_time: 30, small_at: 50 };
    engine.add_hitbox(tag(1), snapshot("one", check, cell(0, 0), peers(&[])));
    assert_eq!(engine.next_time(), INFINITY);
    let check = SolitaireCheck { reiterate_at: 40, end_time: 45, small_at: 50 };
    engine.add_hitbox(tag(2), snapshot("two", check, cell(5, 5), peers(&[])));
    assert_eq!(engine.next_time(), 40);
}

#[test]
fn cellmates_get_a_collide_event_and_then_a_separate_event() {
    let mut engine = Collider::new(true);
    engine.add_hitbox(tag(2), snapshot("two", never(), cell(0, 0), peers(&[])));
    let found: Vec<u64> = engine.candidates(None, cell(0, 0), &[0]).into_iter().collect();
    assert_eq!(found, vec![2]);
    let met = engine.add_hitbox(
        tag(1),
        snapshot("one", never(), cell(0, 0), peers(&[(2, false, 9, INFINITY)])),
    );
    assert_eq!(met, vec![]);
    assert!(!engine.is_overlapping(1, 2));
    assert_eq!(engine.next_time(), 9);
    engine.set_time(9);
    assert_eq!(engine.peek_event(), Some(InternalEvent::Collide(1, 2)));
    assert_eq!(
        engine.next(Reply::Pair(12)),
        Step::Event(HbEvent::Collide, tag(1), tag(2))
    );
    assert!(engine.is_overlapping(1, 2));
    assert!(engine.is_overlapping(2, 1));
    assert_eq!(sorted(engine.get_overlaps(1)), vec![2]);
    assert_eq!(engine.overlap_ids(2), vec![1]);
    assert_eq!(engine.next(Reply::Nothing), Step::Idle);
    assert_eq!(engine.next_time(), 12);
    engine.set_time(12);
    assert_eq!(engine.peek_event(), Some(InternalEvent::Separate(1, 2)));
    assert_eq!(
        engine.next(Reply::Pair(INFINITY)),
        Step::Event(HbEvent::Separate, tag(1), tag(2))
    );
    assert!(!engine.is_overlapping(1, 2));
    assert!(!engine.is_overlapping(2, 1));
    assert_eq!(engine.next_time(), INFINITY);
}

#[test]
fn reported_profiles_have_the_smaller_id_first() {
    let mut engine = Collider::new(true);
    engine.add_hitbox(tag(1), snapshot("one", never(), cell(0, 0), peers(&[])));
    engine.add_hitbox(
        tag(5),
        snapshot("five", never(), cell(0, 0), peers(&[(1, false, 3, INFINITY)])),
    );
    engine.set_time(3);
    assert_eq!(engine.peek_event(), Some(InternalEvent::Collide(5, 1)));
    assert_eq!(
        engine.next(Reply::Pair(INFINITY)),
        Step::Event(HbEvent::Collide, tag(1), tag(5))
    );
}

#[test]
fn touching_on_add_overlaps_at_once() {
    let mut engine = Collider::new(true);
    engine.add_hitbox(tag(1), snapshot("one", never(), cell(0, 0), peers(&[])));
    engine.add_hitbox(tag(2), snapshot("two", never(), cell(0, 0), peers(&[(1, false, 50, 60)])));
    let met = engine.add_hitbox(
        tag(3),
        snapshot("three", never(), cell(0, 0), peers(&[(1, true, 0, 7), (2, false, 4, 8)])),
    );
    assert_eq!(sorted(met), vec![1]);
    assert!(engine.is_overlapping(3, 1));
    assert!(engine.is_overlapping(1, 3));
    assert!(!engine.is_overlapping(3, 2));
    engine.set_time(4);
    assert_eq!(engine.peek_event(), Some(InternalEvent::Collide(3, 2)));
    engine.next(Reply::Pair(INFINITY));
    engine.set_time(7);
    assert_eq!(engine.peek_event(), Some(InternalEvent::Separate(3, 1)));
    assert_eq!(
        engine.next(Reply::Pair(INFINITY)),
        Step::Event(HbEvent::Separate, tag(1), tag(3))
    );
    assert_eq!(engine.next_time(), 50);
}

#[test]
fn times_at_or_beyond_high_time_schedule_nothing() {
    let mut engine = Collider::new(true);
    engine.add_hitbox(tag(1), snapshot("one", never(), cell(0, 0), peers(&[])));
    let met = engine.add_hitbox(
        tag(2),
        snapshot("two", never(), cell(0, 0), peers(&[(1, true, 0, INFINITY)])),
    );
    assert_eq!(sorted(met), vec![1]);
    assert!(engine.is_overlapping(1, 2));
    assert_eq!(engine.next_time(), INFINITY);
    engine.add_hitbox(
        tag(3),
        snapshot("three", never(), cell(0, 0), peers(&[(1, false, HIGH_TIME, 0), (2, false, HIGH_TIME - 1, 0)])),
    );
    assert_eq!(engine.next_time(), HIGH_TIME - 1);
}

#[test]
fn peers_that_cannot_interact_get_no_event() {
    let mut engine = Collider::new(true);
    let shy = Tag { id: 1, group: Some(0), shy: true };
    engine.add_hitbox(shy, snapshot("one", never(), cell(0, 0), peers(&[])));
    let met = engine.add_hitbox(
        tag(2),
        snapshot("two", never(), cell(0, 0), peers(&[(1, true, 0, 5)])),
    );
    assert_eq!(met, vec![]);
    assert!(!engine.is_overlapping(1, 2));
    assert_eq!(engine.next_time(), INFINITY);
}

#[test]
fn a_hitbox_without_a_group_is_stored_and_nothing_more() {
    let mut engine = Collider::new(true);
    engine.add_hitbox(tag(1), snapshot("one", never(), cell(0, 0), peers(&[])));
    let loner = Tag { id: 2, group: None, shy: false };
    let check = SolitaireCheck { reiterate_at: INFINITY, end_time: 80, small_at: INFINITY };
    let met = engine.add_hitbox(loner, snapshot("two", check, cell(0, 0), peers(&[])));
    assert_eq!(met, vec![]);
    assert!(engine.contains(2));
    assert_eq!(engine.get_area(2), None);
    assert_eq!(engine.next_time(), 80);
    let found: Vec<u64> = engine.candidates(None, cell(0, 0), &[0]).into_iter().collect();
    assert_eq!(found, vec![1]);
    assert_eq!(engine.remove_hitbox(2), vec![]);
    assert_eq!(engine.next_time(), INFINITY);
}

#[test]
fn remove_returns_the_overlapped_peers_and_cancels_events() {
    let mut engine = Collider::new(true);
    engine.add_hitbox(tag(1), snapshot("one", never(), cell(0, 0), peers(&[])));
    engine.add_hitbox(tag(2), snapshot("two", never(), cell(0, 0), peers(&[(1, true, 0, 20)])));
    engine.add_hitbox(
        tag(3),
        snapshot("three", never(), cell(0, 0), peers(&[(1, true, 0, 30), (2, false, 10, 40)])),
    );
    assert_eq!(engine.next_time(), 10);
    assert_eq!(sorted(engine.remove_hitbox(1)), vec![2, 3]);
    assert!(!engine.contains(1));
    assert_eq!(engine.get_overlaps(2), vec![]);
    assert_eq!(engine.get_overlaps(3), vec![]);
    assert_eq!(engine.next_time(), 10);
    engine.set_time(10);
    assert_eq!(engine.peek_event(), Some(InternalEvent::Collide(3, 2)));
    engine.next(Reply::Pair(INFINITY));
    assert_eq!(engine.next_time(), INFINITY);
    let found: Vec<u64> = engine.candidates(Some(2), cell(0, 0), &[0]).into_iter().collect();
    assert_eq!(found, vec![3]);
}

#[test]
fn add_then_remove_restores_the_engine() {
    let mut engine = Collider::new(true);
    let check = SolitaireCheck { reiterate_at: 90, end_time: INFINITY, small_at: INFINITY };
    engine.add_hitbox(tag(1), snapshot("one", check, cell(0, 0), peers(&[])));
    engine.add_hitbox(tag(2), snapshot("two", never(), cell(0, 0), peers(&[(1, false, 33, 44)])));
    let before = engine.next_time();
    let met = engine.add_hitbox(
        tag(3),
        snapshot("three", check, cell(0, 0), peers(&[(1, true, 0, 5), (2, false, 6, 7)])),
    );
    assert_eq!(sorted(met), vec![1]);
    assert_eq!(engine.next_time(), 5);
    assert_eq!(sorted(engine.remove_hitbox(3)), vec![1]);
    assert_eq!(engine.next_time(), before);
    assert_eq!(engine.get_overlaps(1), vec![]);
    assert_eq!(engine.get_overlaps(2), vec![]);
    assert!(!engine.contains(3));
    engine.set_time(33);
    assert_eq!(engine.peek_event(), Some(InternalEvent::Collide(2, 1)));
    let found: Vec<u64> = {
        let mut ids: Vec<u64> = engine.candidates(None, cell(0, 0), &[0]).into_iter().collect();
        ids.sort();
        ids
    };
    assert_eq!(found, vec![1, 2]);
}

#[test]
fn reiterate_takes_a_new_snapshot_and_keeps_overlaps() {
    let mut engine = Collider::new(true);
    let check = SolitaireCheck { reiterate_at: 10, end_time: INFINITY, small_at: INFINITY };
    engine.add_hitbox(tag(1), snapshot("one", check, cell(0, 0), peers(&[])));
    engine.add_hitbox(tag(2), snapshot("two", never(), cell(0, 0), peers(&[(1, true, 0, 25)])));
    engine.add_hitbox(tag(3), snapshot("three", never(), cell(1, 0), peers(&[])));
    assert!(engine.is_overlapping(1, 2));
    engine.set_time(10);
    assert_eq!(engine.peek_event(), Some(InternalEvent::Reiterate(1)));
    let area = IndexRect::new((0, 0), (2, 1));
    let mut found: Vec<u64> = engine.candidates(Some(1), area, &[0]).into_iter().collect();
    found.sort();
    assert_eq!(found, vec![2, 3]);
    let later = SolitaireCheck { reiterate_at: 20, end_time: INFINITY, small_at: INFINITY };
    let reply = Reply::Update(snapshot(
        "one, later",
        later,
        area,
        peers(&[(2, false, INFINITY, 22), (3, false, 15, INFINITY)]),
    ));
    assert_eq!(engine.next(reply), Step::Internal);
    assert_eq!(*engine.get_hitbox(1), "one, later");
    assert_eq!(engine.get_area(1), Some(area));
    assert!(engine.is_overlapping(1, 2));
    assert_eq!(engine.next(Reply::Nothing), Step::Idle);
    engine.set_time(15);
    assert_eq!(engine.peek_event(), Some(InternalEvent::Collide(1, 3)));
    engine.next(Reply::Pair(INFINITY));
    engine.set_time(20);
    assert_eq!(engine.peek_event(), Some(InternalEvent::Reiterate(1)));
}

#[test]
fn set_hitbox_vel_reschedules() {
    let mut engine = Collider::new(true);
    engine.add_hitbox(tag(1), snapshot("one", never(), cell(0, 0), peers(&[])));
    engine.add_hitbox(tag(2), snapshot("two", never(), cell(0, 0), peers(&[(1, false, 9, INFINITY)])));
    assert_eq!(engine.next_time(), 9);
    engine.set_time(4);
    engine.set_hitbox_vel(
        2,
        snapshot("two, slower", never(), cell(0, 0), peers(&[(1, false, 14, INFINITY)])),
    );
    assert_eq!(*engine.get_hitbox(2), "two, slower");
    assert_eq!(engine.next_time(), 14);
    engine.set_time(14);
    assert_eq!(engine.peek_event(), Some(InternalEvent::Collide(2, 1)));
}

#[test]
fn events_at_one_time_come_in_the_order_they_were_scheduled() {
    let mut engine = Collider::new(true);
    engine.add_hitbox(tag(1), snapshot("one", never(), cell(0, 0), peers(&[])));
    engine.add_hitbox(tag(2), snapshot("two", never(), cell(0, 0), peers(&[(1, false, 8, INFINITY)])));
    engine.add_hitbox(tag(3), snapshot("three", never(), cell(3, 3), peers(&[])));
    engine.add_hitbox(tag(4), snapshot("four", never(), cell(3, 3), peers(&[(3, false, 8, INFINITY)])));
    engine.set_time(8);
    assert_eq!(
        engine.next(Reply::Pair(INFINITY)),
        Step::Event(HbEvent::Collide, tag(1), tag(2))
    );
    assert_eq!(engine.time(), 8);
    assert_eq!(
        engine.next(Reply::Pair(INFINITY)),
        Step::Event(HbEvent::Collide, tag(3), tag(4))
    );
    assert_eq!(engine.next(Reply::Nothing), Step::Idle);
}

#[test]
fn query_overlaps_filters_by_cell_interaction_and_touch() {
    let mut engine = Collider::new(true);
    engine.add_hitbox(tag(1), snapshot("one", never(), cell(0, 0), peers(&[])));
    engine.add_hitbox(tag(2), snapshot("two", never(), cell(0, 0), peers(&[(1, false, INFINITY, INFINITY)])));
    engine.add_hitbox(tag(3), snapshot("three", never(), cell(4, 4), peers(&[])));
    let shy = Tag { id: 4, group: Some(0), shy: true };
    engine.add_hitbox(
        shy,
        snapshot("four", never(), cell(0, 0), peers(&[(1, false, INFINITY, INFINITY), (2, false, INFINITY, INFINITY)])),
    );
    let asker = tag(9);
    let all: fnv::FnvHashSet<u64> = [1u64, 2, 3, 4].into_iter().collect();
    assert_eq!(sorted(engine.query_overlaps(cell(0, 0), &asker, &all)), vec![1, 2]);
    let some: fnv::FnvHashSet<u64> = [2u64, 3].into_iter().collect();
    assert_eq!(sorted(engine.query_overlaps(cell(0, 0), &asker, &some)), vec![2]);
    assert_eq!(sorted(engine.query_overlaps(cell(4, 4), &asker, &all)), vec![3]);
    assert_eq!(sorted(engine.query_overlaps(cell(9, 9), &asker, &all)), Vec::<u64>::new());
    let none = fnv::FnvHashSet::default();
    assert_eq!(sorted(engine.query_overlaps(cell(0, 0), &asker, &none)), Vec::<u64>::new());
}

#[test]
fn time_stays_at_or_before_next_time() {
    let mut engine = Collider::new(true);
    let check = SolitaireCheck { reiterate_at: 6, end_time: INFINITY, small_at: INFINITY };
    engine.add_hitbox(tag(1), snapshot("one", check, cell(0, 0), peers(&[])));
    assert!(engine.time() <= engine.next_time());
    engine.set_time(6);
    assert!(engine.time() <= engine.next_time());
    let later = SolitaireCheck { reiterate_at: 6, end_time: INFINITY, small_at: INFINITY };
    engine.next(Reply::Update(snapshot("one", later, cell(0, 0), peers(&[]))));
    assert_eq!(engine.time(), 6);
    assert!(engine.time() <= engine.next_time());
    assert_eq!(engine.peek_event(), Some(InternalEvent::Reiterate(1)));
}

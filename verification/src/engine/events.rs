//! Events that are queued to occur at given simulation times, and the
//! manager that queues and cancels them.
//!
//! Every queued event is cross-referenced: its key is held by the record of
//! each hitbox that the event mentions, so that all events of a hitbox can
//! be cancelled without searching the queue.
use std::collections::BTreeMap;
use vstd::prelude::*;
use crate::engine::key::code_of;
use crate::engine::key::is_pair_code;
use crate::engine::key::lemma_code_order;
use crate::engine::key::lemma_code_round_trip;
use crate::engine::key::serial_of;
use crate::engine::key::time_of;
use crate::engine::key::EventKey;
use crate::engine::key::PAIR_BASE;
use crate::engine::queue::first_code;
use crate::engine::queue::is_head;
use crate::engine::record::recs_of;
use crate::engine::record::remove_key;
use crate::engine::record::Rec;
use crate::engine::record::Records;
use crate::engine::HbId;
use crate::engine::HbProfile;
use crate::time::Time;
use crate::time::HIGH_TIME;
use crate::time::INFINITY;
use crate::util::lemma_take_ends;
use crate::util::lemma_take_step;
use crate::util::OneOrTwo;
use crate::util::TightSet;

verus! {

/// An event as the queue holds it.
#[derive(PartialEq, Eq, Structural, Copy, Clone, Debug)]
pub enum InternalEvent {
    /// The hitbox would now be smaller than the engine allows.
    PanicSmallHitbox(HbId),
    /// The hitbox has outlived its end time without an update.
    PanicDurationPassed(HbId),
    /// The stored snapshot of the hitbox has reached the end of the window
    /// for which its grid cells are valid: it must be taken anew.
    Reiterate(HbId),
    /// The two hitboxes begin to touch.
    Collide(HbId, HbId),
    /// The two hitboxes have parted.
    Separate(HbId, HbId),
}

impl InternalEvent {
    /// Whether the event is between two hitboxes.
    pub open spec fn is_pair(self) -> bool {
        self is Collide || self is Separate
    }

    /// The one or two hitboxes that the event mentions.
    pub open spec fn spec_ids(self) -> OneOrTwo<HbId> {
        match self {
            InternalEvent::PanicSmallHitbox(id) => OneOrTwo::One(id),
            InternalEvent::PanicDurationPassed(id) => OneOrTwo::One(id),
            InternalEvent::Reiterate(id) => OneOrTwo::One(id),
            InternalEvent::Collide(a, b) => OneOrTwo::Two(a, b),
            InternalEvent::Separate(a, b) => OneOrTwo::Two(a, b),
        }
    }

    /// Whether the event mentions the hitbox `id`.
    pub open spec fn involves(self, id: HbId) -> bool {
        self.spec_ids().has(id)
    }

    /// The hitbox that the event mentions beside `id`, if it mentions two.
    pub open spec fn spec_other_id(self, id: HbId) -> Option<HbId> {
        self.spec_ids().spec_other_id(id)
    }

    /// Whether the event is between the hitboxes `a` and `b`, in either
    /// order.
    pub open spec fn joins(self, a: HbId, b: HbId) -> bool {
        self.is_pair() && self.involves(a) && self.spec_other_id(a) == Some(b)
    }

    /// The hitbox that the event mentions beside `id`, if it mentions two.
    pub fn other_id(self, id: HbId) -> (r: Option<HbId>)
        requires
            self.involves(id),
        ensures
            r == self.spec_other_id(id),
    {
        self.involved_hitbox_ids().other_id(id)
    }

    /// The one or two hitboxes that the event mentions.
    pub fn involved_hitbox_ids(self) -> (r: OneOrTwo<HbId>)
        ensures
            r == self.spec_ids(),
    {
        match self {
            InternalEvent::PanicSmallHitbox(id) | InternalEvent::PanicDurationPassed(id) => {
                OneOrTwo::One(id)
            },
            InternalEvent::Reiterate(id) => OneOrTwo::One(id),
            InternalEvent::Collide(a, b) | InternalEvent::Separate(a, b) => OneOrTwo::Two(a, b),
        }
    }
}

/// The key sets of a table of records.
pub open spec fn keys_of<P, H>(recs: Map<HbId, Rec<P, H>>) -> Map<HbId, Set<u128>> {
    Map::new(|id: HbId| recs.contains_key(id), |id: HbId| recs[id].keys)
}

/// The cross-references between a queue and key sets are intact: each key in
/// the queue is held by every hitbox that its event mentions, each key held
/// by a hitbox is in the queue with an event that mentions the hitbox, and
/// an event between two hitboxes names two different ones.
pub open spec fn linked(queue: Map<u128, InternalEvent>, keys: Map<HbId, Set<u128>>) -> bool {
    &&& forall|code: u128, id: HbId|
        queue.contains_key(code) && #[trigger] queue[code].involves(id) ==> keys.contains_key(id)
            && keys[id].contains(code)
    &&& forall|id: HbId, code: u128|
        keys.contains_key(id) && #[trigger] keys[id].contains(code) ==> queue.contains_key(code)
            && queue[code].involves(id)
    &&& forall|code: u128| #[trigger]
        queue.contains_key(code) ==> queue[code].spec_other_id(queue[code].spec_ids()@[0]) != Some(
            queue[code].spec_ids()@[0],
        )
}

/// `recs` with `code` taken out of the keys of the hitboxes in `ids`.
pub open spec fn unlink<P, H>(recs: Map<HbId, Rec<P, H>>, code: u128, ids: Seq<HbId>) -> Map<
    HbId,
    Rec<P, H>,
> {
    Map::new(
        |id: HbId| recs.contains_key(id),
        |id: HbId| if ids.contains(id) { recs[id].without_key(code) } else { recs[id] },
    )
}

/// `recs` with the codes in `codes` taken out of every key set.
pub open spec fn strip<P, H>(recs: Map<HbId, Rec<P, H>>, codes: Set<u128>) -> Map<HbId, Rec<P, H>> {
    Map::new(
        |id: HbId| recs.contains_key(id),
        |id: HbId| Rec { keys: recs[id].keys.difference(codes), ..recs[id] },
    )
}

/// The queue of pending events, ordered by time and, among equal times, by
/// the order in which the events were added.
pub struct EventManager {
    events: BTreeMap<u128, InternalEvent>,
    next_event_index: u64,
}

impl EventManager {
    /// The queued events by the code of their key.
    pub closed spec fn queue(&self) -> Map<u128, InternalEvent> {
        self.events@
    }

    /// How many keys have been allocated so far.
    pub closed spec fn allocated(&self) -> u64 {
        self.next_event_index
    }

    /// The queue holds keys that this manager allocated, at times at which
    /// events may be scheduled, and the pair bit of each key says what kind
    /// of event it stands for.
    pub open spec fn wf(&self) -> bool {
        &&& self.allocated() <= PAIR_BASE
        &&& self.queue().dom().finite()
        &&& forall|code: u128| #[trigger]
            self.queue().contains_key(code) ==> {
                &&& serial_of(code) < self.allocated()
                &&& time_of(code) < HIGH_TIME
                &&& is_pair_code(code) == self.queue()[code].is_pair()
            }
    }

    /// Whether another key can be allocated.
    pub open spec fn has_room(&self) -> bool {
        self.allocated() < PAIR_BASE
    }

    /// Whether every code in `codes` was allocated by this manager before
    /// now.
    pub open spec fn knows(&self, codes: Set<u128>) -> bool {
        forall|code: u128| #[trigger] codes.contains(code) ==> serial_of(code) < self.allocated()
    }

    /// The code of the first key, `None` for an empty queue.
    pub open spec fn spec_peek_code(&self) -> Option<u128> {
        if exists|code: u128| is_head(self.queue(), code) {
            Some(choose|code: u128| is_head(self.queue(), code))
        } else {
            None
        }
    }

    /// The time of the first key, infinity for an empty queue.
    pub open spec fn spec_peek_time(&self) -> Time {
        match self.spec_peek_code() {
            Some(code) => time_of(code),
            None => INFINITY,
        }
    }

    /// The code of the first key if it is due at `time`.
    pub open spec fn due(&self, time: Time) -> Option<u128> {
        match self.spec_peek_code() {
            Some(code) => if time_of(code) == time { Some(code) } else { None },
            None => None,
        }
    }

    /// The code that the next key will have if it is allocated for `time`.
    pub open spec fn next_code(&self, time: Time, for_pair: bool) -> u128 {
        code_of(time, if for_pair { (self.allocated() + PAIR_BASE) as u64 } else { self.allocated() })
    }

    /// No queued event is due before the first key's time.
    pub proof fn lemma_peek_time_is_least(&self, code: u128)
        requires
            self.queue().contains_key(code),
        ensures
            self.spec_peek_time() <= time_of(code),
            self.spec_peek_code() is Some,
    {
        let q = self.queue();
        if exists|c: u128| is_head(q, c) {
            let head = choose|c: u128| is_head(q, c);
            lemma_code_order(head, code);
        } else {
            self.lemma_nonempty_has_head(code);
        }
    }

    /// A queue that holds a key has a first key.
    pub proof fn lemma_nonempty_has_head(&self, code: u128)
        requires
            self.queue().contains_key(code),
            self.queue().dom().finite(),
        ensures
            exists|c: u128| is_head(self.queue(), c),
    {
        lemma_finite_has_least(self.queue().dom(), code);
        let c = choose|c: u128| least_of(self.queue().dom(), c);
        assert(is_head(self.queue(), c));
    }

    /// An empty queue.
    pub fn new() -> (r: EventManager)
        ensures
            r.wf(),
            r.queue() == Map::<u128, InternalEvent>::empty(),
            r.allocated() == 0,
    {
        EventManager { events: BTreeMap::new(), next_event_index: 0 }
    }

    /// Schedules an event that mentions one hitbox, unless `time` is too
    /// far away for scheduling. The new key goes into the queue and into
    /// the hitbox's key set.
    pub fn add_solitaire_event(
        &mut self,
        time: Time,
        event: InternalEvent,
        key_set: &mut TightSet<u128>,
    )
        requires
            old(self).wf(),
            old(self).has_room(),
            old(self).knows(old(key_set)@),
            !event.is_pair(),
        ensures
            final(self).wf(),
            final(self).knows(final(key_set)@),
            time < HIGH_TIME ==> {
                let code = old(self).next_code(time, false);
                &&& !old(self).queue().contains_key(code)
                &&& !old(key_set)@.contains(code)
                &&& time_of(code) == time
                &&& final(self).queue() == old(self).queue().insert(code, event)
                &&& final(key_set)@ == old(key_set)@.insert(code)
                &&& final(self).allocated() == old(self).allocated() + 1
            },
            time >= HIGH_TIME ==> {
                &&& final(self).queue() == old(self).queue()
                &&& final(key_set)@ == old(key_set)@
                &&& final(self).allocated() == old(self).allocated()
            },
    {
        if let Some(key) = self.new_event_key(time, false) {
            let code = key.code();
            proof {
                if old(self).queue().contains_key(code) {
                    assert(serial_of(code) < old(self).allocated());
                }
                if old(key_set)@.contains(code) {
                    assert(serial_of(code) < old(self).allocated());
                }
            }
            self.events.insert(code, event);
            key_set.insert(code);
        }
    }

    /// Schedules an event between two hitboxes, unless `time` is too far
    /// away for scheduling. The new key goes into the queue and into the key
    /// sets of both hitboxes.
    pub fn add_pair_event(
        &mut self,
        time: Time,
        event: InternalEvent,
        first_key_set: &mut TightSet<u128>,
        second_key_set: &mut TightSet<u128>,
    )
        requires
            old(self).wf(),
            old(self).has_room(),
            old(self).knows(old(first_key_set)@),
            old(self).knows(old(second_key_set)@),
            event.is_pair(),
        ensures
            final(self).wf(),
            final(self).knows(final(first_key_set)@),
            final(self).knows(final(second_key_set)@),
            time < HIGH_TIME ==> {
                let code = old(self).next_code(time, true);
                &&& !old(self).queue().contains_key(code)
                &&& !old(first_key_set)@.contains(code)
                &&& !old(second_key_set)@.contains(code)
                &&& time_of(code) == time
                &&& final(self).queue() == old(self).queue().insert(code, event)
                &&& final(first_key_set)@ == old(first_key_set)@.insert(code)
                &&& final(second_key_set)@ == old(second_key_set)@.insert(code)
                &&& final(self).allocated() == old(self).allocated() + 1
            },
            time >= HIGH_TIME ==> {
                &&& final(self).queue() == old(self).queue()
                &&& final(first_key_set)@ == old(first_key_set)@
                &&& final(second_key_set)@ == old(second_key_set)@
                &&& final(self).allocated() == old(self).allocated()
            },
    {
        if let Some(key) = self.new_event_key(time, true) {
            let code = key.code();
            proof {
                if old(self).queue().contains_key(code) {
                    assert(serial_of(code) < old(self).allocated());
                }
                if old(first_key_set)@.contains(code) {
                    assert(serial_of(code) < old(self).allocated());
                }
                if old(second_key_set)@.contains(code) {
                    assert(serial_of(code) < old(self).allocated());
                }
            }
            self.events.insert(code, event);
            first_key_set.insert(code);
            second_key_set.insert(code);
        }
    }

    /// Allocates the key of a new event at `time`, with the pair bit if the
    /// event is between two hitboxes. Returns `None`, and allocates nothing,
    /// when `time` is too far away for scheduling.
    pub fn new_event_key(&mut self, time: Time, for_pair: bool) -> (r: Option<EventKey>)
        requires
            old(self).has_room(),
        ensures
            final(self).queue() == old(self).queue(),
            time >= HIGH_TIME ==> r is None && final(self).allocated() == old(self).allocated(),
            time < HIGH_TIME ==> {
                &&& r is Some
                &&& r->0.time == time
                &&& r->0.index == if for_pair {
                    old(self).allocated() + PAIR_BASE
                } else {
                    old(self).allocated() as int
                }
                &&& r->0.spec_code() == old(self).next_code(time, for_pair)
                &&& serial_of(r->0.spec_code()) == old(self).allocated()
                &&& is_pair_code(r->0.spec_code()) == for_pair
                &&& final(self).allocated() == old(self).allocated() + 1
            },
    {
        if time >= HIGH_TIME {
            None
        } else {
            let mut index = self.next_event_index;
            self.next_event_index += 1;
            if for_pair {
                index += PAIR_BASE;
            }
            let result = EventKey { time, index };
            proof {
                lemma_code_round_trip(time, index);
            }
            Some(result)
        }
    }

    /// How many more keys can be allocated.
    pub fn spare(&self) -> (r: u64)
        requires
            self.wf(),
        ensures
            r == PAIR_BASE - self.allocated(),
    {
        PAIR_BASE - self.next_event_index
    }

    /// The time of the first key, or infinity if the queue is empty.
    pub fn peek_time(&self) -> (r: Time)
        requires
            self.wf(),
        ensures
            r == self.spec_peek_time(),
    {
        match self.peek_key() {
            Some(key) => key.time(),
            None => INFINITY,
        }
    }

    /// The first key, `None` for an empty queue.
    pub fn peek_key(&self) -> (r: Option<EventKey>)
        requires
            self.wf(),
        ensures
            match r {
                Some(key) => self.spec_peek_code() == Some(key.spec_code()),
                None => self.spec_peek_code() is None,
            },
            r is None <==> self.queue().dom() =~= Set::<u128>::empty(),
    {
        match first_code(&self.events) {
            Some(code) => {
                let key = EventKey::from_code(code);
                proof {
                    let other = choose|c: u128| is_head(self.queue(), c);
                    assert(is_head(self.queue(), other));
                }
                Some(key)
            },
            None => {
                assert forall|c: u128| !is_head(self.queue(), c) by {
                    if is_head(self.queue(), c) {
                        assert(self.queue().dom().contains(c));
                    }
                }
                None
            },
        }
    }

    /// The first event if it is due at `time`, without taking it out.
    pub fn peek_event(&self, time: Time) -> (r: Option<InternalEvent>)
        requires
            self.wf(),
        ensures
            match self.due(time) {
                Some(code) => r == Some(self.queue()[code]) && self.queue().contains_key(code),
                None => r is None,
            },
    {
        match self.peek_key() {
            Some(key) => {
                if key.time() == time {
                    let code = key.code();
                    let found = self.events.get(&code);
                    match found {
                        Some(event) => Some(*event),
                        None => None,
                    }
                } else {
                    None
                }
            },
            None => None,
        }
    }

    /// Takes the first event out of the queue if it is due at `time`, and
    /// takes its key out of the key sets of the hitboxes that it mentions.
    pub fn next<P: HbProfile, H>(&mut self, time: Time, map: &mut Records<P, H>) -> (r: Option<
        InternalEvent,
    >)
        requires
            old(self).wf(),
            linked(old(self).queue(), keys_of(recs_of(*old(map)))),
        ensures
            final(self).wf(),
            final(self).allocated() == old(self).allocated(),
            match old(self).due(time) {
                Some(code) => {
                    &&& old(self).queue().contains_key(code)
                    &&& r == Some(old(self).queue()[code])
                    &&& final(self).queue() == old(self).queue().remove(code)
                    &&& recs_of(*final(map)) == unlink(
                        recs_of(*old(map)),
                        code,
                        old(self).queue()[code].spec_ids()@,
                    )
                },
                None => {
                    &&& r is None
                    &&& final(self).queue() == old(self).queue()
                    &&& recs_of(*final(map)) == recs_of(*old(map))
                },
            },
    {
        if let Some(key) = self.peek_key() {
            if key.time() == time {
                let code = key.code();
                let removed = self.events.remove(&code);
                let event = removed.unwrap();
                let ids = event.involved_hitbox_ids();
                let ghost recs0 = recs_of(*map);
                let ghost queue0 = old(self).queue();
                assert(queue0[code].involves(ids@[0]));
                match ids {
                    OneOrTwo::One(a) => {
                        remove_key(map, a, code);
                        assert(recs_of(*map) =~= unlink(recs0, code, ids@));
                    },
                    OneOrTwo::Two(a, b) => {
                        assert(queue0[code].involves(b));
                        assert(a != b);
                        remove_key(map, a, code);
                        remove_key(map, b, code);
                        assert(ids@[0] == a && ids@[1] == b);
                        assert(recs_of(*map) =~= unlink(recs0, code, ids@));
                    },
                }
                Some(event)
            } else {
                None
            }
        } else {
            None
        }
    }

    /// Cancels every event whose key is in `key_set`, the key set of the
    /// hitbox `id`: takes it out of the queue and, where the event mentions
    /// a second hitbox, out of that hitbox's key set. Empties `key_set`.
    pub fn clear_related_events<P: HbProfile, H>(
        &mut self,
        id: HbId,
        key_set: &mut TightSet<u128>,
        map: &mut Records<P, H>,
    )
        requires
            old(self).wf(),
            !recs_of(*old(map)).contains_key(id),
            linked(old(self).queue(), keys_of(recs_of(*old(map))).insert(id, old(key_set)@)),
        ensures
            final(self).wf(),
            final(self).allocated() == old(self).allocated(),
            final(key_set)@ == Set::<u128>::empty(),
            final(self).queue() == old(self).queue().remove_keys(old(key_set)@),
            recs_of(*final(map)) == strip(recs_of(*old(map)), old(key_set)@),
            linked(
                final(self).queue(),
                keys_of(recs_of(*final(map))).insert(id, Set::<u128>::empty()),
            ),
    {
        let codes = key_set.iter();
        let ghost queue0 = self.queue();
        let ghost recs0 = recs_of(*map);
        let ghost all = key_set@;
        let mut i: usize = 0;
        proof {
            lemma_take_ends(codes@);
            assert forall|o: HbId| recs0.contains_key(o) implies #[trigger] recs0[o] == strip(
                recs0,
                Set::<u128>::empty(),
            )[o] by {
                assert(recs0[o].keys.difference(Set::<u128>::empty()) =~= recs0[o].keys);
            }
            assert(recs0 =~= strip(recs0, Set::<u128>::empty()));
        }
        while i < codes.len()
            invariant
                0 <= i <= codes.len(),
                codes@.to_set() == all,
                codes@.no_duplicates(),
                key_set@ == all,
                self.wf(),
                self.allocated() == old(self).allocated(),
                queue0 == old(self).queue(),
                recs0 == recs_of(*old(map)),
                !recs0.contains_key(id),
                linked(queue0, keys_of(recs0).insert(id, all)),
                self.queue() == queue0.remove_keys(codes@.take(i as int).to_set()),
                recs_of(*map) == strip(recs0, codes@.take(i as int).to_set()),
            decreases codes.len() - i,
        {
            let code = codes[i];
            let ghost done = codes@.take(i as int).to_set();
            proof {
                assert(codes@.to_set().contains(code));
                assert(keys_of(recs0).insert(id, all)[id].contains(code));
                assert(queue0.contains_key(code));
                lemma_take_step(codes@, i as int);
            }
            let removed = self.events.remove(&code);
            let event = removed.unwrap();
            assert(event == queue0[code]);
            assert(queue0[code].involves(id));
            if let Some(other_id) = event.other_id(id) {
                proof {
                    assert(queue0[code].involves(other_id));
                    assert(other_id != id) by {
                        assert(queue0[code].spec_other_id(queue0[code].spec_ids()@[0]) != Some(
                            queue0[code].spec_ids()@[0],
                        ));
                    }
                    assert(keys_of(recs0).insert(id, all).contains_key(other_id));
                    assert(recs0.contains_key(other_id));
                }
                remove_key(map, other_id, code);
                proof {
                    assert forall|o: HbId| recs0.contains_key(o) implies #[trigger] recs_of(*map)[o]
                        == strip(recs0, done.insert(code))[o] by {
                        if o == other_id {
                            assert(recs0[o].keys.difference(done).remove(code)
                                =~= recs0[o].keys.difference(done.insert(code)));
                        } else {
                            if recs0[o].keys.contains(code) {
                                assert(keys_of(recs0).insert(id, all)[o].contains(code));
                                assert(queue0[code].involves(o));
                            }
                            assert(recs0[o].keys.difference(done) =~= recs0[o].keys.difference(
                                done.insert(code),
                            ));
                        }
                    }
                    assert(recs_of(*map) =~= strip(recs0, done.insert(code)));
                }
            } else {
                proof {
                    assert forall|o: HbId| recs0.contains_key(o) implies #[trigger] recs_of(*map)[o]
                        == strip(recs0, done.insert(code))[o] by {
                        if recs0[o].keys.contains(code) {
                            assert(keys_of(recs0).insert(id, all)[o].contains(code));
                            assert(queue0[code].involves(o));
                        }
                        assert(recs0[o].keys.difference(done) =~= recs0[o].keys.difference(
                            done.insert(code),
                        ));
                    }
                    assert(recs_of(*map) =~= strip(recs0, done.insert(code)));
                }
            }
            assert(self.queue() =~= queue0.remove_keys(done.insert(code)));
            i += 1;
        }
        proof {
            lemma_take_ends(codes@);
        }
        key_set.clear();
        proof {
            let queue1 = self.queue();
            let keys1 = keys_of(recs_of(*map)).insert(id, Set::<u128>::empty());
            let keys0 = keys_of(recs0).insert(id, all);
            assert forall|code: u128, o: HbId|
                queue1.contains_key(code) && #[trigger] queue1[code].involves(o) implies keys1.contains_key(
                o,
            ) && keys1[o].contains(code) by {
                assert(queue0.contains_key(code) && queue0[code].involves(o));
                assert(keys0.contains_key(o) && keys0[o].contains(code));
            }
            assert forall|o: HbId, code: u128|
                keys1.contains_key(o) && #[trigger] keys1[o].contains(code) implies queue1.contains_key(
                code,
            ) && queue1[code].involves(o) by {
                assert(keys0.contains_key(o) && keys0[o].contains(code));
            }
        }
    }
}

/// Whether `least` is the least element of `s`.
pub open spec fn least_of(s: Set<u128>, least: u128) -> bool {
    s.contains(least) && forall|other: u128| s.contains(other) ==> least <= other
}

/// A finite set of codes that holds one holds a least one.
pub proof fn lemma_finite_has_least(s: Set<u128>, member: u128)
    requires
        s.finite(),
        s.contains(member),
    ensures
        exists|least: u128| least_of(s, least),
    decreases s.len(),
{
    let rest = s.remove(member);
    if rest =~= Set::<u128>::empty() {
        assert forall|other: u128| s.contains(other) implies member <= other by {
            if other != member {
                assert(rest.contains(other));
            }
        }
        assert(least_of(s, member));
    } else {
        let next = rest.choose();
        vstd::set_lib::axiom_is_empty(rest);
        assert(rest.contains(next));
        lemma_finite_has_least(rest, next);
        let least_rest = choose|least: u128| least_of(rest, least);
        let least = if member <= least_rest { member } else { least_rest };
        assert forall|other: u128| s.contains(other) implies least <= other by {
            if other != member {
                assert(rest.contains(other));
            }
        }
        assert(least_of(s, least));
    }
}

} // verus!

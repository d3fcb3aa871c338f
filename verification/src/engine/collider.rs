//! The orchestrator: tracks hitboxes and reports collide and separate
//! events in the order of their simulation times.
use fnv::FnvHashMap;
use fnv::FnvHashSet;
use vstd::prelude::*;
use crate::engine::HbGroup;
use crate::engine::HbId;
use crate::engine::HbProfile;
use crate::engine::event::HbEvent;
use crate::engine::event::lower;
use crate::engine::event::new_event;
use crate::engine::event::upper;
use crate::engine::events::EventManager;
use crate::engine::events::InternalEvent;
use crate::engine::events::keys_of;
use crate::engine::grid::Grid;
use crate::engine::grid::area_covers;
use crate::engine::key::PAIR_BASE;
use crate::engine::key::is_pair_code;
use crate::engine::key::lemma_code_order;
use crate::engine::key::serial_of;
use crate::engine::key::time_of;
use crate::engine::model::cleared;
use crate::engine::model::consistent;
use crate::engine::model::first_of;
use crate::engine::model::has_subject;
use crate::engine::model::joined;
use crate::engine::model::lemma_add_pair;
use crate::engine::model::lemma_add_solo;
use crate::engine::model::lemma_clear;
use crate::engine::model::lemma_fresh_record;
use crate::engine::model::lemma_join;
use crate::engine::model::lemma_part;
use crate::engine::model::lemma_pop;
use crate::engine::model::lemma_pop_subject;
use crate::engine::model::lemma_remove_record;
use crate::engine::model::lemma_schedule_insert;
use crate::engine::model::lemma_schedule_remove;
use crate::engine::model::lemma_schedule_strip;
use crate::engine::model::parted;
use crate::engine::model::removed;
use crate::engine::model::same_subject;
use crate::engine::model::schedule;
use crate::engine::model::second_of;
use crate::engine::model::with_pair_key;
use crate::engine::queue::is_head;
use crate::engine::record::HitboxInfo;
use crate::engine::record::Rec;
use crate::engine::record::Records;
use crate::engine::record::put;
use crate::engine::record::recs_of;
use crate::engine::record::remove_overlap;
use crate::engine::record::take;
use crate::engine::tracking::PeerTable;
use crate::engine::tracking::PeerTimes;
use crate::engine::tracking::Reply;
use crate::engine::tracking::Snapshot;
use crate::engine::tracking::SolitaireCheck;
use crate::engine::tracking::Step;
use crate::engine::tracking::Tracking;
use crate::engine::tracking::area_of;
use crate::engine::tracking::celled;
use crate::engine::tracking::lemma_consistent_payload;
use crate::engine::tracking::lemma_knows;
use crate::engine::tracking::lemma_next_code;
use crate::engine::tracking::lemma_no_pair_subject;
use crate::engine::tracking::grown;
use crate::engine::tracking::lemma_pairs_within_step;
use crate::engine::tracking::lemma_planned_step;
use crate::engine::tracking::lists_profiles;
use crate::engine::tracking::pairs_within;
use crate::engine::tracking::profiles_of;
use crate::engine::tracking::profiles_sound;
use crate::engine::tracking::same_but_keys;
use crate::engine::tracking::same_payload;
use crate::engine::tracking::unmentioned;
use crate::fnv_table::lemma_map_finite;
use crate::fnv_table::map_contains_key;
use crate::fnv_table::map_get;
use crate::fnv_table::set_contains;
use crate::fnv_table::set_items;
use crate::index_rect::IndexRect;
use crate::time::HIGH_TIME;
use crate::time::Time;
use crate::util::lemma_take_ends;
use crate::util::lemma_take_step;

verus! {

/// A structure that tracks hitboxes and returns collide/separate events.
///
/// Collider manages events using a "simulation time" that the user updates
/// as necessary. This time starts at zero.
///
/// `P` is the caller's profile type and `H` the caller's description of a
/// moving shape, which the engine stores and hands back untouched.
pub struct Collider<P: HbProfile, H> {
    hitboxes: Records<P, H>,
    time: Time,
    grid: Grid,
    events: EventManager,
    checks: bool,
}

impl<P: HbProfile, H> Collider<P, H> {
    /// The records of the tracked hitboxes by id.
    pub closed spec fn recs(&self) -> Map<HbId, Rec<P, H>> {
        recs_of(self.hitboxes)
    }

    /// The event manager.
    pub closed spec fn manager(&self) -> EventManager {
        self.events
    }

    /// The queued events by the code of their key.
    pub open spec fn queue(&self) -> Map<u128, InternalEvent> {
        self.manager().queue()
    }

    /// The grid.
    pub closed spec fn spec_grid(&self) -> Grid {
        self.grid
    }

    /// The current simulation time.
    pub closed spec fn spec_time(&self) -> Time {
        self.time
    }

    /// Whether expiry and size checks are scheduled as events.
    pub closed spec fn spec_checks(&self) -> bool {
        self.checks
    }

    /// The time of the first queued event, infinity if there is none.
    pub open spec fn spec_next_time(&self) -> Time {
        self.manager().spec_peek_time()
    }

    /// The event that is due now, if there is one.
    pub open spec fn pending(&self) -> Option<InternalEvent> {
        match self.manager().due(self.spec_time()) {
            Some(code) => Some(self.queue()[code]),
            None => None,
        }
    }

    /// The engine's invariant, stated for a table of records that may
    /// differ from the stored one by a record that is being worked on.
    pub open spec fn wf_on(&self, recs: Map<HbId, Rec<P, H>>) -> bool {
        &&& self.manager().wf()
        &&& self.spec_grid().wf()
        &&& self.spec_time() < HIGH_TIME
        &&& consistent(recs, self.queue(), self.spec_time())
        &&& profiles_sound(recs)
        &&& forall|id: HbId| #[trigger] self.spec_grid().holds_at(id, area_of(recs, id))
    }

    /// The engine's invariant. It holds after `new` and every public
    /// operation keeps it.
    pub open spec fn wf(&self) -> bool {
        self.wf_on(self.recs()) && celled(self.recs())
    }

    /// Whether a hitbox with this id is tracked.
    pub open spec fn tracks(&self, id: HbId) -> bool {
        self.recs().contains_key(id)
    }

    /// The peers that the hitbox `id` overlaps.
    pub open spec fn overlaps(&self, id: HbId) -> Set<HbId> {
        self.recs()[id].overlaps
    }

    /// Constructs a new `Collider` instance at time zero that tracks
    /// nothing.
    ///
    /// With `checks`, the engine schedules an event at the time at which a
    /// hitbox would outlive its end time or shrink below the smallest size
    /// allowed, and `next` reports a fault when that event comes due.
    /// Without it no such event is scheduled.
    pub fn new(checks: bool) -> (r: Collider<P, H>)
        ensures
            r.wf(),
            r.spec_time() == 0,
            r.spec_checks() == checks,
            r.recs() == Map::<HbId, Rec<P, H>>::empty(),
            r.queue() == Map::<u128, InternalEvent>::empty(),
            r.manager().allocated() == 0,
    {
        let r = Collider {
            hitboxes: FnvHashMap::default(),
            time: 0,
            grid: Grid::new(),
            events: EventManager::new(),
            checks,
        };
        proof {
            assert(r.recs() =~= Map::<HbId, Rec<P, H>>::empty());
            assert forall|id: HbId| #[trigger]
                r.spec_grid().holds_at(id, area_of(r.recs(), id)) by {
                assert forall|x: i32, y: i32, group: HbGroup| #[trigger]
                    r.spec_grid().occupants(x, y, group).contains(id) <==> area_covers(
                        area_of(r.recs(), id),
                        x,
                        y,
                        group,
                    ) by {}
            }
        }
        r
    }

    /// Returns the current simulation time.
    pub fn time(&self) -> (r: Time)
        ensures
            r == self.spec_time(),
    {
        self.time
    }

    /// Returns the time at which `self.next()` needs to be called again.
    ///
    /// Even if `self.next_time() == self.time()`, there is a chance that
    /// calling `self.next()` will report no event, having processed an
    /// internal one. The result may be infinity.
    pub fn next_time(&self) -> (r: Time)
        requires
            self.wf(),
        ensures
            r == self.spec_next_time(),
            self.spec_time() <= r,
    {
        proof {
            self.lemma_time_before_next_time();
        }
        self.events.peek_time()
    }

    /// Advances the simulation time to the given value.
    ///
    /// The time must not exceed `self.next_time()`, must not be less than
    /// `self.time()` (time cannot be rewound), and must be a time at which
    /// events can be scheduled.
    pub fn set_time(&mut self, time: Time)
        requires
            old(self).wf(),
            old(self).spec_time() <= time,
            time <= old(self).spec_next_time(),
            time < HIGH_TIME,
        ensures
            final(self).wf(),
            final(self).spec_time() == time,
            final(self).spec_time() >= old(self).spec_time(),
            final(self).recs() == old(self).recs(),
            final(self).manager() == old(self).manager(),
            final(self).spec_grid() == old(self).spec_grid(),
            final(self).spec_checks() == old(self).spec_checks(),
    {
        proof {
            assert forall|code: u128| #[trigger] self.queue().contains_key(code) implies time
                <= time_of(code) by {
                self.events.lemma_peek_time_is_least(code);
            }
        }
        self.time = time;
    }

    /// Whether a hitbox with this id is tracked.
    pub fn contains(&self, id: HbId) -> (r: bool)
        ensures
            r == self.tracks(id),
    {
        map_contains_key(&self.hitboxes, &id)
    }

    /// Returns the description of the hitbox with the given `id`, as it was
    /// last stored.
    pub fn get_hitbox(&self, id: HbId) -> (r: &H)
        requires
            self.tracks(id),
        ensures
            *r == self.recs()[id].hitbox,
    {
        let found = map_get(&self.hitboxes, &id);
        &found.unwrap().hitbox
    }

    /// Returns the profile of the hitbox with the given `id`.
    pub fn get_profile(&self, id: HbId) -> (r: P)
        requires
            self.tracks(id),
        ensures
            r == self.recs()[id].profile,
    {
        let found = map_get(&self.hitboxes, &id);
        found.unwrap().profile
    }

    /// Returns the grid cells that the hitbox with the given `id` occupies,
    /// `None` for a hitbox without a group.
    pub fn get_area(&self, id: HbId) -> (r: Option<IndexRect>)
        requires
            self.tracks(id),
        ensures
            r == self.recs()[id].area,
    {
        let found = map_get(&self.hitboxes, &id);
        found.unwrap().area
    }

    /// Returns the profiles of all currently tracked overlaps on the hitbox
    /// with the given `id`.
    pub fn get_overlaps(&self, id: HbId) -> (r: Vec<P>)
        requires
            self.wf(),
            self.tracks(id),
        ensures
            lists_profiles(self.recs(), self.overlaps(id), r@),
    {
        let found = map_get(&self.hitboxes, &id);
        let info = found.unwrap();
        let ids = info.overlaps.iter();
        let mut result: Vec<P> = Vec::new();
        let mut i: usize = 0;
        while i < ids.len()
            invariant
                0 <= i <= ids.len(),
                self.wf(),
                self.tracks(id),
                ids@.to_set() == self.overlaps(id),
                result@ == profiles_of(self.recs(), ids@.take(i as int)),
            decreases ids.len() - i,
        {
            let other_id = ids[i];
            proof {
                lemma_take_step(ids@, i as int);
                assert(self.recs()[id].overlaps.contains(other_id));
            }
            let other = map_get(&self.hitboxes, &other_id);
            result.push(other.unwrap().profile);
            proof {
                assert(ids@.take(i as int + 1) =~= ids@.take(i as int).push(other_id));
                assert(result@ =~= profiles_of(self.recs(), ids@.take(i as int + 1)));
            }
            i += 1;
        }
        proof {
            lemma_take_ends(ids@);
            assert(profiles_of(self.recs(), ids@) == result@);
        }
        result
    }

    /// Returns the ids of all currently tracked overlaps on the hitbox with
    /// the given `id`, each once, in an order that is not specified.
    pub fn overlap_ids(&self, id: HbId) -> (r: Vec<HbId>)
        requires
            self.tracks(id),
        ensures
            r@.to_set() == self.overlaps(id),
            r@.no_duplicates(),
    {
        let found = map_get(&self.hitboxes, &id);
        found.unwrap().overlaps.iter()
    }

    /// Returns true if there is a currently tracked overlap between the
    /// hitboxes with `id_1` and `id_2`.
    pub fn is_overlapping(&self, id_1: HbId, id_2: HbId) -> (r: bool)
        ensures
            r == (self.tracks(id_1) && self.overlaps(id_1).contains(id_2)),
    {
        match map_get(&self.hitboxes, &id_1) {
            Some(info) => info.overlaps.contains(&id_2),
            None => false,
        }
    }

    /// Returns the event that is due at the current time and that `next`
    /// will process, `None` if no event is due now.
    pub fn peek_event(&self) -> (r: Option<InternalEvent>)
        requires
            self.wf(),
        ensures
            r == self.pending(),
    {
        self.events.peek_event(self.time)
    }

    /// How many more event keys the engine can allocate.
    pub fn spare_keys(&self) -> (r: u64)
        requires
            self.wf(),
        ensures
            r == crate::engine::key::PAIR_BASE - self.manager().allocated(),
    {
        self.events.spare()
    }

    /// Schedules `event`, which is between the hitbox `id`, whose record
    /// `info` is out of the table, and the tracked hitbox `other_id`.
    fn schedule_pair(
        &mut self,
        id: HbId,
        info: &mut HitboxInfo<P, H>,
        other_id: HbId,
        event: InternalEvent,
        at: Time,
    )
        requires
            !old(self).tracks(id),
            old(self).wf_on(old(self).recs().insert(id, old(info)@)),
            old(self).tracks(other_id),
            other_id != id,
            event == InternalEvent::Collide(id, other_id) || event == InternalEvent::Separate(
                id,
                other_id,
            ),
            event is Collide ==> !old(info)@.overlaps.contains(other_id),
            event is Separate ==> old(info)@.overlaps.contains(other_id),
            !has_subject(old(self).queue(), event),
            old(self).spec_time() <= at,
            old(self).manager().has_room(),
        ensures
            !final(self).tracks(id),
            final(self).wf_on(final(self).recs().insert(id, final(info)@)),
            final(self).spec_time() == old(self).spec_time(),
            final(self).spec_grid() == old(self).spec_grid(),
            final(self).spec_checks() == old(self).spec_checks(),
            same_but_keys(
                final(self).recs().insert(id, final(info)@),
                old(self).recs().insert(id, old(info)@),
            ),
            final(self).recs().dom() == old(self).recs().dom(),
            final(self).queue().remove_keys(final(info)@.keys) == old(self).queue().remove_keys(
                old(info)@.keys,
            ),
            old(self).only_newer(*final(self)),
            at < HIGH_TIME ==> {
                &&& final(self).manager().allocated() == old(self).manager().allocated() + 1
                &&& schedule(final(self).queue()) == schedule(old(self).queue()).insert((event, at))
            },
            grown(old(self).queue(), final(self).queue(), event, at),
            at >= HIGH_TIME ==> {
                &&& final(self).queue() == old(self).queue()
                &&& final(self).manager().allocated() == old(self).manager().allocated()
                &&& final(self).recs() == old(self).recs()
                &&& final(info)@ == old(info)@
            },
    {
        let ghost recs0 = self.recs().insert(id, info@);
        let ghost queue0 = self.queue();
        proof {
            lemma_knows(self.events, recs0, id);
            lemma_knows(self.events, recs0, other_id);
        }
        let mut other = take(&mut self.hitboxes, other_id);
        self.events.add_pair_event(at, event, &mut info.event_keys, &mut other.event_keys);
        put(&mut self.hitboxes, other_id, other);
        proof {
            let recs1 = self.recs().insert(id, info@);
            if at < HIGH_TIME {
                let code = old(self).manager().next_code(at, true);
                lemma_add_pair(recs0, queue0, self.spec_time(), code, event, id, other_id);
                assert(recs1 =~= with_pair_key(recs0, id, other_id, code));
                lemma_schedule_insert(queue0, code, event);
                assert(self.queue() == queue0.insert(code, event));
                assert(self.queue().remove_keys(info@.keys) =~= queue0.remove_keys(
                    old(info)@.keys,
                ));
                lemma_next_code(old(self).manager(), at, true);
                assert forall|o: HbId| #[trigger]
                    self.spec_grid().holds_at(o, area_of(recs1, o)) by {
                    assert(old(self).spec_grid().holds_at(o, area_of(recs0, o)));
                    assert(area_of(recs1, o) == area_of(recs0, o));
                }
            } else {
                assert(self.recs() =~= old(self).recs());
                assert(recs1 =~= recs0);
            }
        }
    }

    /// Records that the hitbox `id_1` and the hitbox `id_2` have begun to
    /// overlap, and schedules their separation at `separate_at`.
    fn process_collision(
        id_1: HbId,
        hb_1: &mut HitboxInfo<P, H>,
        id_2: HbId,
        hb_2: &mut HitboxInfo<P, H>,
        events: &mut EventManager,
        separate_at: Time,
    )
        requires
            old(events).wf(),
            old(events).has_room(),
            old(events).knows(old(hb_1)@.keys),
            old(events).knows(old(hb_2)@.keys),
            !old(hb_1)@.overlaps.contains(id_2),
            !old(hb_2)@.overlaps.contains(id_1),
        ensures
            final(events).wf(),
            final(events).knows(final(hb_1)@.keys),
            final(events).knows(final(hb_2)@.keys),
            separate_at < HIGH_TIME ==> {
                let code = old(events).next_code(separate_at, true);
                &&& !old(events).queue().contains_key(code)
                &&& time_of(code) == separate_at
                &&& final(events).queue() == old(events).queue().insert(
                    code,
                    InternalEvent::Separate(id_1, id_2),
                )
                &&& final(events).allocated() == old(events).allocated() + 1
                &&& final(hb_1)@ == old(hb_1)@.with_overlap(id_2).with_key(code)
                &&& final(hb_2)@ == old(hb_2)@.with_overlap(id_1).with_key(code)
            },
            separate_at >= HIGH_TIME ==> {
                &&& final(events).queue() == old(events).queue()
                &&& final(events).allocated() == old(events).allocated()
                &&& final(hb_1)@ == old(hb_1)@.with_overlap(id_2)
                &&& final(hb_2)@ == old(hb_2)@.with_overlap(id_1)
            },
    {
        hb_1.overlaps.insert(id_2);
        hb_2.overlaps.insert(id_1);
        events.add_pair_event(
            separate_at,
            InternalEvent::Separate(id_1, id_2),
            &mut hb_1.event_keys,
            &mut hb_2.event_keys,
        );
    }

    /// Records that the hitbox `id`, whose record `info` is out of the
    /// table, and the tracked hitbox `other_id` overlap, and schedules their
    /// separation.
    fn meet_pair(
        &mut self,
        id: HbId,
        info: &mut HitboxInfo<P, H>,
        other_id: HbId,
        separate_at: Time,
    )
        requires
            !old(self).tracks(id),
            old(self).wf_on(old(self).recs().insert(id, old(info)@)),
            old(self).tracks(other_id),
            other_id != id,
            !old(info)@.overlaps.contains(other_id),
            !has_subject(old(self).queue(), InternalEvent::Collide(id, other_id)),
            !has_subject(old(self).queue(), InternalEvent::Separate(id, other_id)),
            old(self).spec_time() <= separate_at,
            old(self).manager().has_room(),
        ensures
            !final(self).tracks(id),
            final(self).wf_on(final(self).recs().insert(id, final(info)@)),
            final(self).spec_time() == old(self).spec_time(),
            final(self).spec_grid() == old(self).spec_grid(),
            final(self).spec_checks() == old(self).spec_checks(),
            same_payload(
                final(self).recs().insert(id, final(info)@),
                old(self).recs().insert(id, old(info)@),
            ),
            final(info)@.overlaps == old(info)@.overlaps.insert(other_id),
            final(self).recs().dom() == old(self).recs().dom(),
            final(self).queue().remove_keys(final(info)@.keys) == old(self).queue().remove_keys(
                old(info)@.keys,
            ),
            old(self).only_newer(*final(self)),
            forall|o: HbId| #[trigger]
                final(self).tracks(o) ==> final(self).recs()[o].overlaps == if o == other_id {
                    old(self).recs()[o].overlaps.insert(id)
                } else {
                    old(self).recs()[o].overlaps
                },
            separate_at < HIGH_TIME ==> {
                &&& final(self).manager().allocated() == old(self).manager().allocated() + 1
                &&& schedule(final(self).queue()) == schedule(old(self).queue()).insert(
                    (InternalEvent::Separate(id, other_id), separate_at),
                )
            },
            grown(
                old(self).queue(),
                final(self).queue(),
                InternalEvent::Separate(id, other_id),
                separate_at,
            ),
            separate_at >= HIGH_TIME ==> {
                &&& final(self).queue() == old(self).queue()
                &&& final(self).manager().allocated() == old(self).manager().allocated()
            },
    {
        let ghost recs0 = self.recs().insert(id, info@);
        let ghost queue0 = self.queue();
        let ghost event = InternalEvent::Separate(id, other_id);
        proof {
            lemma_knows(self.events, recs0, id);
            lemma_knows(self.events, recs0, other_id);
            assert(recs0.contains_key(other_id));
            if recs0[other_id].overlaps.contains(id) {
                assert(recs0[id].overlaps.contains(other_id));
            }
        }
        let mut other = take(&mut self.hitboxes, other_id);
        Self::process_collision(
            id,
            info,
            other_id,
            &mut other,
            &mut self.events,
            separate_at,
        );
        put(&mut self.hitboxes, other_id, other);
        proof {
            let recs1 = joined(recs0, id, other_id);
            let recs2 = self.recs().insert(id, info@);
            lemma_join(recs0, queue0, self.spec_time(), id, other_id);
            if separate_at < HIGH_TIME {
                let code = old(self).manager().next_code(separate_at, true);
                lemma_add_pair(recs1, queue0, self.spec_time(), code, event, id, other_id);
                assert(recs2 =~= with_pair_key(recs1, id, other_id, code));
                lemma_schedule_insert(queue0, code, event);
                assert(self.queue() == queue0.insert(code, event));
                assert(self.queue().remove_keys(info@.keys) =~= queue0.remove_keys(
                    old(info)@.keys,
                ));
                lemma_next_code(old(self).manager(), separate_at, true);
            } else {
                assert(recs2 =~= recs1);
            }
            assert forall|o: HbId| #[trigger] self.spec_grid().holds_at(o, area_of(recs2, o)) by {
                assert(old(self).spec_grid().holds_at(o, area_of(recs0, o)));
                assert(area_of(recs2, o) == area_of(recs0, o));
            }
        }
    }

    /// Schedules the event that the hitbox `id`, whose record `info` is out
    /// of the table, needs by itself: the earliest of `check`.
    ///
    /// A reiteration is always scheduled. An expiry or a size check is
    /// scheduled only if the engine was made with checks.
    fn solitaire_event_check(
        &mut self,
        id: HbId,
        info: &mut HitboxInfo<P, H>,
        check: &SolitaireCheck,
    )
        requires
            !old(self).tracks(id),
            old(self).wf_on(old(self).recs().insert(id, old(info)@)),
            unmentioned(old(self).queue(), id),
            check.not_before(old(self).spec_time()),
            old(self).manager().has_room(),
        ensures
            !final(self).tracks(id),
            final(self).wf_on(final(self).recs().insert(id, final(info)@)),
            final(self).spec_time() == old(self).spec_time(),
            final(self).spec_grid() == old(self).spec_grid(),
            final(self).spec_checks() == old(self).spec_checks(),
            final(self).recs() == old(self).recs(),
            same_but_keys(
                final(self).recs().insert(id, final(info)@),
                old(self).recs().insert(id, old(info)@),
            ),
            pairs_within(final(self).queue(), id, Set::<HbId>::empty()),
            final(self).queue().remove_keys(final(info)@.keys) == old(self).queue().remove_keys(
                old(info)@.keys,
            ),
            old(self).only_newer(*final(self)),
            schedule(final(self).queue()) == schedule(old(self).queue()).union(
                old(self).solitaire_plan(id, *check),
            ),
            final(self).manager().allocated() <= old(self).manager().allocated() + 1,
    {
        let ghost recs0 = self.recs().insert(id, info@);
        let ghost queue0 = self.queue();
        let result = check.earliest(id);
        let wanted = self.checks || match result.1 {
            InternalEvent::Reiterate(_) => true,
            _ => false,
        };
        if wanted {
            proof {
                lemma_knows(self.events, recs0, id);
            }
            self.events.add_solitaire_event(result.0, result.1, &mut info.event_keys);
            proof {
                let recs1 = self.recs().insert(id, info@);
                if result.0 < HIGH_TIME {
                    let code = old(self).manager().next_code(result.0, false);
                    assert(!has_subject(queue0, result.1)) by {
                        if has_subject(queue0, result.1) {
                            let c = choose|c: u128|
                                queue0.contains_key(c) && #[trigger] same_subject(
                                    queue0[c],
                                    result.1,
                                );
                            assert(queue0[c].involves(id));
                        }
                    }
                    lemma_add_solo(recs0, queue0, self.spec_time(), code, result.1, id);
                    assert(recs1 =~= recs0.insert(id, recs0[id].with_key(code)));
                    lemma_schedule_insert(queue0, code, result.1);
                    assert(self.queue() == queue0.insert(code, result.1));
                    assert(self.queue().remove_keys(info@.keys) =~= queue0.remove_keys(
                        old(info)@.keys,
                    ));
                    lemma_next_code(old(self).manager(), result.0, false);
                    assert(schedule(self.queue()) =~= schedule(queue0).union(
                        old(self).solitaire_plan(id, *check),
                    ));
                    assert forall|o: HbId| #[trigger]
                        self.spec_grid().holds_at(o, area_of(recs1, o)) by {
                        assert(old(self).spec_grid().holds_at(o, area_of(recs0, o)));
                        assert(area_of(recs1, o) == area_of(recs0, o));
                    }
                } else {
                    assert(recs1 =~= recs0);
                    assert(schedule(self.queue()) =~= schedule(queue0).union(
                        old(self).solitaire_plan(id, *check),
                    ));
                }
            }
        } else {
            proof {
                assert(schedule(self.queue()) =~= schedule(queue0).union(
                    old(self).solitaire_plan(id, *check),
                ));
            }
        }
    }

    /// What `solitaire_event_check` schedules for the hitbox `id`: the
    /// earliest event of `check` with its time, if the time allows
    /// scheduling and the event is a reiteration or the engine was made
    /// with checks; else nothing.
    pub open spec fn solitaire_plan(&self, id: HbId, check: SolitaireCheck) -> Set<
        (InternalEvent, Time),
    > {
        let (at, event) = check.spec_earliest(id);
        if at < HIGH_TIME && (self.spec_checks() || event is Reiterate) {
            set![(event, at)]
        } else {
            Set::<(InternalEvent, Time)>::empty()
        }
    }

    /// The round of tracking that `update_hitbox_tracking` runs for the
    /// hitbox `id` with the record `rec`, the new grid cells `new_rect` and
    /// the peer times `times`.
    pub open spec fn tracking(
        &self,
        id: HbId,
        rec: Rec<P, H>,
        new_rect: IndexRect,
        times: Map<HbId, PeerTimes>,
    ) -> Tracking<P> {
        Tracking {
            id,
            profile: rec.profile,
            grouped: rec.profile.spec_group() is Some,
            fresh: rec.area is None,
            overlaps: rec.overlaps,
            cellmates: self.spec_grid().cellmates(
                new_rect,
                rec.profile.spec_interact_groups()@,
            ).remove(id),
            profiles: Map::new(
                |o: HbId| self.recs().contains_key(o) && o != id,
                |o: HbId| self.recs()[o].profile,
            ),
            times,
        }
    }

    /// Whether `times` holds what a round of tracking reads: a time for
    /// every peer of the round, none of them in the past.
    pub open spec fn answers(&self, t: Tracking<P>) -> bool {
        &&& forall|o: HbId| #[trigger] t.peers().contains(o) ==> t.times.contains_key(o)
        &&& forall|o: HbId| #[trigger]
            t.times.contains_key(o) ==> self.spec_time() <= t.times[o].collide_at
                && self.spec_time() <= t.times[o].separate_at
    }

    /// Puts the record `info` of the hitbox `id` into the table, and with it
    /// brings the grid and the queue up to date: schedules the separation
    /// from every peer that the hitbox overlaps, moves the hitbox from the
    /// grid cells `old_rect` to `new_rect`, and schedules the collision
    /// with every cellmate that the hitbox interacts with.
    ///
    /// A hitbox that is being added (`old_rect` is `None`) and touches a
    /// cellmate already overlaps it at once: no collision is scheduled for
    /// the two, their separation is, and the cellmate's profile is
    /// returned.
    ///
    /// A hitbox without a group occupies no cells and gets no events.
    fn update_hitbox_tracking(
        &mut self,
        id: HbId,
        info: HitboxInfo<P, H>,
        old_rect: Option<IndexRect>,
        new_rect: IndexRect,
        peers: &PeerTable,
    ) -> (r: Vec<P>)
        requires
            !old(self).tracks(id),
            old(self).wf_on(old(self).recs().insert(id, info@)),
            celled(old(self).recs()),
            info@.area == old_rect,
            new_rect.wf(),
            pairs_within(old(self).queue(), id, Set::<HbId>::empty()),
            info@.profile.spec_group() is Some && old_rect is None ==> info@.overlaps == Set::<
                HbId,
            >::empty(),
            old(self).answers(old(self).tracking(id, info@, new_rect, peers@)),
            info@.profile.spec_group() is Some ==> {
                let t = old(self).tracking(id, info@, new_rect, peers@);
                old(self).manager().allocated() + t.overlaps.len() + t.cellmates.len() < PAIR_BASE
            },
        ensures
            final(self).wf(),
            final(self).tracks(id),
            final(self).spec_time() == old(self).spec_time(),
            final(self).spec_checks() == old(self).spec_checks(),
            same_payload(
                final(self).recs(),
                old(self).recs().insert(
                    id,
                    Rec {
                        area: if info@.profile.spec_group() is Some {
                            Some(new_rect)
                        } else {
                            None
                        },
                        ..info@
                    },
                ),
            ),
            ({
                let t = old(self).tracking(id, info@, new_rect, peers@);
                &&& schedule(final(self).queue()) == schedule(old(self).queue()).union(
                    t.planned(t.peers()),
                )
                &&& final(self).overlaps(id) == t.overlaps.union(t.met())
                &&& forall|o: HbId| #[trigger]
                    old(self).tracks(o) ==> final(self).overlaps(o) == if t.meets(o) {
                        old(self).overlaps(o).insert(id)
                    } else {
                        old(self).overlaps(o)
                    }
                &&& lists_profiles(final(self).recs(), t.met(), r@)
                &&& final(self).manager().allocated() <= old(self).manager().allocated()
                    + t.overlaps.len() + t.cellmates.len()
            }),
            final(self).queue().remove_keys(final(self).recs()[id].keys)
                == old(self).queue().remove_keys(info@.keys),
            old(self).only_newer(*final(self)),
            info@.profile.spec_group() is None ==> {
                &&& final(self).queue() == old(self).queue()
                &&& final(self).manager().allocated() == old(self).manager().allocated()
                &&& final(self).recs() == old(self).recs().insert(id, info@)
                &&& r@.len() == 0
            },
    {
        let mut info = info;
        let mut result: Vec<P> = Vec::new();
        let ghost rec0 = info@;
        let ghost recs00 = self.recs();
        let ghost queue0 = self.queue();
        let ghost t = self.tracking(id, rec0, new_rect, peers@);
        let ghost mut met_order: Seq<HbId> = Seq::empty();
        if let Some(group) = info.profile.group() {
            let ovl = info.overlaps.iter();
            let groups = info.profile.interact_groups();
            proof {
                ovl@.unique_seq_to_set();
                lemma_take_ends(ovl@);
                lemma_planned_step(t, Set::<HbId>::empty(), id);
                assert(schedule(queue0) =~= schedule(queue0).union(
                    t.planned(Set::<HbId>::empty()),
                ));
                assert(self.recs().insert(id, info@).contains_key(id));
            }
            let mut i: usize = 0;
            while i < ovl.len()
                invariant
                    0 <= i <= ovl.len(),
                    ovl@.no_duplicates(),
                    ovl@.to_set() == t.overlaps,
                    ovl@.len() == t.overlaps.len(),
                    t == old(self).tracking(id, rec0, new_rect, peers@),
                    old(self).answers(t),
                    rec0.profile.spec_group() is Some,
                    !self.tracks(id),
                    self.wf_on(self.recs().insert(id, info@)),
                    self.spec_time() == old(self).spec_time(),
                    self.spec_grid() == old(self).spec_grid(),
                    self.spec_checks() == old(self).spec_checks(),
                    same_but_keys(self.recs().insert(id, info@), recs00.insert(id, rec0)),
                    self.recs().dom() == recs00.dom(),
                    recs00 == old(self).recs(),
                    !recs00.contains_key(id),
                    queue0 == old(self).queue(),
                    self.queue().remove_keys(info@.keys) == queue0.remove_keys(rec0.keys),
                    old(self).only_newer(*self),
                    pairs_within(self.queue(), id, ovl@.take(i as int).to_set()),
                    schedule(self.queue()) == schedule(queue0).union(
                        t.planned(ovl@.take(i as int).to_set()),
                    ),
                    self.manager().allocated() <= old(self).manager().allocated() + i,
                    old(self).manager().allocated() + t.overlaps.len() + t.cellmates.len()
                        < PAIR_BASE,
                decreases ovl.len() - i,
            {
                let other_id = ovl[i];
                let ghost done = ovl@.take(i as int).to_set();
                let ghost recs_k = self.recs().insert(id, info@);
                proof {
                    lemma_take_step(ovl@, i as int);
                    assert(t.overlaps.contains(other_id));
                    assert(t.peers().contains(other_id));
                    assert(recs_k.contains_key(id));
                    assert(recs_k[id].overlaps.contains(other_id));
                    assert(recs_k.contains_key(other_id) && other_id != id);
                    lemma_no_pair_subject(self.queue(), keys_of(recs_k), id, other_id, done);
                }
                let found = map_get(peers, &other_id);
                let pt = *found.unwrap();
                let ghost queue_k = self.queue();
                self.schedule_pair(
                    id,
                    &mut info,
                    other_id,
                    InternalEvent::Separate(id, other_id),
                    pt.separate_at,
                );
                proof {
                    lemma_planned_step(t, done, other_id);
                    assert(t.plan(other_id) == Some(
                        (InternalEvent::Separate(id, other_id), pt.separate_at),
                    ));
                    lemma_pairs_within_step(
                        queue_k,
                        self.queue(),
                        id,
                        other_id,
                        done,
                        InternalEvent::Separate(id, other_id),
                        pt.separate_at,
                    );
                    assert(schedule(self.queue()) =~= schedule(queue0).union(
                        t.planned(done.insert(other_id)),
                    ));
                }
                i += 1;
            }
            proof {
                lemma_take_ends(ovl@);
                let recs_a = self.recs().insert(id, info@);
                assert(self.spec_grid().holds_at(id, area_of(recs_a, id)));
                assert(recs_a.contains_key(id));
                assert(recs_a[id].area == old_rect);
                assert(recs_a[id].profile == rec0.profile);
            }
            let ghost grid0 = self.grid;
            let ghost recs_a = self.recs().insert(id, info@);
            let found = self.grid.update_hitbox(id, group, old_rect, Some(new_rect), groups);
            let test_ids = found.unwrap();
            info.area = Some(new_rect);
            let cands = set_items(&test_ids);
            let ghost recs_b = self.recs().insert(id, info@);
            let ghost alloc_b = self.manager().allocated();
            proof {
                cands@.unique_seq_to_set();
                lemma_take_ends(cands@);
                assert(recs_b.dom() =~= recs_a.dom());
                lemma_consistent_payload(recs_a, recs_b, self.queue(), self.spec_time());
                assert forall|o: HbId| #[trigger]
                    self.spec_grid().holds_at(o, area_of(recs_b, o)) by {
                    if o != id {
                        assert(grid0.holds_at(o, area_of(recs_a, o)));
                        assert(area_of(recs_b, o) == area_of(recs_a, o));
                        assert forall|x: i32, y: i32, g: HbGroup| #[trigger]
                            self.spec_grid().occupants(x, y, g).contains(o) <==> area_covers(
                                area_of(recs_b, o),
                                x,
                                y,
                                g,
                            ) by {
                            assert(grid0.occupants(x, y, g).contains(o) <==> area_covers(
                                area_of(recs_a, o),
                                x,
                                y,
                                g,
                            ));
                        }
                    }
                }
                assert forall|o: HbId| #[trigger] recs00.contains_key(o) implies self.recs()[o].overlaps
                    == recs00[o].overlaps by {
                    assert(recs_a.contains_key(o));
                    assert(recs_a[o] == self.recs()[o]);
                    assert(recs00.insert(id, rec0)[o] == recs00[o]);
                }
                assert forall|o: HbId| t.cellmates.contains(o) implies recs00.contains_key(o) && o
                    != id by {
                    let (x, y, j) = choose|x: i32, y: i32, j: int|
                        0 <= j < groups@.len() && new_rect.spec_contains((x, y))
                            && #[trigger] grid0.occupants(x, y, groups@[j]).contains(o);
                    assert(grid0.holds_at(o, area_of(recs_a, o)));
                    assert(area_covers(area_of(recs_a, o), x, y, groups@[j]));
                    assert(recs_a.contains_key(o));
                }
                assert(t.met().intersect(cands@.take(0).to_set()) =~= Set::<HbId>::empty());
                assert(info@.overlaps =~= t.overlaps.union(
                    t.met().intersect(cands@.take(0).to_set()),
                ));
                assert(t.overlaps.union(cands@.take(0).to_set()) =~= t.overlaps);
                assert(same_payload(recs_b, recs00.insert(id, Rec { area: Some(new_rect), ..rec0 })));
            }
            let mut j: usize = 0;
            while j < cands.len()
                invariant
                    0 <= j <= cands.len(),
                    cands@.no_duplicates(),
                    cands@.to_set() == t.cellmates,
                    cands@.len() == t.cellmates.len(),
                    forall|o: HbId| t.cellmates.contains(o) ==> recs00.contains_key(o) && o != id,
                    self.recs().dom() == recs00.dom(),
                    t == old(self).tracking(id, rec0, new_rect, peers@),
                    old(self).answers(t),
                    old_rect == rec0.area,
                    old_rect is None ==> t.overlaps == Set::<HbId>::empty(),
                    rec0.profile.spec_group() is Some,
                    info@.profile == rec0.profile,
                    !self.tracks(id),
                    self.wf_on(self.recs().insert(id, info@)),
                    self.spec_time() == old(self).spec_time(),
                    self.spec_checks() == old(self).spec_checks(),
                    same_payload(
                        self.recs().insert(id, info@),
                        recs00.insert(id, Rec { area: Some(new_rect), ..rec0 }),
                    ),
                    recs00 == old(self).recs(),
                    !recs00.contains_key(id),
                    queue0 == old(self).queue(),
                    info@.overlaps == t.overlaps.union(
                        t.met().intersect(cands@.take(j as int).to_set()),
                    ),
                    forall|o: HbId| #[trigger]
                        recs00.contains_key(o) ==> self.recs()[o].overlaps == if cands@.take(
                            j as int,
                        ).to_set().contains(o) && t.meets(o) {
                            recs00[o].overlaps.insert(id)
                        } else {
                            recs00[o].overlaps
                        },
                    self.queue().remove_keys(info@.keys) == queue0.remove_keys(rec0.keys),
                    old(self).only_newer(*self),
                    pairs_within(
                        self.queue(),
                        id,
                        t.overlaps.union(cands@.take(j as int).to_set()),
                    ),
                    schedule(self.queue()) == schedule(queue0).union(
                        t.planned(t.overlaps.union(cands@.take(j as int).to_set())),
                    ),
                    self.manager().allocated() <= alloc_b + j,
                    alloc_b + t.cellmates.len() < PAIR_BASE,
                    met_order.no_duplicates(),
                    met_order.to_set() == t.met().intersect(cands@.take(j as int).to_set()),
                    result@ == Seq::new(met_order.len(), |k: int| t.profiles[met_order[k]]),
                decreases cands.len() - j,
            {
                let other_id = cands[j];
                let ghost done2 = cands@.take(j as int).to_set();
                let ghost done = t.overlaps.union(done2);
                let ghost recs_k = self.recs().insert(id, info@);
                let ghost queue_k = self.queue();
                let ghost mid = self.recs();
                proof {
                    lemma_take_step(cands@, j as int);
                    assert(t.cellmates.contains(other_id));
                    assert(t.peers().contains(other_id));
                    assert(recs_k.contains_key(id));
                    assert(recs_k.contains_key(other_id));
                    lemma_planned_step(t, done, other_id);
                    assert(done.insert(other_id) =~= t.overlaps.union(done2.insert(other_id)));
                    assert(recs00.contains_key(other_id));
                    assert(t.profiles[other_id] == recs00[other_id].profile);
                }
                let eligible = old_rect.is_none() || !info.overlaps.contains(&other_id);
                assert(eligible == !t.overlaps.contains(other_id));
                let mut met_now = false;
                if eligible {
                    let other_profile = self.get_profile(other_id);
                    assert(other_profile == t.profiles[other_id]);
                    if info.profile.can_interact(&other_profile) {
                        assert(t.courts(other_id));
                        let found = map_get(peers, &other_id);
                        let pt = *found.unwrap();
                        proof {
                            lemma_no_pair_subject(
                                self.queue(),
                                keys_of(recs_k),
                                id,
                                other_id,
                                done,
                            );
                            assert(!info@.overlaps.contains(other_id));
                        }
                        if old_rect.is_none() && pt.touching {
                            assert(t.meets(other_id));
                            result.push(other_profile);
                            self.meet_pair(id, &mut info, other_id, pt.separate_at);
                            met_now = true;
                            proof {
                                assert(t.plan(other_id) == Some(
                                    (InternalEvent::Separate(id, other_id), pt.separate_at),
                                ));
                                lemma_pairs_within_step(
                                    queue_k,
                                    self.queue(),
                                    id,
                                    other_id,
                                    done,
                                    InternalEvent::Separate(id, other_id),
                                    pt.separate_at,
                                );
                                assert(schedule(self.queue()) =~= schedule(queue0).union(
                                    t.planned(done.insert(other_id)),
                                ));
                                let ghost old_order = met_order;
                                met_order = met_order.push(other_id);
                                assert(!old_order.to_set().contains(other_id));
                                assert(met_order.no_duplicates()) by {
                                    assert forall|a: int, b: int|
                                        0 <= a < met_order.len() && 0 <= b < met_order.len() && a
                                            != b implies met_order[a] != met_order[b] by {
                                        if a == old_order.len() {
                                            assert(old_order.to_set().contains(old_order[b]));
                                        } else if b == old_order.len() {
                                            assert(old_order.to_set().contains(old_order[a]));
                                        }
                                    }
                                }
                                old_order.lemma_push_to_set_commute(other_id);
                                assert(met_order.to_set() =~= t.met().intersect(
                                    done2.insert(other_id),
                                ));
                                assert(result@ =~= Seq::new(
                                    met_order.len(),
                                    |k: int| t.profiles[met_order[k]],
                                ));
                                assert(info@.overlaps =~= t.overlaps.union(
                                    t.met().intersect(done2.insert(other_id)),
                                ));
                            }
                        } else {
                            assert(!t.meets(other_id));
                            self.schedule_pair(
                                id,
                                &mut info,
                                other_id,
                                InternalEvent::Collide(id, other_id),
                                pt.collide_at,
                            );
                            proof {
                                assert(t.plan(other_id) == Some(
                                    (InternalEvent::Collide(id, other_id), pt.collide_at),
                                ));
                                lemma_pairs_within_step(
                                    queue_k,
                                    self.queue(),
                                    id,
                                    other_id,
                                    done,
                                    InternalEvent::Collide(id, other_id),
                                    pt.collide_at,
                                );
                                assert(schedule(self.queue()) =~= schedule(queue0).union(
                                    t.planned(done.insert(other_id)),
                                ));
                            }
                        }
                    } else {
                        assert(!t.courts(other_id));
                        assert(t.plan(other_id) is None);
                    }
                } else {
                    assert(!t.courts(other_id));
                }
                proof {
                    if !met_now {
                        assert(!t.meets(other_id));
                        assert(t.met().intersect(done2.insert(other_id)) =~= t.met().intersect(
                            done2,
                        ));
                        let recs_n = self.recs().insert(id, info@);
                        assert(recs_n.contains_key(id));
                        assert(recs_n[id].overlaps == recs_k[id].overlaps);
                        assert forall|o: HbId| #[trigger] recs00.contains_key(o) implies self.recs()[o].overlaps
                            == mid[o].overlaps by {
                            assert(recs_n.contains_key(o));
                            assert(recs_n[o] == self.recs()[o]);
                            assert(recs_k[o] == mid[o]);
                        }
                    } else {
                        assert forall|o: HbId| #[trigger] recs00.contains_key(o) implies self.recs()[o].overlaps
                            == (if done2.insert(other_id).contains(o) && t.meets(o) {
                            recs00[o].overlaps.insert(id)
                        } else {
                            recs00[o].overlaps
                        }) by {
                            assert(self.recs().dom().contains(o));
                            assert(self.tracks(o));
                        }
                    }
                    assert(pairs_within(self.queue(), id, done.insert(other_id)));
                    assert(schedule(self.queue()) == schedule(queue0).union(
                        t.planned(done.insert(other_id)),
                    ));
                }
                j += 1;
            }
            proof {
                lemma_take_ends(cands@);
                assert(t.overlaps.union(cands@.to_set()) =~= t.peers());
                assert(t.met().intersect(cands@.to_set()) =~= t.met());
            }
        } else {
            proof {
                assert(rec0.profile.spec_group() is None);
                assert(!t.grouped);
                assert(t.met() =~= Set::<HbId>::empty());
                assert(t.planned(t.peers()) =~= Set::<(InternalEvent, Time)>::empty());
                assert(schedule(queue0).union(t.planned(t.peers())) =~= schedule(queue0));
                assert(t.overlaps.union(t.met()) =~= t.overlaps);
            }
        }
        let ghost recs_z = self.recs().insert(id, info@);
        put(&mut self.hitboxes, id, info);
        proof {
            assert(self.recs() == recs_z);
            if rec0.profile.spec_group() is None {
                assert(met_order =~= Seq::<HbId>::empty());
                assert(met_order.to_set() =~= t.met());
                assert(profiles_of(self.recs(), met_order) =~= result@);
                assert forall|o: HbId| #[trigger] old(self).tracks(o) implies self.overlaps(o)
                    == old(self).overlaps(o) by {
                    assert(recs_z[o] == recs00[o]);
                }
            }
            if rec0.profile.spec_group() is Some {
                assert(lists_profiles(self.recs(), t.met(), result@)) by {
                    assert(profiles_of(self.recs(), met_order) =~= result@) by {
                        assert forall|k: int| 0 <= k < met_order.len() implies self.recs()[met_order[k]].profile
                            == t.profiles[met_order[k]] by {
                            assert(met_order.to_set().contains(met_order[k]));
                            assert(t.meets(met_order[k]));
                            assert(t.cellmates.contains(met_order[k]));
                        }
                    }
                }
            }
        }
        result
    }

    /// A record as `add_hitbox` first makes it: no grid cells, no events, no
    /// overlaps.
    pub open spec fn blank(profile: P, hitbox: H) -> Rec<P, H> {
        Rec {
            profile,
            hitbox,
            area: None,
            keys: Set::<u128>::empty(),
            overlaps: Set::<HbId>::empty(),
        }
    }

    /// Whether `snapshot` is fit for the hitbox `id` with the record `rec`:
    /// its grid cells are a rectangle, none of its times lies in the past, it
    /// holds the times of every peer that tracking will look at, and the
    /// engine has keys left for the events that may be scheduled.
    pub open spec fn ready_for(&self, id: HbId, rec: Rec<P, H>, snapshot: Snapshot<H>) -> bool {
        &&& snapshot.area.wf()
        &&& snapshot.check.not_before(self.spec_time())
        &&& self.answers(self.tracking(id, rec, snapshot.area, snapshot.peers@))
        &&& self.manager().allocated() + 1 + 2 * snapshot.peers@.dom().len() < PAIR_BASE
    }

    /// The grid cells that a hitbox with the given profile claims once it
    /// is tracked with the cells `area`.
    pub open spec fn cells_for(profile: P, area: IndexRect) -> Option<IndexRect> {
        if profile.spec_group() is Some {
            Some(area)
        } else {
            None
        }
    }

    /// What `add_hitbox` has done: how the state `after` and the returned
    /// profiles `r` relate to `self`, the state before.
    ///
    /// The hitbox is stored under the id of its profile, with grid cells if
    /// it has a group. No other record has changed in profile, description
    /// or cells, and no event that was queued has changed. Scheduled now
    /// are, besides, the event that the hitbox needs by itself and what the
    /// round of tracking asks for. The hitbox overlaps exactly the peers
    /// that it met, each of them overlaps it too, and `r` lists their
    /// profiles.
    pub open spec fn added(
        &self,
        after: Collider<P, H>,
        profile: P,
        snapshot: Snapshot<H>,
        r: Seq<P>,
    ) -> bool {
        let id = profile.spec_id();
        let t = self.tracking(
            id,
            Self::blank(profile, snapshot.hitbox),
            snapshot.area,
            snapshot.peers@,
        );
        &&& after.tracks(id)
        &&& after.spec_time() == self.spec_time()
        &&& after.spec_checks() == self.spec_checks()
        &&& same_payload(
            after.recs(),
            self.recs().insert(
                id,
                Rec {
                    area: Self::cells_for(profile, snapshot.area),
                    ..Self::blank(profile, snapshot.hitbox)
                },
            ),
        )
        &&& after.queue().remove_keys(after.recs()[id].keys) == self.queue()
        &&& schedule(after.queue()) == schedule(self.queue()).union(
            self.solitaire_plan(id, snapshot.check),
        ).union(t.planned(t.peers()))
        &&& after.overlaps(id) == t.met()
        &&& forall|o: HbId| #[trigger]
            self.tracks(o) ==> after.overlaps(o) == if t.meets(o) {
                self.overlaps(o).insert(id)
            } else {
                self.overlaps(o)
            }
        &&& lists_profiles(after.recs(), t.met(), r)
    }

    /// What `remove_hitbox` has done: how the state `after` and the
    /// returned profiles `r` relate to `self`, the state before.
    ///
    /// The record of the hitbox is gone, and so is every event that
    /// mentioned it, from the queue and from the key sets of its peers. No
    /// peer lists it as an overlap. Nothing else has changed. `r` lists the
    /// profiles of the peers that it overlapped.
    pub open spec fn dropped(&self, after: Collider<P, H>, id: HbId, r: Seq<P>) -> bool {
        &&& !after.tracks(id)
        &&& after.spec_time() == self.spec_time()
        &&& after.spec_checks() == self.spec_checks()
        &&& after.manager().allocated() == self.manager().allocated()
        &&& after.recs() == removed(cleared(self.recs(), id), id)
        &&& after.queue() == self.queue().remove_keys(self.recs()[id].keys)
        &&& schedule(after.queue()) == schedule(self.queue()).filter(
            |f: (InternalEvent, Time)| !f.0.involves(id),
        )
        &&& lists_profiles(self.recs(), self.overlaps(id), r)
    }

    /// What `internal_update_hitbox` has done: how the state `after`
    /// relates to `self`, the state before.
    ///
    /// The hitbox has its new description and its new grid cells. Every
    /// event that mentioned it is cancelled. Scheduled in their place are the
    /// event that the hitbox needs by itself and what the round of tracking
    /// asks for. No overlap has changed, no other record has changed in
    /// profile, description or cells, and no event that does not mention
    /// the hitbox has changed.
    pub open spec fn updated(&self, after: Collider<P, H>, id: HbId, snapshot: Snapshot<H>) -> bool {
        let t = self.tracking(id, self.recs()[id], snapshot.area, snapshot.peers@);
        &&& after.tracks(id)
        &&& after.spec_time() == self.spec_time()
        &&& after.spec_checks() == self.spec_checks()
        &&& same_payload(
            after.recs(),
            self.recs().insert(
                id,
                Rec {
                    hitbox: snapshot.hitbox,
                    area: Self::cells_for(self.recs()[id].profile, snapshot.area),
                    ..self.recs()[id]
                },
            ),
        )
        &&& forall|o: HbId| #[trigger] self.tracks(o) ==> after.overlaps(o) == self.overlaps(o)
        &&& after.queue().remove_keys(after.recs()[id].keys) == self.queue().remove_keys(
            self.recs()[id].keys,
        )
        &&& schedule(after.queue()) == schedule(self.queue()).filter(
            |f: (InternalEvent, Time)| !f.0.involves(id),
        ).union(self.solitaire_plan(id, snapshot.check)).union(t.planned(t.peers()))
    }

    /// # Adds a new hitbox to the collider.
    ///
    /// The `profile` is used to track the hitbox over time; the engine
    /// returns this profile in certain methods, and the id in this profile
    /// can be used to make updates to the hitbox. The id must not be in use.
    /// `snapshot` is the initial state of the hitbox.
    ///
    /// Returns the profiles of all hitboxes that this new hitbox touched as
    /// it was added. No `Collide` events are generated for these: the two
    /// overlap from now on, and their separation is scheduled.
    pub fn add_hitbox(&mut self, profile: P, snapshot: Snapshot<H>) -> (r: Vec<P>)
        requires
            old(self).wf(),
            !old(self).tracks(profile.spec_id()),
            old(self).ready_for(
                profile.spec_id(),
                Self::blank(profile, snapshot.hitbox),
                snapshot,
            ),
        ensures
            final(self).wf(),
            old(self).added(*final(self), profile, snapshot, r@),
            old(self).only_newer(*final(self)),
    {
        let id = profile.id();
        let Snapshot { hitbox, check, area, peers } = snapshot;
        let mut info = HitboxInfo::new(hitbox, profile, None);
        let ghost rec0 = info@;
        let ghost t = self.tracking(id, rec0, area, peers@);
        proof {
            assert(rec0 == Self::blank(profile, hitbox));
            lemma_fresh_record(self.recs(), self.queue(), self.spec_time(), id, rec0);
            let recs1 = self.recs().insert(id, rec0);
            assert forall|o: HbId| #[trigger] self.spec_grid().holds_at(o, area_of(recs1, o)) by {
                assert(self.spec_grid().holds_at(o, area_of(self.recs(), o)));
                if o == id {
                    assert(area_of(self.recs(), o) is None);
                    assert(area_of(recs1, o) is None);
                } else {
                    assert(area_of(recs1, o) == area_of(self.recs(), o));
                }
            }
            lemma_map_finite(&peers);
            self.lemma_room(t, peers@);
        }
        self.solitaire_event_check(id, &mut info, &check);
        proof {
            assert(info@.overlaps == rec0.overlaps && info@.profile == rec0.profile && info@.area
                == rec0.area) by {
                let a = self.recs().insert(id, info@);
                assert(a.contains_key(id));
            }
            assert(self.tracking(id, info@, area, peers@) == t);
        }
        let ghost queue1 = self.queue();
        let ghost recs1 = self.recs();
        let ghost s1 = *self;
        let result = self.update_hitbox_tracking(id, info, None, area, &peers);
        proof {
            assert(t.overlaps.union(t.met()) =~= t.met());
            assert(recs1 == old(self).recs());
            assert(schedule(queue1) == schedule(old(self).queue()).union(
                old(self).solitaire_plan(id, check),
            ));
            assert(schedule(self.queue()) == schedule(queue1).union(t.planned(t.peers())));
            assert(old(self).queue().remove_keys(rec0.keys) =~= old(self).queue());
            assert(self.queue().remove_keys(self.recs()[id].keys) == old(self).queue());
            assert(self.overlaps(id) == t.met());
            assert(lists_profiles(self.recs(), t.met(), result@));
            assert forall|o: HbId| #[trigger] old(self).tracks(o) implies self.overlaps(o) == (if t.meets(
                o,
            ) {
                old(self).overlaps(o).insert(id)
            } else {
                old(self).overlaps(o)
            }) by {
                assert(s1.tracks(o));
            }
        }
        result
    }

    /// The keys that a round of tracking may use are at most two for each
    /// peer that has a time.
    proof fn lemma_room(&self, t: Tracking<P>, times: Map<HbId, PeerTimes>)
        requires
            self.answers(t),
            t.times == times,
            times.dom().finite(),
            t.overlaps.finite(),
        ensures
            t.grouped ==> t.overlaps.len() + t.cellmates.len() <= 2 * times.dom().len(),
            t.grouped ==> t.cellmates.finite(),
    {
        if t.grouped {
            assert forall|o: HbId| t.overlaps.contains(o) implies times.dom().contains(o) by {
                assert(t.peers().contains(o));
            }
            assert forall|o: HbId| t.cellmates.contains(o) implies times.dom().contains(o) by {
                assert(t.peers().contains(o));
            }
            vstd::set_lib::lemma_len_subset(t.overlaps, times.dom());
            vstd::set_lib::lemma_len_subset(t.cellmates, times.dom());
        }
    }

    /// Takes a new snapshot of the tracked hitbox `id`: cancels every event
    /// that mentions the hitbox and tracks it anew from `snapshot`.
    ///
    /// The overlaps of the hitbox stay as they are, and a separation is
    /// scheduled for each of them.
    fn internal_update_hitbox(&mut self, id: HbId, snapshot: Snapshot<H>)
        requires
            old(self).wf(),
            old(self).tracks(id),
            old(self).ready_for(id, old(self).recs()[id], snapshot),
        ensures
            final(self).wf(),
            old(self).updated(*final(self), id, snapshot),
            old(self).only_newer(*final(self)),
    {
        let Snapshot { hitbox, check, area, peers } = snapshot;
        let ghost recs0 = self.recs();
        let ghost queue0 = self.queue();
        let ghost t = self.tracking(id, recs0[id], area, peers@);
        let mut info = take(&mut self.hitboxes, id);
        let old_rect = info.area;
        info.hitbox = hitbox;
        proof {
            assert(keys_of(self.recs()).insert(id, info.event_keys@) =~= keys_of(recs0));
            lemma_clear(recs0, queue0, self.spec_time(), id);
            lemma_schedule_strip(queue0, recs0[id].keys, id);
        }
        self.events.clear_related_events(id, &mut info.event_keys, &mut self.hitboxes);
        proof {
            let recs1 = self.recs().insert(id, info@);
            let recs_c = cleared(recs0, id);
            assert(recs1.dom() =~= recs_c.dom());
            assert forall|o: HbId| #[trigger] recs_c.contains_key(o) implies recs1[o].keys
                == recs_c[o].keys && recs1[o].overlaps == recs_c[o].overlaps by {
                if o == id {
                    assert(recs_c[o].keys =~= Set::<u128>::empty());
                } else {
                    assert(self.recs().contains_key(o));
                }
            }
            lemma_consistent_payload(recs_c, recs1, self.queue(), self.spec_time());
            assert forall|o: HbId| #[trigger] self.spec_grid().holds_at(o, area_of(recs1, o)) by {
                assert(old(self).spec_grid().holds_at(o, area_of(recs0, o)));
                assert(area_of(recs1, o) == area_of(recs0, o));
            }
            assert(profiles_sound(recs1)) by {
                assert forall|o: HbId| #[trigger] recs1.contains_key(o) implies recs1[o].profile
                    == recs0[o].profile && recs1[o].area == recs0[o].area by {
                    assert(recs0.contains_key(o));
                }
            }
            assert(unmentioned(self.queue(), id));
            assert(celled(self.recs())) by {
                assert forall|o: HbId|
                    #[trigger] self.recs().contains_key(o) && self.recs()[o].profile.spec_group()
                        is Some implies self.recs()[o].area is Some by {
                    assert(recs0.contains_key(o));
                }
            }
            assert(self.spec_grid() == old(self).spec_grid());
            assert(forall|o: HbId| #[trigger]
                self.recs().contains_key(o) ==> self.recs()[o].profile == recs0[o].profile);
            assert(self.tracking(id, info@, area, peers@).profiles =~= t.profiles);
            assert(self.tracking(id, info@, area, peers@) == t);
            info.overlaps.lemma_finite();
            lemma_map_finite(&peers);
            self.lemma_room(t, peers@);
        }
        let ghost queue1 = self.queue();
        let ghost recs_m = self.recs();
        self.solitaire_event_check(id, &mut info, &check);
        proof {
            assert(info@.overlaps == recs0[id].overlaps && info@.profile == recs0[id].profile
                && info@.area == recs0[id].area && info@.hitbox == hitbox) by {
                let a = self.recs().insert(id, info@);
                assert(a.contains_key(id));
            }
            assert(self.tracking(id, info@, area, peers@) == t);
            assert(celled(self.recs()));
        }
        let ghost recs_t = self.recs();
        let ghost rec_t = info@;
        let ghost s1 = *self;
        let result = self.update_hitbox_tracking(id, info, old_rect, area, &peers);
        proof {
            assert(queue1.remove_keys(Set::<u128>::empty()) =~= queue1);
            assert(self.queue().remove_keys(self.recs()[id].keys) == queue0.remove_keys(
                recs0[id].keys,
            ));
            assert(old_rect is None ==> !t.grouped);
            assert(t.met() =~= Set::<HbId>::empty());
            assert(t.overlaps.union(t.met()) =~= t.overlaps);
            assert forall|o: HbId| #[trigger] old(self).tracks(o) implies self.overlaps(o)
                == old(self).overlaps(o) by {
                if o != id {
                    assert(recs_m.contains_key(o));
                    assert(recs_m[o].overlaps == recs0[o].overlaps);
                    assert(!t.meets(o));
                    assert(s1.tracks(o));
                    assert(recs_t[o] == recs_m[o]);
                }
            }
            assert(same_payload(
                self.recs(),
                recs0.insert(
                    id,
                    Rec {
                        hitbox,
                        area: Self::cells_for(recs0[id].profile, area),
                        ..recs0[id]
                    },
                ),
            )) by {
                let mid = recs_t.insert(
                    id,
                    Rec { area: Self::cells_for(rec_t.profile, area), ..rec_t },
                );
                let target = recs0.insert(
                    id,
                    Rec {
                        hitbox,
                        area: Self::cells_for(recs0[id].profile, area),
                        ..recs0[id]
                    },
                );
                assert(same_payload(self.recs(), mid));
                assert(self.recs().dom() =~= recs0.dom());
                assert(target.dom() =~= recs0.dom());
                assert(mid.contains_key(id));
                assert(self.recs()[id].hitbox == hitbox);
                assert(self.recs()[id].area == Self::cells_for(recs0[id].profile, area));
                assert forall|o: HbId| #[trigger] self.recs().contains_key(o) implies self.recs()[o].profile
                    == recs0[o].profile && (o != id ==> self.recs()[o].hitbox == recs0[o].hitbox
                    && self.recs()[o].area == recs0[o].area) by {
                    assert(mid.contains_key(o));
                    if o != id {
                        assert(recs_m.contains_key(o));
                        assert(recs_t[o] == recs_m[o]);
                        assert(mid[o] == recs_t[o]);
                    }
                }
            }
        }
    }

    /// Updates the velocity information of the tracked hitbox `id`:
    /// `snapshot` describes the hitbox at the current time with the new
    /// velocity.
    pub fn set_hitbox_vel(&mut self, id: HbId, snapshot: Snapshot<H>)
        requires
            old(self).wf(),
            old(self).tracks(id),
            old(self).ready_for(id, old(self).recs()[id], snapshot),
        ensures
            final(self).wf(),
            old(self).updated(*final(self), id, snapshot),
            old(self).only_newer(*final(self)),
    {
        self.internal_update_hitbox(id, snapshot)
    }

    /// Records that the hitbox `id`, whose record `info` is out of the
    /// table, and the tracked hitbox `other_id` have ceased to overlap, and
    /// schedules their next collision.
    fn part_pair(
        &mut self,
        id: HbId,
        info: &mut HitboxInfo<P, H>,
        other_id: HbId,
        collide_at: Time,
    )
        requires
            !old(self).tracks(id),
            old(self).wf_on(old(self).recs().insert(id, old(info)@)),
            old(self).tracks(other_id),
            other_id != id,
            old(info)@.overlaps.contains(other_id),
            !has_subject(old(self).queue(), InternalEvent::Collide(id, other_id)),
            !has_subject(old(self).queue(), InternalEvent::Separate(id, other_id)),
            old(self).spec_time() <= collide_at,
            old(self).manager().has_room(),
        ensures
            !final(self).tracks(id),
            final(self).wf_on(final(self).recs().insert(id, final(info)@)),
            final(self).spec_time() == old(self).spec_time(),
            final(self).spec_grid() == old(self).spec_grid(),
            final(self).spec_checks() == old(self).spec_checks(),
            same_payload(
                final(self).recs().insert(id, final(info)@),
                old(self).recs().insert(id, old(info)@),
            ),
            final(info)@.overlaps == old(info)@.overlaps.remove(other_id),
            final(self).recs().dom() == old(self).recs().dom(),
            final(self).queue().remove_keys(final(info)@.keys) == old(self).queue().remove_keys(
                old(info)@.keys,
            ),
            old(self).only_newer(*final(self)),
            forall|o: HbId| #[trigger]
                final(self).tracks(o) ==> final(self).recs()[o].overlaps == if o == other_id {
                    old(self).recs()[o].overlaps.remove(id)
                } else {
                    old(self).recs()[o].overlaps
                },
            collide_at < HIGH_TIME ==> {
                &&& final(self).manager().allocated() == old(self).manager().allocated() + 1
                &&& schedule(final(self).queue()) == schedule(old(self).queue()).insert(
                    (InternalEvent::Collide(id, other_id), collide_at),
                )
            },
            collide_at >= HIGH_TIME ==> {
                &&& final(self).queue() == old(self).queue()
                &&& final(self).manager().allocated() == old(self).manager().allocated()
            },
    {
        let ghost recs0 = self.recs().insert(id, info@);
        let ghost queue0 = self.queue();
        let ghost event = InternalEvent::Collide(id, other_id);
        proof {
            lemma_knows(self.events, recs0, id);
            lemma_knows(self.events, recs0, other_id);
            assert(recs0.contains_key(id));
            assert(recs0[id].overlaps.contains(other_id));
            assert(recs0[other_id].overlaps.contains(id));
        }
        let mut other = take(&mut self.hitboxes, other_id);
        info.overlaps.remove(&other_id);
        other.overlaps.remove(&id);
        self.events.add_pair_event(
            collide_at,
            InternalEvent::Collide(id, other_id),
            &mut info.event_keys,
            &mut other.event_keys,
        );
        put(&mut self.hitboxes, other_id, other);
        proof {
            let recs1 = parted(recs0, id, other_id);
            let recs2 = self.recs().insert(id, info@);
            lemma_part(recs0, queue0, self.spec_time(), id, other_id);
            if collide_at < HIGH_TIME {
                let code = old(self).manager().next_code(collide_at, true);
                lemma_add_pair(recs1, queue0, self.spec_time(), code, event, id, other_id);
                assert(recs2 =~= with_pair_key(recs1, id, other_id, code));
                lemma_schedule_insert(queue0, code, event);
                assert(self.queue() == queue0.insert(code, event));
                assert(self.queue().remove_keys(info@.keys) =~= queue0.remove_keys(
                    old(info)@.keys,
                ));
                lemma_next_code(old(self).manager(), collide_at, true);
            } else {
                assert(recs2 =~= recs1);
            }
            assert forall|o: HbId| #[trigger] self.spec_grid().holds_at(o, area_of(recs2, o)) by {
                assert(old(self).spec_grid().holds_at(o, area_of(recs0, o)));
                assert(area_of(recs2, o) == area_of(recs0, o));
            }
        }
    }

    /// Takes the hitbox `id`, whose record `hitbox_info` is out of the
    /// table, out of the overlaps of every peer that it overlaps, and
    /// empties its own overlaps. Returns the profiles of those peers.
    fn clear_overlaps(&mut self, id: HbId, hitbox_info: &mut HitboxInfo<P, H>) -> (r: Vec<P>)
        requires
            !old(self).tracks(id),
            forall|o: HbId| #[trigger]
                old(hitbox_info)@.overlaps.contains(o) ==> old(self).tracks(o) && o != id
                    && old(self).overlaps(o).contains(id),
        ensures
            final(hitbox_info)@ == (Rec {
                overlaps: Set::<HbId>::empty(),
                ..old(hitbox_info)@
            }),
            final(self).manager() == old(self).manager(),
            final(self).spec_grid() == old(self).spec_grid(),
            final(self).spec_time() == old(self).spec_time(),
            final(self).spec_checks() == old(self).spec_checks(),
            final(self).recs() == Map::new(
                |o: HbId| old(self).recs().contains_key(o),
                |o: HbId|
                    if old(hitbox_info)@.overlaps.contains(o) {
                        old(self).recs()[o].without_overlap(id)
                    } else {
                        old(self).recs()[o]
                    },
            ),
            lists_profiles(old(self).recs(), old(hitbox_info)@.overlaps, r@),
    {
        let ghost recs0 = self.recs();
        let ghost all = hitbox_info@.overlaps;
        let others = hitbox_info.overlaps.drain();
        let mut result: Vec<P> = Vec::new();
        let mut i: usize = 0;
        proof {
            lemma_take_ends(others@);
            assert(self.recs() =~= Map::new(
                |o: HbId| recs0.contains_key(o),
                |o: HbId|
                    if others@.take(0).to_set().contains(o) {
                        recs0[o].without_overlap(id)
                    } else {
                        recs0[o]
                    },
            ));
        }
        while i < others.len()
            invariant
                0 <= i <= others.len(),
                others@.no_duplicates(),
                others@.to_set() == all,
                recs0 == old(self).recs(),
                !recs0.contains_key(id),
                forall|o: HbId| #[trigger]
                    all.contains(o) ==> recs0.contains_key(o) && o != id
                        && recs0[o].overlaps.contains(id),
                self.manager() == old(self).manager(),
                self.spec_grid() == old(self).spec_grid(),
                self.spec_time() == old(self).spec_time(),
                self.spec_checks() == old(self).spec_checks(),
                self.recs() == Map::new(
                    |o: HbId| recs0.contains_key(o),
                    |o: HbId|
                        if others@.take(i as int).to_set().contains(o) {
                            recs0[o].without_overlap(id)
                        } else {
                            recs0[o]
                        },
                ),
                result@ == profiles_of(recs0, others@.take(i as int)),
            decreases others.len() - i,
        {
            let other_id = others[i];
            proof {
                lemma_take_step(others@, i as int);
                assert(all.contains(other_id));
            }
            let profile = self.get_profile(other_id);
            remove_overlap(&mut self.hitboxes, other_id, id);
            result.push(profile);
            proof {
                assert(others@.take(i as int + 1) =~= others@.take(i as int).push(other_id));
                assert(result@ =~= profiles_of(recs0, others@.take(i as int + 1)));
                assert(self.recs() =~= Map::new(
                    |o: HbId| recs0.contains_key(o),
                    |o: HbId|
                        if others@.take(i as int + 1).to_set().contains(o) {
                            recs0[o].without_overlap(id)
                        } else {
                            recs0[o]
                        },
                ));
            }
            i += 1;
        }
        proof {
            lemma_take_ends(others@);
            assert(profiles_of(recs0, others@) == result@);
        }
        result
    }

    /// Removes the hitbox with the given `id` from all tracking.
    ///
    /// Returns the profiles of all hitboxes that this hitbox overlapped as
    /// it was removed. No further events will be generated for this hitbox.
    pub fn remove_hitbox(&mut self, id: HbId) -> (r: Vec<P>)
        requires
            old(self).wf(),
            old(self).tracks(id),
        ensures
            final(self).wf(),
            old(self).dropped(*final(self), id, r@),
            old(self).only_newer(*final(self)),
    {
        let ghost recs0 = self.recs();
        let ghost queue0 = self.queue();
        let mut info = take(&mut self.hitboxes, id);
        proof {
            assert(keys_of(self.recs()).insert(id, info.event_keys@) =~= keys_of(recs0));
            lemma_clear(recs0, queue0, self.spec_time(), id);
            lemma_schedule_strip(queue0, recs0[id].keys, id);
            lemma_remove_record(
                cleared(recs0, id),
                queue0.remove_keys(recs0[id].keys),
                self.spec_time(),
                id,
            );
        }
        self.events.clear_related_events(id, &mut info.event_keys, &mut self.hitboxes);
        let ghost grid0 = self.grid;
        if let Some(group) = info.profile.group() {
            let no_groups: Vec<HbGroup> = Vec::new();
            proof {
                assert(grid0.holds_at(id, area_of(recs0, id)));
            }
            self.grid.update_hitbox(id, group, info.area, None, no_groups.as_slice());
        }
        let ghost recs1 = self.recs();
        let ghost ov = info@.overlaps;
        proof {
            assert(ov == recs0[id].overlaps);
            assert forall|o: HbId| #[trigger] info@.overlaps.contains(o) implies self.tracks(o)
                && o != id && self.overlaps(o).contains(id) by {
                assert(recs0[id].overlaps.contains(o));
                assert(recs0.contains_key(o) && recs0[o].overlaps.contains(id));
            }
        }
        let result = self.clear_overlaps(id, &mut info);
        proof {
            let target = removed(cleared(recs0, id), id);
            assert forall|o: HbId| #[trigger] target.contains_key(o) implies self.recs()[o]
                == target[o] by {
                assert(recs1.contains_key(o));
                if !recs0[id].overlaps.contains(o) {
                    if recs0[o].overlaps.contains(id) {
                        assert(recs0[id].overlaps.contains(o));
                    }
                    assert(recs0[o].overlaps.remove(id) =~= recs0[o].overlaps);
                }
            }
            assert forall|o: HbId| self.recs().contains_key(o) <==> target.contains_key(o) by {
                assert(self.recs().contains_key(o) <==> recs1.contains_key(o));
                assert(recs1.contains_key(o) <==> (recs0.contains_key(o) && o != id));
            }
            assert(self.recs().dom() =~= target.dom());
            assert(self.recs() =~= target);
            assert(profiles_sound(self.recs()) && celled(self.recs())) by {
                assert forall|o: HbId| #[trigger] self.recs().contains_key(o) implies self.recs()[o].profile
                    == recs0[o].profile && self.recs()[o].area == recs0[o].area by {
                    assert(recs0.contains_key(o));
                }
            }
            assert forall|o: HbId| #[trigger]
                self.spec_grid().holds_at(o, area_of(self.recs(), o)) by {
                assert(grid0.holds_at(o, area_of(recs0, o)));
                if o != id {
                    assert(area_of(self.recs(), o) == area_of(recs0, o));
                    assert forall|x: i32, y: i32, g: HbGroup| #[trigger]
                        self.spec_grid().occupants(x, y, g).contains(o) <==> area_covers(
                            area_of(self.recs(), o),
                            x,
                            y,
                            g,
                        ) by {
                        assert(grid0.occupants(x, y, g).contains(o) <==> area_covers(
                            area_of(recs0, o),
                            x,
                            y,
                            g,
                        ));
                    }
                }
            }
            assert(lists_profiles(recs0, recs0[id].overlaps, result@)) by {
                assert(lists_profiles(recs1, ov, result@));
                let order = choose|order: Seq<HbId>|
                    order.no_duplicates() && order.to_set() == ov && #[trigger] profiles_of(
                        recs1,
                        order,
                    ) == result@;
                assert(profiles_of(recs0, order) =~= result@) by {
                    assert forall|k: int| 0 <= k < order.len() implies recs1[order[k]].profile
                        == recs0[order[k]].profile by {
                        assert(order.to_set().contains(order[k]));
                        assert(ov.contains(order[k]));
                        assert(recs0.contains_key(order[k]) && order[k] != id);
                        assert(recs1.contains_key(order[k]));
                    }
                }
            }
        }
        result
    }

    /// What `next` requires of `reply`: the answer that fits the event that
    /// is due.
    ///
    /// For an event between two hitboxes `reply` is the time of their next
    /// event, not in the past, and the engine has a key left for it. For a
    /// reiteration `reply` is a snapshot that is fit for the hitbox.
    pub open spec fn accepts(&self, reply: Reply<H>) -> bool {
        match self.pending() {
            Some(InternalEvent::Collide(_, _)) | Some(InternalEvent::Separate(_, _)) => {
                &&& reply matches Reply::Pair(at)
                &&& self.spec_time() <= at
                &&& self.manager().has_room()
            },
            Some(InternalEvent::Reiterate(id)) => {
                &&& reply matches Reply::Update(snapshot)
                &&& self.ready_for(id, self.recs()[id], snapshot)
            },
            _ => true,
        }
    }

    /// The time in `reply`, for a reply to an event between two hitboxes.
    pub open spec fn pair_time(reply: Reply<H>) -> Time {
        match reply {
            Reply::Pair(at) => at,
            _ => 0,
        }
    }

    /// What a single event at `at` adds to what is scheduled: the event, if
    /// the time allows scheduling.
    pub open spec fn single(event: InternalEvent, at: Time) -> Set<(InternalEvent, Time)> {
        if at < HIGH_TIME {
            set![(event, at)]
        } else {
            Set::<(InternalEvent, Time)>::empty()
        }
    }

    /// Processes the event `event`, which has just been taken out of the
    /// queue, with the answer `reply`.
    ///
    /// A `Collide` makes the two hitboxes overlap and schedules their
    /// separation; a `Separate` ends their overlap and schedules their next
    /// collision. Either is reported with the profiles of the two, the one
    /// with the smaller id first. A `Reiterate` takes a new snapshot of its
    /// hitbox and reports nothing. The two other events are reported as
    /// faults.
    fn process_event(&mut self, event: InternalEvent, reply: Reply<H>) -> (r: Step<P>)
        requires
            old(self).wf(),
            !has_subject(old(self).queue(), event),
            event matches InternalEvent::Collide(a, b) ==> {
                &&& old(self).tracks(a) && old(self).tracks(b) && a != b
                &&& !old(self).overlaps(a).contains(b)
                &&& !has_subject(old(self).queue(), InternalEvent::Separate(a, b))
                &&& reply is Pair
                &&& old(self).spec_time() <= Self::pair_time(reply)
                &&& old(self).manager().has_room()
            },
            event matches InternalEvent::Separate(a, b) ==> {
                &&& old(self).tracks(a) && old(self).tracks(b) && a != b
                &&& old(self).overlaps(a).contains(b)
                &&& !has_subject(old(self).queue(), InternalEvent::Collide(a, b))
                &&& reply is Pair
                &&& old(self).spec_time() <= Self::pair_time(reply)
                &&& old(self).manager().has_room()
            },
            event matches InternalEvent::Reiterate(id) ==> {
                &&& old(self).tracks(id)
                &&& reply matches Reply::Update(snapshot)
                &&& old(self).ready_for(id, old(self).recs()[id], snapshot)
            },
        ensures
            final(self).wf(),
            final(self).spec_time() == old(self).spec_time(),
            final(self).spec_checks() == old(self).spec_checks(),
            final(self).recs().dom() == old(self).recs().dom(),
            old(self).only_newer(*final(self)),
            match event {
                InternalEvent::Collide(a, b) => {
                    &&& r == Step::Event(
                        HbEvent::Collide,
                        old(self).recs()[lower(a, b)].profile,
                        old(self).recs()[upper(a, b)].profile,
                    )
                    &&& same_payload(final(self).recs(), old(self).recs())
                    &&& forall|o: HbId| #[trigger]
                        old(self).tracks(o) ==> final(self).overlaps(o) == if o == a {
                            old(self).overlaps(o).insert(b)
                        } else if o == b {
                            old(self).overlaps(o).insert(a)
                        } else {
                            old(self).overlaps(o)
                        }
                    &&& schedule(final(self).queue()) == schedule(old(self).queue()).union(
                        Self::single(InternalEvent::Separate(a, b), Self::pair_time(reply)),
                    )
                },
                InternalEvent::Separate(a, b) => {
                    &&& r == Step::Event(
                        HbEvent::Separate,
                        old(self).recs()[lower(a, b)].profile,
                        old(self).recs()[upper(a, b)].profile,
                    )
                    &&& same_payload(final(self).recs(), old(self).recs())
                    &&& forall|o: HbId| #[trigger]
                        old(self).tracks(o) ==> final(self).overlaps(o) == if o == a {
                            old(self).overlaps(o).remove(b)
                        } else if o == b {
                            old(self).overlaps(o).remove(a)
                        } else {
                            old(self).overlaps(o)
                        }
                    &&& schedule(final(self).queue()) == schedule(old(self).queue()).union(
                        Self::single(InternalEvent::Collide(a, b), Self::pair_time(reply)),
                    )
                },
                InternalEvent::Reiterate(id) => {
                    &&& r == Step::<P>::Internal
                    &&& reply matches Reply::Update(snapshot)
                    &&& same_payload(
                        final(self).recs(),
                        old(self).recs().insert(
                            id,
                            Rec {
                                hitbox: snapshot.hitbox,
                                area: Self::cells_for(old(self).recs()[id].profile, snapshot.area),
                                ..old(self).recs()[id]
                            },
                        ),
                    )
                    &&& forall|o: HbId| #[trigger]
                        old(self).tracks(o) ==> final(self).overlaps(o) == old(self).overlaps(o)
                    &&& ({
                        let t = old(self).tracking(
                            id,
                            old(self).recs()[id],
                            snapshot.area,
                            snapshot.peers@,
                        );
                        schedule(final(self).queue()) == schedule(old(self).queue()).filter(
                            |f: (InternalEvent, Time)| !f.0.involves(id),
                        ).union(old(self).solitaire_plan(id, snapshot.check)).union(
                            t.planned(t.peers()),
                        )
                    })
                },
                _ => {
                    &&& r == Step::<P>::Fault(event)
                    &&& final(self).recs() == old(self).recs()
                    &&& final(self).queue() == old(self).queue()
                    &&& final(self).manager().allocated() == old(self).manager().allocated()
                },
            },
    {
        match event {
            InternalEvent::Collide(id_1, id_2) => {
                let at = match reply {
                    Reply::Pair(at) => at,
                    _ => 0,
                };
                let ghost recs0 = self.recs();
                let mut hitbox_info_1 = take(&mut self.hitboxes, id_1);
                proof {
                    assert(self.recs().insert(id_1, hitbox_info_1@) =~= recs0);
                }
                self.meet_pair(id_1, &mut hitbox_info_1, id_2, at);
                let ghost s_mid = *self;
                put(&mut self.hitboxes, id_1, hitbox_info_1);
                let (kind, low, high) = new_event(HbEvent::Collide, id_1, id_2);
                let first = self.get_profile(low);
                let second = self.get_profile(high);
                proof {
                    assert(self.recs().dom() =~= recs0.dom());
                    assert(celled(self.recs())) by {
                        assert forall|o: HbId|
                            #[trigger] self.recs().contains_key(o)
                                && self.recs()[o].profile.spec_group() is Some implies self.recs()[o].area is Some by {
                            assert(recs0.contains_key(o));
                        }
                    }
                    assert forall|o: HbId| #[trigger] old(self).tracks(o) implies self.overlaps(o)
                        == (if o == id_1 {
                        old(self).overlaps(o).insert(id_2)
                    } else if o == id_2 {
                        old(self).overlaps(o).insert(id_1)
                    } else {
                        old(self).overlaps(o)
                    }) by {
                        if o != id_1 {
                            assert(s_mid.tracks(o));
                        }
                    }
                    assert(schedule(self.queue()) =~= schedule(old(self).queue()).union(
                        Self::single(InternalEvent::Separate(id_1, id_2), at),
                    ));
                    assert(self.recs()[low].profile == recs0[low].profile);
                    assert(self.recs()[high].profile == recs0[high].profile);
                }
                Step::Event(kind, first, second)
            },
            InternalEvent::Separate(id_1, id_2) => {
                let at = match reply {
                    Reply::Pair(at) => at,
                    _ => 0,
                };
                let ghost recs0 = self.recs();
                let mut hitbox_info_1 = take(&mut self.hitboxes, id_1);
                proof {
                    assert(self.recs().insert(id_1, hitbox_info_1@) =~= recs0);
                }
                self.part_pair(id_1, &mut hitbox_info_1, id_2, at);
                let ghost s_mid = *self;
                put(&mut self.hitboxes, id_1, hitbox_info_1);
                let (kind, low, high) = new_event(HbEvent::Separate, id_1, id_2);
                let first = self.get_profile(low);
                let second = self.get_profile(high);
                proof {
                    assert(self.recs().dom() =~= recs0.dom());
                    assert(celled(self.recs())) by {
                        assert forall|o: HbId|
                            #[trigger] self.recs().contains_key(o)
                                && self.recs()[o].profile.spec_group() is Some implies self.recs()[o].area is Some by {
                            assert(recs0.contains_key(o));
                        }
                    }
                    assert forall|o: HbId| #[trigger] old(self).tracks(o) implies self.overlaps(o)
                        == (if o == id_1 {
                        old(self).overlaps(o).remove(id_2)
                    } else if o == id_2 {
                        old(self).overlaps(o).remove(id_1)
                    } else {
                        old(self).overlaps(o)
                    }) by {
                        if o != id_1 {
                            assert(s_mid.tracks(o));
                        }
                    }
                    assert(schedule(self.queue()) =~= schedule(old(self).queue()).union(
                        Self::single(InternalEvent::Collide(id_1, id_2), at),
                    ));
                    assert(self.recs()[low].profile == recs0[low].profile);
                    assert(self.recs()[high].profile == recs0[high].profile);
                }
                Step::Event(kind, first, second)
            },
            InternalEvent::Reiterate(id) => {
                match reply {
                    Reply::Update(snapshot) => {
                        self.internal_update_hitbox(id, snapshot);
                        proof {
                            assert(self.recs().dom() =~= old(self).recs().dom());
                        }
                    },
                    _ => {},
                }
                Step::Internal
            },
            _ => Step::Fault(event),
        }
    }

    /// Processes the event that is due at the current time, if there is
    /// one, and says what was done. `reply` carries what the caller computed
    /// for the event that `peek_event` shows.
    ///
    /// Reports `Idle`, and changes nothing, whenever `self.next_time() >
    /// self.time()`. After `Internal` the caller asks again: another event
    /// may be due at the same time.
    pub fn next(&mut self, reply: Reply<H>) -> (r: Step<P>)
        requires
            old(self).wf(),
            old(self).accepts(reply),
        ensures
            final(self).wf(),
            final(self).spec_time() == old(self).spec_time(),
            final(self).spec_checks() == old(self).spec_checks(),
            final(self).recs().dom() == old(self).recs().dom(),
            old(self).only_newer(*final(self)),
            old(self).spec_next_time() > old(self).spec_time() ==> old(self).pending() is None,
            old(self).pending() is None ==> {
                &&& r == Step::<P>::Idle
                &&& final(self).recs() == old(self).recs()
                &&& final(self).queue() == old(self).queue()
                &&& final(self).manager().allocated() == old(self).manager().allocated()
            },
            old(self).pending() matches Some(event) ==> old(self).stepped(
                *final(self),
                event,
                reply,
                r,
            ),
    {
        let ghost recs0 = self.recs();
        let ghost queue0 = self.queue();
        let ghost due = self.manager().due(self.spec_time());
        match self.events.next(self.time, &mut self.hitboxes) {
            None => Step::Idle,
            Some(event) => {
                let ghost code = due->0;
                let ghost s1 = *self;
                proof {
                    lemma_pop(recs0, queue0, self.spec_time(), code);
                    lemma_pop_subject(queue0, code);
                    assert(self.recs().dom() =~= recs0.dom());
                    assert(profiles_sound(self.recs()) && celled(self.recs())) by {
                        assert forall|o: HbId| #[trigger] self.recs().contains_key(o) implies self.recs()[o].profile
                            == recs0[o].profile && self.recs()[o].area == recs0[o].area by {
                            assert(recs0.contains_key(o));
                        }
                    }
                    assert forall|o: HbId| #[trigger]
                        self.spec_grid().holds_at(o, area_of(self.recs(), o)) by {
                        assert(old(self).spec_grid().holds_at(o, area_of(recs0, o)));
                        assert(area_of(self.recs(), o) == area_of(recs0, o));
                    }
                    assert(queue0[code].involves(first_of(event)));
                    assert(keys_of(recs0).contains_key(first_of(event)));
                    match event {
                        InternalEvent::Collide(a, b) => {
                            assert(queue0[code].involves(b));
                            assert(keys_of(recs0).contains_key(b));
                            assert(queue0[code].spec_other_id(queue0[code].spec_ids()@[0]) != Some(
                                queue0[code].spec_ids()@[0],
                            ));
                        },
                        InternalEvent::Separate(a, b) => {
                            assert(queue0[code].involves(b));
                            assert(keys_of(recs0).contains_key(b));
                            assert(queue0[code].spec_other_id(queue0[code].spec_ids()@[0]) != Some(
                                queue0[code].spec_ids()@[0],
                            ));
                        },
                        InternalEvent::Reiterate(id) => {
                            let snapshot = reply->Update_0;
                            let t0 = old(self).tracking(id, recs0[id], snapshot.area, snapshot.peers@);
                            let t1 = self.tracking(id, self.recs()[id], snapshot.area, snapshot.peers@);
                            assert(t1.profiles =~= t0.profiles);
                            assert(t1 == t0);
                        },
                        _ => {},
                    }
                    assert forall|c: u128|
                        #[trigger] queue0.contains_key(c) && queue0[c].is_pair() implies first_of(
                        queue0[c],
                    ) != second_of(queue0[c]) by {
                        assert(queue0[c].spec_other_id(queue0[c].spec_ids()@[0]) != Some(
                            queue0[c].spec_ids()@[0],
                        ));
                    }
                    lemma_schedule_remove(queue0, code);
                }
                let r = self.process_event(event, reply);
                proof {
                    assert(time_of(code) == old(self).spec_time());
                    let gone = (event, old(self).spec_time());
                    match event {
                        InternalEvent::Collide(a, b) => {
                            assert forall|o: HbId| #[trigger] old(self).tracks(o) implies self.overlaps(
                                o,
                            ) == (if o == a {
                                old(self).overlaps(o).insert(b)
                            } else if o == b {
                                old(self).overlaps(o).insert(a)
                            } else {
                                old(self).overlaps(o)
                            }) by {
                                assert(s1.tracks(o));
                            }
                            assert(same_payload(self.recs(), recs0)) by {
                                assert forall|o: HbId| #[trigger] self.recs().contains_key(o) implies self.recs()[o].profile
                                    == recs0[o].profile && self.recs()[o].hitbox == recs0[o].hitbox
                                    && self.recs()[o].area == recs0[o].area by {
                                    assert(s1.recs().contains_key(o));
                                }
                            }
                        },
                        InternalEvent::Separate(a, b) => {
                            assert forall|o: HbId| #[trigger] old(self).tracks(o) implies self.overlaps(
                                o,
                            ) == (if o == a {
                                old(self).overlaps(o).remove(b)
                            } else if o == b {
                                old(self).overlaps(o).remove(a)
                            } else {
                                old(self).overlaps(o)
                            }) by {
                                assert(s1.tracks(o));
                            }
                            assert(same_payload(self.recs(), recs0)) by {
                                assert forall|o: HbId| #[trigger] self.recs().contains_key(o) implies self.recs()[o].profile
                                    == recs0[o].profile && self.recs()[o].hitbox == recs0[o].hitbox
                                    && self.recs()[o].area == recs0[o].area by {
                                    assert(s1.recs().contains_key(o));
                                }
                            }
                        },
                        InternalEvent::Reiterate(id) => {
                            let snapshot = reply->Update_0;
                            assert forall|o: HbId| #[trigger] old(self).tracks(o) implies self.overlaps(
                                o,
                            ) == old(self).overlaps(o) by {
                                assert(s1.tracks(o));
                            }
                            assert(schedule(s1.queue()).filter(
                                |f: (InternalEvent, Time)| !f.0.involves(id),
                            ) =~= schedule(queue0).filter(
                                |f: (InternalEvent, Time)| !f.0.involves(id),
                            ));
                            assert(same_payload(
                                self.recs(),
                                recs0.insert(
                                    id,
                                    Rec {
                                        hitbox: snapshot.hitbox,
                                        area: Self::cells_for(recs0[id].profile, snapshot.area),
                                        ..recs0[id]
                                    },
                                ),
                            )) by {
                                let target1 = s1.recs().insert(
                                    id,
                                    Rec {
                                        hitbox: snapshot.hitbox,
                                        area: Self::cells_for(s1.recs()[id].profile, snapshot.area),
                                        ..s1.recs()[id]
                                    },
                                );
                                let target0 = recs0.insert(
                                    id,
                                    Rec {
                                        hitbox: snapshot.hitbox,
                                        area: Self::cells_for(recs0[id].profile, snapshot.area),
                                        ..recs0[id]
                                    },
                                );
                                assert(target0.dom() =~= target1.dom());
                                assert forall|o: HbId| #[trigger] self.recs().contains_key(o) implies self.recs()[o].profile
                                    == target0[o].profile && self.recs()[o].hitbox
                                    == target0[o].hitbox && self.recs()[o].area
                                    == target0[o].area by {
                                    assert(target1.contains_key(o));
                                    assert(s1.recs().contains_key(o));
                                }
                            }
                        },
                        _ => {
                            assert forall|o: HbId| #[trigger] recs0.contains_key(o) implies self.recs()[o].overlaps
                                == recs0[o].overlaps && self.recs()[o].profile == recs0[o].profile
                                && self.recs()[o].hitbox == recs0[o].hitbox && self.recs()[o].area
                                == recs0[o].area by {
                                assert(s1.recs().contains_key(o));
                            }
                        },
                    }
                }
                r
            },
        }
    }

    /// What `next` has done when it has processed `event`: how the state
    /// `after` and the report `r` relate to `self`, the state before.
    ///
    /// The event is no longer scheduled. For a `Collide` the two hitboxes
    /// overlap now and their separation is scheduled at the time in `reply`;
    /// for a `Separate` their overlap has ended and their next collision is
    /// scheduled at that time. Either is reported with the profiles of the
    /// two hitboxes, smaller id first. For a `Reiterate` every event of the
    /// hitbox was cancelled and the hitbox tracked anew from the snapshot
    /// in `reply`. Any other event is reported as a fault.
    pub open spec fn stepped(
        &self,
        after: Collider<P, H>,
        event: InternalEvent,
        reply: Reply<H>,
        r: Step<P>,
    ) -> bool {
        let gone = (event, self.spec_time());
        match event {
            InternalEvent::Collide(a, b) => {
                &&& r == Step::Event(
                    HbEvent::Collide,
                    self.recs()[lower(a, b)].profile,
                    self.recs()[upper(a, b)].profile,
                )
                &&& same_payload(after.recs(), self.recs())
                &&& forall|o: HbId| #[trigger]
                    self.tracks(o) ==> after.overlaps(o) == if o == a {
                        self.overlaps(o).insert(b)
                    } else if o == b {
                        self.overlaps(o).insert(a)
                    } else {
                        self.overlaps(o)
                    }
                &&& schedule(after.queue()) == schedule(self.queue()).remove(gone).union(
                    Self::single(InternalEvent::Separate(a, b), Self::pair_time(reply)),
                )
            },
            InternalEvent::Separate(a, b) => {
                &&& r == Step::Event(
                    HbEvent::Separate,
                    self.recs()[lower(a, b)].profile,
                    self.recs()[upper(a, b)].profile,
                )
                &&& same_payload(after.recs(), self.recs())
                &&& forall|o: HbId| #[trigger]
                    self.tracks(o) ==> after.overlaps(o) == if o == a {
                        self.overlaps(o).remove(b)
                    } else if o == b {
                        self.overlaps(o).remove(a)
                    } else {
                        self.overlaps(o)
                    }
                &&& schedule(after.queue()) == schedule(self.queue()).remove(gone).union(
                    Self::single(InternalEvent::Collide(a, b), Self::pair_time(reply)),
                )
            },
            InternalEvent::Reiterate(id) => {
                &&& r == Step::<P>::Internal
                &&& reply matches Reply::Update(snapshot)
                &&& same_payload(
                    after.recs(),
                    self.recs().insert(
                        id,
                        Rec {
                            hitbox: snapshot.hitbox,
                            area: Self::cells_for(self.recs()[id].profile, snapshot.area),
                            ..self.recs()[id]
                        },
                    ),
                )
                &&& forall|o: HbId| #[trigger]
                    self.tracks(o) ==> after.overlaps(o) == self.overlaps(o)
                &&& ({
                    let t = self.tracking(id, self.recs()[id], snapshot.area, snapshot.peers@);
                    schedule(after.queue()) == schedule(self.queue()).filter(
                        |f: (InternalEvent, Time)| !f.0.involves(id),
                    ).union(self.solitaire_plan(id, snapshot.check)).union(t.planned(t.peers()))
                })
            },
            _ => {
                &&& r == Step::<P>::Fault(event)
                &&& same_payload(after.recs(), self.recs())
                &&& forall|o: HbId| #[trigger]
                    self.tracks(o) ==> after.overlaps(o) == self.overlaps(o)
                &&& schedule(after.queue()) == schedule(self.queue()).remove(gone)
            },
        }
    }

    /// The other hitboxes that occupy a grid cell of `area` for one of
    /// `groups`: the peers for which tracking will ask for times. With
    /// `id`, that hitbox is left out.
    pub fn candidates(&self, id: Option<HbId>, area: IndexRect, groups: &[HbGroup]) -> (r:
        FnvHashSet<HbId>)
        requires
            area.wf(),
        ensures
            r@ == match id {
                Some(id) => self.spec_grid().cellmates(area, groups@).remove(id),
                None => self.spec_grid().cellmates(area, groups@),
            },
    {
        self.grid.overlapping_ids(id, area, groups)
    }

    /// Returns the profiles of all hitboxes that occupy a grid cell of
    /// `area` for a group that `profile` interacts with, interact with
    /// `profile`, and are in `touching`: the hitboxes that the caller has
    /// found to overlap the shape that it asks about.
    pub fn query_overlaps(&self, area: IndexRect, profile: &P, touching: &FnvHashSet<HbId>) -> (r:
        Vec<P>)
        requires
            self.wf(),
            area.wf(),
        ensures
            lists_profiles(self.recs(), self.answering(area, *profile, touching@), r@),
    {
        let found = self.grid.shape_cellmates(area, profile.interact_groups());
        let ids = set_items(&found);
        let mut result: Vec<P> = Vec::new();
        let ghost mut order: Seq<HbId> = Seq::empty();
        let ghost want = self.answering(area, *profile, touching@);
        let ghost groups = profile.spec_interact_groups()@;
        let mut i: usize = 0;
        proof {
            lemma_take_ends(ids@);
            assert(order.to_set() =~= want.intersect(ids@.take(0).to_set()));
        }
        while i < ids.len()
            invariant
                0 <= i <= ids.len(),
                self.wf(),
                area.wf(),
                ids@.no_duplicates(),
                ids@.to_set() == self.spec_grid().cellmates(area, groups),
                groups == profile.spec_interact_groups()@,
                want == self.answering(area, *profile, touching@),
                order.no_duplicates(),
                order.to_set() == want.intersect(ids@.take(i as int).to_set()),
                result@ == profiles_of(self.recs(), order),
            decreases ids.len() - i,
        {
            let id = ids[i];
            proof {
                lemma_take_step(ids@, i as int);
                assert(self.spec_grid().cellmates(area, groups).contains(id));
                let (x, y, j) = choose|x: i32, y: i32, j: int|
                    0 <= j < groups.len() && area.spec_contains((x, y))
                        && #[trigger] self.spec_grid().occupants(x, y, groups[j]).contains(id);
                assert(self.spec_grid().holds_at(id, area_of(self.recs(), id)));
                assert(area_covers(area_of(self.recs(), id), x, y, groups[j]));
                assert(self.tracks(id));
            }
            let other = self.get_profile(id);
            if other.can_interact(profile) && set_contains(touching, &id) {
                result.push(other);
                proof {
                    let before = order;
                    order = order.push(id);
                    assert(!before.to_set().contains(id));
                    assert(order.no_duplicates()) by {
                        assert forall|a: int, b: int|
                            0 <= a < order.len() && 0 <= b < order.len() && a != b implies order[a]
                            != order[b] by {
                            if a == before.len() {
                                assert(before.to_set().contains(before[b]));
                            } else if b == before.len() {
                                assert(before.to_set().contains(before[a]));
                            }
                        }
                    }
                    before.lemma_push_to_set_commute(id);
                    assert(order.to_set() =~= want.intersect(ids@.take(i as int + 1).to_set()));
                    assert(result@ =~= profiles_of(self.recs(), order));
                }
            } else {
                proof {
                    assert(order.to_set() =~= want.intersect(ids@.take(i as int + 1).to_set()));
                }
            }
            i += 1;
        }
        proof {
            lemma_take_ends(ids@);
            assert(order.to_set() =~= want);
        }
        result
    }

    /// The hitboxes whose profiles `query_overlaps` returns.
    pub open spec fn answering(&self, area: IndexRect, profile: P, touching: Set<HbId>) -> Set<
        HbId,
    > {
        Set::new(
            |o: HbId|
                self.spec_grid().cellmates(area, profile.spec_interact_groups()@).contains(o)
                    && self.recs()[o].profile.spec_can_interact(&profile) && touching.contains(o),
        )
    }

    /// Adding a hitbox and removing it at once restores the engine: the
    /// records, with their overlaps and key sets, the queue and the grid are
    /// what they were before the hitbox was added. Only the keys that were
    /// allocated for its events are spent.
    pub proof fn lemma_add_then_remove(
        before: Collider<P, H>,
        between: Collider<P, H>,
        after: Collider<P, H>,
        profile: P,
        snapshot: Snapshot<H>,
        met: Seq<P>,
        parted: Seq<P>,
    )
        requires
            before.wf(),
            !before.tracks(profile.spec_id()),
            between.wf(),
            before.added(between, profile, snapshot, met),
            after.wf(),
            between.dropped(after, profile.spec_id(), parted),
        ensures
            after.recs() == before.recs(),
            after.queue() == before.queue(),
            schedule(after.queue()) == schedule(before.queue()),
            after.spec_time() == before.spec_time(),
            forall|x: i32, y: i32, group: HbGroup, o: HbId|
                after.spec_grid().occupants(x, y, group).contains(o)
                    <==> before.spec_grid().occupants(x, y, group).contains(o),
    {
        let id = profile.spec_id();
        let r0 = before.recs();
        let r1 = between.recs();
        let r2 = after.recs();
        let q0 = before.queue();
        let q1 = between.queue();
        let gone = r1[id].keys;
        let target = r0.insert(
            id,
            Rec {
                area: Self::cells_for(profile, snapshot.area),
                ..Self::blank(profile, snapshot.hitbox)
            },
        );
        assert(after.queue() == q0);
        lemma_fresh_record(r0, q0, before.spec_time(), id, Self::blank(profile, snapshot.hitbox));
        assert(r1.dom() == target.dom());
        assert forall|o: HbId| r2.contains_key(o) <==> r0.contains_key(o) by {
            assert(target.contains_key(o) <==> (r0.contains_key(o) || o == id));
            assert(r1.contains_key(o) <==> target.contains_key(o));
        }
        assert(r2.dom() =~= r0.dom());
        assert forall|o: HbId| #[trigger] r0.contains_key(o) implies r2[o] == r0[o] by {
            assert(o != id);
            assert(r1.contains_key(o));
            assert(target[o] == r0[o]);
            assert(before.tracks(o));
            assert(r1[o].overlaps.remove(id) =~= r0[o].overlaps);
            let k0 = keys_of(r0);
            let k1 = keys_of(r1);
            assert(k0.contains_key(o) && k1.contains_key(o) && k1.contains_key(id));
            assert forall|c: u128| r1[o].keys.difference(gone).contains(c) <==> r0[o].keys.contains(
                c,
            ) by {
                if r1[o].keys.contains(c) && !gone.contains(c) {
                    assert(k1[o].contains(c));
                    assert(q1.contains_key(c) && q1[c].involves(o));
                    assert(q0.contains_key(c));
                    assert(k0[o].contains(c));
                }
                if r0[o].keys.contains(c) {
                    assert(k0[o].contains(c));
                    assert(q0.contains_key(c) && q0[c].involves(o));
                    assert(q1.contains_key(c) && !gone.contains(c));
                    assert(k1[o].contains(c));
                }
            }
            assert(r1[o].keys.difference(gone) =~= r0[o].keys);
        }
        assert(r2 =~= r0);
        assert forall|x: i32, y: i32, group: HbGroup, o: HbId|
            after.spec_grid().occupants(x, y, group).contains(o)
                <==> before.spec_grid().occupants(x, y, group).contains(o) by {
            assert(after.spec_grid().holds_at(o, area_of(r2, o)));
            assert(before.spec_grid().holds_at(o, area_of(r0, o)));
        }
    }

    /// Whether every event that `after` holds and `self` does not has a key
    /// that was allocated after all keys of `self`.
    pub open spec fn only_newer(&self, after: Collider<P, H>) -> bool {
        &&& self.manager().allocated() <= after.manager().allocated()
        &&& forall|code: u128|
            after.queue().contains_key(code) && !self.queue().contains_key(code) ==> #[trigger] serial_of(
                code,
            ) >= self.manager().allocated()
    }

    /// Events come out of the queue in the order of their times, and events
    /// of one kind that are due at the same time come out in the order in
    /// which they were scheduled: an event that was queued before a call
    /// precedes every event of its kind and time that the call has
    /// scheduled.
    pub proof fn lemma_first_in_first_out(
        before: Collider<P, H>,
        after: Collider<P, H>,
        earlier: u128,
        later: u128,
    )
        requires
            before.wf(),
            before.only_newer(after),
            before.queue().contains_key(earlier),
            after.queue().contains_key(later),
            !before.queue().contains_key(later),
            is_pair_code(earlier) == is_pair_code(later),
        ensures
            time_of(earlier) < time_of(later) ==> earlier < later,
            time_of(earlier) == time_of(later) ==> earlier < later,
    {
        lemma_code_order(earlier, later);
        assert(serial_of(later) >= before.manager().allocated());
        assert(serial_of(earlier) < before.manager().allocated());
    }

    /// The clock never runs ahead of the queue: `time() <= next_time()`.
    pub proof fn lemma_time_before_next_time(&self)
        requires
            self.wf(),
        ensures
            self.spec_time() <= self.spec_next_time(),
    {
        match self.manager().spec_peek_code() {
            Some(code) => {
                assert(is_head(self.queue(), code));
            },
            None => {},
        }
    }

    /// Every queued event between two hitboxes mentions two different
    /// tracked hitboxes, and both hold the event's key.
    pub proof fn lemma_pair_event_is_linked(&self, code: u128, a: HbId, b: HbId)
        requires
            self.wf(),
            self.queue().contains_key(code),
            self.queue()[code] == InternalEvent::Collide(a, b) || self.queue()[code]
                == InternalEvent::Separate(a, b),
        ensures
            a != b,
            self.tracks(a),
            self.tracks(b),
            self.recs()[a].keys.contains(code),
            self.recs()[b].keys.contains(code),
    {
        let keys = keys_of(self.recs());
        assert(self.queue()[code].involves(a));
        assert(self.queue()[code].involves(b));
        assert(keys.contains_key(a) && keys[a].contains(code));
        assert(keys.contains_key(b) && keys[b].contains(code));
    }

    /// Every queued event about a single hitbox mentions a tracked hitbox
    /// that holds the event's key.
    pub proof fn lemma_solitaire_event_is_linked(&self, code: u128, id: HbId)
        requires
            self.wf(),
            self.queue().contains_key(code),
            !self.queue()[code].is_pair(),
            self.queue()[code].involves(id),
        ensures
            self.tracks(id),
            self.recs()[id].keys.contains(code),
    {
        let keys = keys_of(self.recs());
        assert(keys.contains_key(id) && keys[id].contains(code));
    }

    /// Every key that a hitbox holds is the key of a queued event that
    /// mentions the hitbox.
    pub proof fn lemma_key_is_queued(&self, id: HbId, code: u128)
        requires
            self.wf(),
            self.tracks(id),
            self.recs()[id].keys.contains(code),
        ensures
            self.queue().contains_key(code),
            self.queue()[code].involves(id),
    {
        let keys = keys_of(self.recs());
        assert(keys.contains_key(id) && keys[id].contains(code));
    }

    /// A hitbox has at most one queued event that mentions it alone.
    pub proof fn lemma_one_solitaire_event(&self, code: u128, other: u128, id: HbId)
        requires
            self.wf(),
            self.queue().contains_key(code),
            self.queue().contains_key(other),
            !self.queue()[code].is_pair(),
            !self.queue()[other].is_pair(),
            self.queue()[code].involves(id),
            self.queue()[other].involves(id),
        ensures
            code == other,
    {
        assert(same_subject(self.queue()[code], self.queue()[other]));
    }

    /// The grid holds a hitbox in exactly the cells that its record claims
    /// for the group of its profile, and holds no hitbox that is not tracked.
    pub proof fn lemma_grid_matches_records(&self, id: HbId, x: i32, y: i32, group: HbGroup)
        requires
            self.wf(),
        ensures
            self.spec_grid().occupants(x, y, group).contains(id) <==> area_covers(
                area_of(self.recs(), id),
                x,
                y,
                group,
            ),
            self.spec_grid().occupants(x, y, group).contains(id) ==> self.tracks(id),
    {
        assert(self.spec_grid().holds_at(id, area_of(self.recs(), id)));
    }

    /// Overlaps are symmetric: `b` is among the overlaps of `a` exactly if
    /// `a` is among the overlaps of `b`.
    pub proof fn lemma_overlaps_symmetric(&self, a: HbId, b: HbId)
        requires
            self.wf(),
        ensures
            (self.tracks(a) && self.overlaps(a).contains(b)) <==> (self.tracks(b)
                && self.overlaps(b).contains(a)),
            self.tracks(a) && self.overlaps(a).contains(b) ==> a != b,
    {
        if self.tracks(a) && self.recs()[a].overlaps.contains(b) {
        }
        if self.tracks(b) && self.recs()[b].overlaps.contains(a) {
        }
    }

    /// For two hitboxes the queue holds at most one event between them, and
    /// if it holds one, that is a `Separate` exactly if the two overlap, and
    /// a `Collide` otherwise.
    pub proof fn lemma_pair_event_fits_overlap(&self, code: u128, other: u128, a: HbId, b: HbId)
        requires
            self.wf(),
            self.queue().contains_key(code),
            self.queue()[code].joins(a, b),
            self.queue().contains_key(other),
            self.queue()[other].joins(a, b),
        ensures
            code == other,
            self.tracks(a) && self.tracks(b),
            self.queue()[code] is Separate <==> self.overlaps(a).contains(b),
            self.queue()[code] is Collide <==> !self.overlaps(a).contains(b),
    {
        let q = self.queue();
        let keys = keys_of(self.recs());
        assert(q[code].spec_other_id(q[code].spec_ids()@[0]) != Some(q[code].spec_ids()@[0]));
        assert(q[other].spec_other_id(q[other].spec_ids()@[0]) != Some(q[other].spec_ids()@[0]));
        assert(q[code].involves(a) && q[code].involves(b));
        assert(keys.contains_key(a) && keys.contains_key(b));
        assert(same_subject(q[code], q[other]));
        match q[code] {
            InternalEvent::Collide(x, y) => {
                if x == b {
                    if self.recs()[a].overlaps.contains(b) {
                    }
                }
            },
            InternalEvent::Separate(x, y) => {
                if x == b {
                    assert(self.recs()[b].overlaps.contains(a));
                }
            },
            _ => {},
        }
    }
}

} // verus!

//! What the orchestrator is handed and what it hands back, and the words
//! in which its contracts speak of one round of tracking.
use fnv::FnvHashMap;
use vstd::prelude::*;
use crate::engine::HbId;
use crate::engine::HbProfile;
use crate::engine::event::HbEvent;
use crate::engine::events::EventManager;
use crate::engine::events::InternalEvent;
use crate::engine::events::keys_of;
use crate::engine::events::linked;
use crate::engine::grid::GridArea;
use crate::engine::key::PAIR_BASE;
use crate::engine::key::is_pair_code;
use crate::engine::key::lemma_code_round_trip;
use crate::engine::key::serial_of;
use crate::engine::key::time_of;
use crate::engine::model::consistent;
use crate::engine::model::first_of;
use crate::engine::model::has_subject;
use crate::engine::model::same_subject;
use crate::engine::record::Rec;
use crate::index_rect::IndexRect;
use crate::time::HIGH_TIME;
use crate::time::Time;

verus! {

/// The grid cells that the record of `id` claims, with the group that it
/// claims them for: none for a hitbox that is not tracked or has no group.
pub open spec fn area_of<P: HbProfile, H>(recs: Map<HbId, Rec<P, H>>, id: HbId) -> Option<GridArea> {
    if recs.contains_key(id) {
        match (recs[id].area, recs[id].profile.spec_group()) {
            (Some(rect), Some(group)) => Some(GridArea { rect, group }),
            _ => None,
        }
    } else {
        None
    }
}

/// Every record is stored under the id of its profile, and claims grid
/// cells only if its profile has a group.
pub open spec fn profiles_sound<P: HbProfile, H>(recs: Map<HbId, Rec<P, H>>) -> bool {
    forall|id: HbId| #[trigger]
        recs.contains_key(id) ==> {
            &&& recs[id].profile.spec_id() == id
            &&& recs[id].area is Some ==> recs[id].profile.spec_group() is Some
            &&& recs[id].area matches Some(rect) ==> rect.wf()
        }
}

/// Every record whose profile has a group claims grid cells.
pub open spec fn celled<P: HbProfile, H>(recs: Map<HbId, Rec<P, H>>) -> bool {
    forall|id: HbId| #[trigger]
        recs.contains_key(id) ==> (recs[id].profile.spec_group() is Some ==> recs[id].area
            is Some)
}

/// The profiles of the hitboxes `ids`, in order.
pub open spec fn profiles_of<P: HbProfile, H>(recs: Map<HbId, Rec<P, H>>, ids: Seq<HbId>) -> Seq<P> {
    Seq::new(ids.len(), |i: int| recs[ids[i]].profile)
}

/// Whether `profiles` lists the profiles of the hitboxes in `ids`, each
/// once, in some order.
pub open spec fn lists_profiles<P: HbProfile, H>(
    recs: Map<HbId, Rec<P, H>>,
    ids: Set<HbId>,
    profiles: Seq<P>,
) -> bool {
    exists|order: Seq<HbId>|
        order.no_duplicates() && order.to_set() == ids && #[trigger] profiles_of(recs, order)
            == profiles
}

/// What the narrow phase computed for one peer of the hitbox that is being
/// tracked, both taken at the current time.
#[derive(PartialEq, Eq, Structural, Copy, Clone, Debug)]
pub struct PeerTimes {
    /// Whether the two touch already: the delay until they collide is
    /// zero.
    pub touching: bool,
    /// When the two collide: the current time plus the delay. Infinity if
    /// they never do.
    pub collide_at: Time,
    /// When the two are separated by the padding: the current time plus the
    /// delay. Infinity if they never are.
    pub separate_at: Time,
}

/// The times of the peers, by the peer's id.
pub type PeerTable = FnvHashMap<HbId, PeerTimes>;

/// The three times at which a hitbox needs attention by itself.
#[derive(PartialEq, Eq, Structural, Copy, Clone, Debug)]
pub struct SolitaireCheck {
    /// When the hitbox may have left the grid cells that were computed for
    /// it, so that its snapshot must be taken anew.
    pub reiterate_at: Time,
    /// When the hitbox ends unless it is updated before.
    pub end_time: Time,
    /// When the hitbox becomes too small.
    pub small_at: Time,
}

impl SolitaireCheck {
    /// The earliest of the three times, with the event that it asks for.
    /// Among equal times the reiteration comes first and the end second.
    pub open spec fn spec_earliest(self, id: HbId) -> (Time, InternalEvent) {
        if self.small_at < self.reiterate_at && self.small_at < self.end_time {
            (self.small_at, InternalEvent::PanicSmallHitbox(id))
        } else if self.end_time < self.reiterate_at {
            (self.end_time, InternalEvent::PanicDurationPassed(id))
        } else {
            (self.reiterate_at, InternalEvent::Reiterate(id))
        }
    }

    /// Whether none of the three times lies before `time`.
    pub open spec fn not_before(self, time: Time) -> bool {
        time <= self.reiterate_at && time <= self.end_time && time <= self.small_at
    }

    /// The earliest of the three times, with the event that it asks for.
    /// The hitbox is valid up to that time and no longer.
    pub fn earliest(&self, id: HbId) -> (r: (Time, InternalEvent))
        ensures
            r == self.spec_earliest(id),
            r.0 <= self.reiterate_at && r.0 <= self.end_time && r.0 <= self.small_at,
            r.0 == self.reiterate_at || r.0 == self.end_time || r.0 == self.small_at,
            !r.1.is_pair(),
            first_of(r.1) == id,
    {
        let mut result = (self.reiterate_at, InternalEvent::Reiterate(id));
        if self.end_time < result.0 {
            result = (self.end_time, InternalEvent::PanicDurationPassed(id));
        }
        if self.small_at < result.0 {
            result = (self.small_at, InternalEvent::PanicSmallHitbox(id));
        }
        result
    }
}

/// A hitbox as it is handed to the engine: the description to store, and
/// what the caller computed from it at the current time.
pub struct Snapshot<H> {
    /// The description of the moving shape. The engine stores it.
    pub hitbox: H,
    /// When the hitbox needs attention by itself.
    pub check: SolitaireCheck,
    /// The grid cells that the bounding box of the hitbox covers until
    /// then.
    pub area: IndexRect,
    /// The collide and separate times against each peer.
    pub peers: PeerTable,
}

/// What `next` needs to know to process the event that is due.
pub enum Reply<H> {
    /// For a `Collide` that is due: when the two will be separated again.
    /// For a `Separate` that is due: when the two will collide again.
    Pair(Time),
    /// For a `Reiterate` that is due: the hitbox's snapshot at the current
    /// time.
    Update(Snapshot<H>),
    /// For any other event, and where no event is due.
    Nothing,
}

/// What `next` did.
#[derive(Debug, PartialEq)]
pub enum Step<P> {
    /// No event was due. Nothing has changed.
    Idle,
    /// An internal event was processed. Another event may be due.
    Internal,
    /// A collide or separate event was processed: its kind and the
    /// profiles of the two hitboxes, the one with the smaller id first.
    Event(HbEvent, P, P),
    /// The event that was due reports a hitbox that became too small, or
    /// one that was not updated before its end time.
    Fault(InternalEvent),
}

/// One round of tracking, as the contracts speak of it: the hitbox, the
/// peers that matter to it and what was computed for them.
pub struct Tracking<P> {
    /// The hitbox that is tracked.
    pub id: HbId,
    /// Its profile.
    pub profile: P,
    /// Whether the hitbox has a group. A hitbox without one gets no events
    /// and no overlaps.
    pub grouped: bool,
    /// Whether the hitbox is being added, as opposed to updated.
    pub fresh: bool,
    /// The peers that the hitbox overlapped before.
    pub overlaps: Set<HbId>,
    /// The peers that share a grid cell with the hitbox, for a group that
    /// the hitbox interacts with.
    pub cellmates: Set<HbId>,
    /// The profile of each peer.
    pub profiles: Map<HbId, P>,
    /// The times computed for each peer.
    pub times: Map<HbId, PeerTimes>,
}

impl<P: HbProfile> Tracking<P> {
    /// Whether the peer `o` is a cellmate that the hitbox interacts with and
    /// did not overlap before.
    pub open spec fn courts(self, o: HbId) -> bool {
        self.grouped && !self.overlaps.contains(o) && self.cellmates.contains(o)
            && self.profile.spec_can_interact(&self.profiles[o])
    }

    /// Whether the hitbox and the peer `o` begin to overlap in this round:
    /// the hitbox is being added and the two touch already.
    pub open spec fn meets(self, o: HbId) -> bool {
        self.courts(o) && self.fresh && self.times[o].touching
    }

    /// The event that this round asks for between the hitbox and the peer
    /// `o`, with its time: a `Separate` for an overlap, old or new, a
    /// `Collide` for any other cellmate that the hitbox interacts with.
    pub open spec fn plan(self, o: HbId) -> Option<(InternalEvent, Time)> {
        if (self.grouped && self.overlaps.contains(o)) || self.meets(o) {
            Some((InternalEvent::Separate(self.id, o), self.times[o].separate_at))
        } else if self.courts(o) {
            Some((InternalEvent::Collide(self.id, o), self.times[o].collide_at))
        } else {
            None
        }
    }

    /// What this round schedules for the peers in `done`: what it asks
    /// for, where the time allows scheduling.
    pub open spec fn planned(self, done: Set<HbId>) -> Set<(InternalEvent, Time)> {
        Set::new(
            |f: (InternalEvent, Time)|
                exists|o: HbId| done.contains(o) && #[trigger] self.plan(o) == Some(f) && f.1
                    < HIGH_TIME,
        )
    }

    /// The peers that matter in this round.
    pub open spec fn peers(self) -> Set<HbId> {
        if self.grouped {
            self.overlaps.union(self.cellmates)
        } else {
            Set::<HbId>::empty()
        }
    }

    /// The peers that begin to overlap the hitbox in this round.
    pub open spec fn met(self) -> Set<HbId> {
        Set::new(|o: HbId| self.meets(o))
    }
}

/// Whether every event of `queue` between `id` and another hitbox is with a
/// hitbox in `done`.
pub open spec fn pairs_within(queue: Map<u128, InternalEvent>, id: HbId, done: Set<HbId>) -> bool {
    forall|code: u128|
        queue.contains_key(code) && #[trigger] queue[code].involves(id) && queue[code].is_pair()
            ==> (queue[code].spec_other_id(id) matches Some(o) && done.contains(o))
}

/// How scheduling `event` at `at` changes a queue: it adds the event under
/// a key that was free, with that time, if the time allows scheduling, and
/// else leaves the queue as it is.
pub open spec fn grown(
    before: Map<u128, InternalEvent>,
    after: Map<u128, InternalEvent>,
    event: InternalEvent,
    at: Time,
) -> bool {
    if at < HIGH_TIME {
        exists|code: u128|
            {
                &&& !before.contains_key(code)
                &&& time_of(code) == at
                &&& #[trigger] before.insert(code, event) == after
            }
    } else {
        after == before
    }
}

/// Scheduling an event between `id` and the peer `o` keeps the events of
/// `id` with the peers that are done, once `o` is one of them.
pub proof fn lemma_pairs_within_step(
    before: Map<u128, InternalEvent>,
    after: Map<u128, InternalEvent>,
    id: HbId,
    o: HbId,
    done: Set<HbId>,
    event: InternalEvent,
    at: Time,
)
    requires
        pairs_within(before, id, done),
        grown(before, after, event, at),
        id != o,
        event == InternalEvent::Collide(id, o) || event == InternalEvent::Separate(id, o),
    ensures
        pairs_within(after, id, done.insert(o)),
{
    if at < HIGH_TIME {
        let code = choose|code: u128|
            {
                &&& !before.contains_key(code)
                &&& time_of(code) == at
                &&& #[trigger] before.insert(code, event) == after
            };
        assert forall|c: u128|
            after.contains_key(c) && #[trigger] after[c].involves(id) && after[c].is_pair() implies (
        after[c].spec_other_id(id) matches Some(w) && done.insert(o).contains(w)) by {
            if c != code {
                assert(before.contains_key(c) && before[c].involves(id));
            }
        }
    } else {
        assert forall|c: u128|
            after.contains_key(c) && #[trigger] after[c].involves(id) && after[c].is_pair() implies (
        after[c].spec_other_id(id) matches Some(w) && done.insert(o).contains(w)) by {
            assert(before.contains_key(c) && before[c].involves(id));
        }
    }
}

/// Whether no event of `queue` mentions `id`.
pub open spec fn unmentioned(queue: Map<u128, InternalEvent>, id: HbId) -> bool {
    forall|code: u128| queue.contains_key(code) ==> !(#[trigger] queue[code].involves(id))
}

/// Whether two tables of records agree in all but, perhaps, the key sets.
pub open spec fn same_but_keys<P, H>(a: Map<HbId, Rec<P, H>>, b: Map<HbId, Rec<P, H>>) -> bool {
    &&& a.dom() == b.dom()
    &&& forall|o: HbId| #[trigger] a.contains_key(o) ==> a[o] == (Rec { keys: a[o].keys, ..b[o] })
}

/// Whether two tables of records hold the same hitboxes with the same
/// profiles, descriptions and grid cells.
pub open spec fn same_payload<P, H>(a: Map<HbId, Rec<P, H>>, b: Map<HbId, Rec<P, H>>) -> bool {
    &&& a.dom() == b.dom()
    &&& forall|o: HbId| #[trigger]
        a.contains_key(o) ==> a[o].profile == b[o].profile && a[o].hitbox == b[o].hitbox
            && a[o].area == b[o].area
}

/// Adding a peer to the peers that are done adds what the round asks for
/// that peer to what is scheduled for them.
pub proof fn lemma_planned_step<P: HbProfile>(t: Tracking<P>, done: Set<HbId>, o: HbId)
    ensures
        t.planned(done.insert(o)) == match t.plan(o) {
            Some(f) => if f.1 < HIGH_TIME { t.planned(done).insert(f) } else { t.planned(done) },
            None => t.planned(done),
        },
        t.planned(Set::<HbId>::empty()) == Set::<(InternalEvent, Time)>::empty(),
{
    let a = t.planned(done.insert(o));
    let b = match t.plan(o) {
        Some(f) => if f.1 < HIGH_TIME { t.planned(done).insert(f) } else { t.planned(done) },
        None => t.planned(done),
    };
    assert forall|f: (InternalEvent, Time)| a.contains(f) <==> b.contains(f) by {
        if a.contains(f) {
            let w = choose|w: HbId|
                done.insert(o).contains(w) && #[trigger] t.plan(w) == Some(f) && f.1 < HIGH_TIME;
            if w != o {
                assert(done.contains(w));
            }
        }
        if b.contains(f) {
            if t.plan(o) == Some(f) && f.1 < HIGH_TIME {
                assert(done.insert(o).contains(o));
            } else {
                let w = choose|w: HbId|
                    done.contains(w) && #[trigger] t.plan(w) == Some(f) && f.1 < HIGH_TIME;
                assert(done.insert(o).contains(w));
            }
        }
    }
    assert(a =~= b);
    assert(t.planned(Set::<HbId>::empty()) =~= Set::<(InternalEvent, Time)>::empty());
}

/// A table of records that differs from a consistent one only in profiles,
/// descriptions and grid cells is consistent too.
pub proof fn lemma_consistent_payload<P, H>(
    recs: Map<HbId, Rec<P, H>>,
    recs2: Map<HbId, Rec<P, H>>,
    queue: Map<u128, InternalEvent>,
    time: Time,
)
    requires
        consistent(recs, queue, time),
        recs2.dom() == recs.dom(),
        forall|o: HbId| #[trigger]
            recs.contains_key(o) ==> recs2[o].keys == recs[o].keys && recs2[o].overlaps
                == recs[o].overlaps,
    ensures
        consistent(recs2, queue, time),
{
    assert(keys_of(recs2) =~= keys_of(recs)) by {
        assert forall|o: HbId| recs.contains_key(o) implies #[trigger] keys_of(recs2)[o]
            == keys_of(recs)[o] by {
            assert(recs.contains_key(o));
        }
    }
    assert forall|a: HbId, b: HbId|
        recs2.contains_key(a) && #[trigger] recs2[a].overlaps.contains(b) implies a != b
        && recs2.contains_key(b) && recs2[b].overlaps.contains(a) by {
        assert(recs.contains_key(a));
        assert(recs[a].overlaps.contains(b));
        assert(recs.contains_key(b));
    }
    assert forall|c: u128| #[trigger] queue.contains_key(c) implies match queue[c] {
        InternalEvent::Collide(x, y) => recs2.contains_key(x) && !recs2[x].overlaps.contains(y),
        InternalEvent::Separate(x, y) => recs2.contains_key(x) && recs2[x].overlaps.contains(y),
        _ => true,
    } by {
        match queue[c] {
            InternalEvent::Collide(x, y) => {
                assert(recs.contains_key(x));
            },
            InternalEvent::Separate(x, y) => {
                assert(recs.contains_key(x));
            },
            _ => {},
        }
    }
}

/// A queue that is linked to the records has no event between `id` and a
/// peer outside `done`, if all its events between `id` and others are with
/// peers in `done`.
pub proof fn lemma_no_pair_subject(
    queue: Map<u128, InternalEvent>,
    keys: Map<HbId, Set<u128>>,
    id: HbId,
    o: HbId,
    done: Set<HbId>,
)
    requires
        linked(queue, keys),
        pairs_within(queue, id, done),
        !done.contains(o),
        id != o,
    ensures
        !has_subject(queue, InternalEvent::Collide(id, o)),
        !has_subject(queue, InternalEvent::Separate(id, o)),
{
    assert forall|code: u128| queue.contains_key(code) implies !(#[trigger] same_subject(
        queue[code],
        InternalEvent::Collide(id, o),
    )) && !same_subject(queue[code], InternalEvent::Separate(id, o)) by {
        let e = queue[code];
        assert(e.spec_other_id(e.spec_ids()@[0]) != Some(e.spec_ids()@[0]));
        if same_subject(e, InternalEvent::Collide(id, o)) || same_subject(
            e,
            InternalEvent::Separate(id, o),
        ) {
            assert(e.is_pair());
            assert(e.involves(id));
            assert(e.spec_other_id(id) == Some(o));
        }
    }
    if has_subject(queue, InternalEvent::Separate(id, o)) {
        let code = choose|code: u128|
            queue.contains_key(code) && #[trigger] same_subject(
                queue[code],
                InternalEvent::Separate(id, o),
            );
        assert(same_subject(queue[code], InternalEvent::Collide(id, o)));
    }
}

/// The manager allocated every key that a linked record holds.
pub proof fn lemma_knows<P, H>(events: EventManager, recs: Map<HbId, Rec<P, H>>, id: HbId)
    requires
        events.wf(),
        linked(events.queue(), keys_of(recs)),
        recs.contains_key(id),
    ensures
        events.knows(recs[id].keys),
{
    let keys = keys_of(recs);
    assert forall|code: u128| #[trigger] recs[id].keys.contains(code) implies crate::engine::key::serial_of(
        code,
    ) < events.allocated() by {
        assert(keys.contains_key(id) && keys[id].contains(code));
        assert(events.queue().contains_key(code));
    }
}

/// The key that a manager allocates next carries the number of keys that
/// it has allocated so far.
pub proof fn lemma_next_code(events: EventManager, time: Time, for_pair: bool)
    requires
        events.has_room(),
    ensures
        serial_of(events.next_code(time, for_pair)) == events.allocated(),
        is_pair_code(events.next_code(time, for_pair)) == for_pair,
        time_of(events.next_code(time, for_pair)) == time,
{
    let index: u64 = if for_pair {
        (events.allocated() + PAIR_BASE) as u64
    } else {
        events.allocated()
    };
    lemma_code_round_trip(time, index);
}

} // verus!

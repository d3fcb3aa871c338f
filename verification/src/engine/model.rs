//! The state of the engine as mathematics: what must hold between the
//! records and the queue, and why each step of the engine keeps it.
use vstd::prelude::*;
use crate::engine::events::keys_of;
use crate::engine::events::linked;
use crate::engine::events::strip;
use crate::engine::events::unlink;
use crate::engine::events::InternalEvent;
use crate::engine::key::time_of;
use crate::engine::record::Rec;
use crate::engine::HbId;
use crate::time::Time;

verus! {

/// The first hitbox that an event mentions.
pub open spec fn first_of(event: InternalEvent) -> HbId {
    event.spec_ids()@[0]
}

/// The second hitbox that an event between two hitboxes mentions.
pub open spec fn second_of(event: InternalEvent) -> HbId {
    event.spec_ids()@[1]
}

/// Two events have the same subject when both are about one and the same
/// hitbox alone, or both are between the same two hitboxes.
pub open spec fn same_subject(e1: InternalEvent, e2: InternalEvent) -> bool {
    if e1.is_pair() {
        e2.is_pair() && e2.involves(first_of(e1)) && e2.involves(second_of(e1))
    } else {
        !e2.is_pair() && first_of(e2) == first_of(e1)
    }
}

/// Overlaps are mutual, join two different hitboxes, and both exist.
pub open spec fn overlaps_sound<P, H>(recs: Map<HbId, Rec<P, H>>) -> bool {
    forall|a: HbId, b: HbId|
        recs.contains_key(a) && #[trigger] recs[a].overlaps.contains(b) ==> a != b
            && recs.contains_key(b) && recs[b].overlaps.contains(a)
}

/// A queued `Collide` is between hitboxes that do not overlap, a queued
/// `Separate` between hitboxes that do.
pub open spec fn kinds_sound<P, H>(
    recs: Map<HbId, Rec<P, H>>,
    queue: Map<u128, InternalEvent>,
) -> bool {
    forall|code: u128| #[trigger]
        queue.contains_key(code) ==> match queue[code] {
            InternalEvent::Collide(a, b) => recs.contains_key(a) && !recs[a].overlaps.contains(b),
            InternalEvent::Separate(a, b) => recs.contains_key(a) && recs[a].overlaps.contains(b),
            _ => true,
        }
}

/// The queue holds at most one event for each subject: one for each hitbox
/// alone and one for each pair of hitboxes.
pub open spec fn subjects_unique(queue: Map<u128, InternalEvent>) -> bool {
    forall|c1: u128, c2: u128|
        queue.contains_key(c1) && queue.contains_key(c2) && #[trigger] same_subject(
            queue[c1],
            queue[c2],
        ) ==> c1 == c2
}

/// No queued event is due before `time`.
pub open spec fn not_early(queue: Map<u128, InternalEvent>, time: Time) -> bool {
    forall|code: u128| #[trigger] queue.contains_key(code) ==> time <= time_of(code)
}

/// Whether `queue` holds an event with the subject of `event`.
pub open spec fn has_subject(queue: Map<u128, InternalEvent>, event: InternalEvent) -> bool {
    exists|code: u128| queue.contains_key(code) && #[trigger] same_subject(queue[code], event)
}

/// What holds between the records, the queue and the clock whenever the
/// engine is at rest.
pub open spec fn consistent<P, H>(
    recs: Map<HbId, Rec<P, H>>,
    queue: Map<u128, InternalEvent>,
    time: Time,
) -> bool {
    &&& linked(queue, keys_of(recs))
    &&& overlaps_sound(recs)
    &&& kinds_sound(recs, queue)
    &&& subjects_unique(queue)
    &&& not_early(queue, time)
}

/// What is scheduled: the queued events with their times, without the keys
/// under which the queue happens to hold them.
pub open spec fn schedule(queue: Map<u128, InternalEvent>) -> Set<(InternalEvent, Time)> {
    Set::new(
        |f: (InternalEvent, Time)|
            exists|code: u128|
                #![trigger queue.contains_key(code)]
                queue.contains_key(code) && queue[code] == f.0 && time_of(code) == f.1,
    )
}

/// Scheduling one more event adds it to what is scheduled.
pub proof fn lemma_schedule_insert(queue: Map<u128, InternalEvent>, code: u128, event: InternalEvent)
    requires
        !queue.contains_key(code),
    ensures
        schedule(queue.insert(code, event)) == schedule(queue).insert((event, time_of(code))),
{
    let a = schedule(queue.insert(code, event));
    let b = schedule(queue).insert((event, time_of(code)));
    assert forall|f: (InternalEvent, Time)| a.contains(f) <==> b.contains(f) by {
        if a.contains(f) {
            let c = choose|c: u128|
                #![trigger queue.insert(code, event).contains_key(c)]
                queue.insert(code, event).contains_key(c) && queue.insert(code, event)[c] == f.0
                    && time_of(c) == f.1;
            if c != code {
                assert(queue.contains_key(c));
            }
        }
        if b.contains(f) {
            if f == (event, time_of(code)) {
                assert(queue.insert(code, event).contains_key(code));
            } else {
                let c = choose|c: u128|
                    #![trigger queue.contains_key(c)]
                    queue.contains_key(c) && queue[c] == f.0 && time_of(c) == f.1;
                assert(queue.insert(code, event).contains_key(c));
            }
        }
    }
    assert(a =~= b);
}

/// Taking an event out of a queue with unique subjects takes it out of what
/// is scheduled.
pub proof fn lemma_schedule_remove(queue: Map<u128, InternalEvent>, code: u128)
    requires
        queue.contains_key(code),
        subjects_unique(queue),
        forall|c: u128| #[trigger] queue.contains_key(c) ==> queue[c].is_pair() ==> first_of(queue[c]) != second_of(queue[c]),
    ensures
        schedule(queue.remove(code)) == schedule(queue).remove((queue[code], time_of(code))),
{
    let a = schedule(queue.remove(code));
    let b = schedule(queue).remove((queue[code], time_of(code)));
    assert forall|f: (InternalEvent, Time)| a.contains(f) <==> b.contains(f) by {
        if a.contains(f) {
            let c = choose|c: u128|
                #![trigger queue.remove(code).contains_key(c)]
                queue.remove(code).contains_key(c) && queue.remove(code)[c] == f.0 && time_of(c)
                    == f.1;
            assert(queue.contains_key(c));
            if f == (queue[code], time_of(code)) {
                assert(same_subject(queue[c], queue[code]));
            }
        }
        if b.contains(f) {
            let c = choose|c: u128|
                #![trigger queue.contains_key(c)]
                queue.contains_key(c) && queue[c] == f.0 && time_of(c) == f.1;
            assert(c != code);
            assert(queue.remove(code).contains_key(c));
        }
    }
    assert(a =~= b);
}

/// Cancelling every event that mentions a hitbox leaves scheduled what
/// does not mention it.
pub proof fn lemma_schedule_strip(queue: Map<u128, InternalEvent>, codes: Set<u128>, id: HbId)
    requires
        forall|c: u128| codes.contains(c) <==> queue.contains_key(c) && queue[c].involves(id),
    ensures
        schedule(queue.remove_keys(codes)) == schedule(queue).filter(
            |f: (InternalEvent, Time)| !f.0.involves(id),
        ),
{
    let q2 = queue.remove_keys(codes);
    let a = schedule(q2);
    let b = schedule(queue).filter(|f: (InternalEvent, Time)| !f.0.involves(id));
    assert forall|f: (InternalEvent, Time)| a.contains(f) <==> b.contains(f) by {
        if a.contains(f) {
            let c = choose|c: u128|
                #![trigger q2.contains_key(c)]
                q2.contains_key(c) && q2[c] == f.0 && time_of(c) == f.1;
            assert(queue.contains_key(c));
            assert(!codes.contains(c));
        }
        if b.contains(f) {
            let c = choose|c: u128|
                #![trigger queue.contains_key(c)]
                queue.contains_key(c) && queue[c] == f.0 && time_of(c) == f.1;
            assert(!codes.contains(c));
            assert(q2.contains_key(c));
        }
    }
    assert(a =~= b);
}

/// Taking one event out of the queue, and its key out of the records that
/// it mentions, keeps the state consistent.
pub proof fn lemma_pop<P, H>(
    recs: Map<HbId, Rec<P, H>>,
    queue: Map<u128, InternalEvent>,
    time: Time,
    code: u128,
)
    requires
        consistent(recs, queue, time),
        queue.contains_key(code),
    ensures
        consistent(unlink(recs, code, queue[code].spec_ids()@), queue.remove(code), time),
        overlaps_sound(unlink(recs, code, queue[code].spec_ids()@)),
{
    let event = queue[code];
    let recs2 = unlink(recs, code, event.spec_ids()@);
    let queue2 = queue.remove(code);
    let keys = keys_of(recs);
    let keys2 = keys_of(recs2);
    assert forall|c: u128, id: HbId|
        queue2.contains_key(c) && #[trigger] queue2[c].involves(id) implies keys2.contains_key(id)
        && keys2[id].contains(c) by {
        assert(queue.contains_key(c) && queue[c].involves(id));
        assert(keys.contains_key(id) && keys[id].contains(c));
    }
    assert forall|id: HbId, c: u128|
        keys2.contains_key(id) && #[trigger] keys2[id].contains(c) implies queue2.contains_key(c)
        && queue2[c].involves(id) by {
        assert(keys.contains_key(id) && keys[id].contains(c));
        if c == code {
            assert(event.involves(id));
            assert(event.spec_ids()@.contains(id)) by {
                if event.spec_ids()@[0] == id {
                } else {
                    assert(event.spec_ids()@[1] == id);
                }
            }
        }
    }
    assert forall|c: u128| #[trigger] queue2.contains_key(c) implies queue2[c].spec_other_id(
        queue2[c].spec_ids()@[0],
    ) != Some(queue2[c].spec_ids()@[0]) by {
        assert(queue.contains_key(c));
    }
    assert forall|a: HbId, b: HbId|
        recs2.contains_key(a) && #[trigger] recs2[a].overlaps.contains(b) implies a != b
        && recs2.contains_key(b) && recs2[b].overlaps.contains(a) by {
        assert(recs[a].overlaps.contains(b));
    }
    assert forall|c: u128| #[trigger] queue2.contains_key(c) implies match queue2[c] {
        InternalEvent::Collide(a, b) => recs2.contains_key(a) && !recs2[a].overlaps.contains(b),
        InternalEvent::Separate(a, b) => recs2.contains_key(a) && recs2[a].overlaps.contains(b),
        _ => true,
    } by {
        assert(queue.contains_key(c));
    }
    assert forall|c1: u128, c2: u128|
        queue2.contains_key(c1) && queue2.contains_key(c2) && #[trigger] same_subject(
            queue2[c1],
            queue2[c2],
        ) implies c1 == c2 by {
        assert(same_subject(queue[c1], queue[c2]));
    }
    assert forall|c: u128| #[trigger] queue2.contains_key(c) implies time <= time_of(c) by {
        assert(queue.contains_key(c));
    }
}

/// The records after the key `code` went to the hitboxes `a` and `b`.
pub open spec fn with_pair_key<P, H>(recs: Map<HbId, Rec<P, H>>, a: HbId, b: HbId, code: u128) -> Map<
    HbId,
    Rec<P, H>,
> {
    recs.insert(a, recs[a].with_key(code)).insert(b, recs[b].with_key(code))
}

/// Scheduling an event between two hitboxes that have none, of the kind
/// that fits their overlap, keeps the state consistent.
pub proof fn lemma_add_pair<P, H>(
    recs: Map<HbId, Rec<P, H>>,
    queue: Map<u128, InternalEvent>,
    time: Time,
    code: u128,
    event: InternalEvent,
    a: HbId,
    b: HbId,
)
    requires
        consistent(recs, queue, time),
        !queue.contains_key(code),
        event == InternalEvent::Collide(a, b) || event == InternalEvent::Separate(a, b),
        a != b,
        recs.contains_key(a),
        recs.contains_key(b),
        time <= time_of(code),
        event is Collide ==> !recs[a].overlaps.contains(b),
        event is Separate ==> recs[a].overlaps.contains(b),
        !has_subject(queue, event),
    ensures
        consistent(with_pair_key(recs, a, b, code), queue.insert(code, event), time),
{
    let recs2 = with_pair_key(recs, a, b, code);
    let queue2 = queue.insert(code, event);
    let keys = keys_of(recs);
    let keys2 = keys_of(recs2);
    assert forall|c: u128, id: HbId|
        queue2.contains_key(c) && #[trigger] queue2[c].involves(id) implies keys2.contains_key(id)
        && keys2[id].contains(c) by {
        if c != code {
            assert(queue.contains_key(c) && queue[c].involves(id));
            assert(keys.contains_key(id) && keys[id].contains(c));
        }
    }
    assert forall|id: HbId, c: u128|
        keys2.contains_key(id) && #[trigger] keys2[id].contains(c) implies queue2.contains_key(c)
        && queue2[c].involves(id) by {
        if c != code {
            assert(keys.contains_key(id) && keys[id].contains(c));
        } else {
            if id != a && id != b {
                assert(keys.contains_key(id) && keys[id].contains(c));
            }
        }
    }
    assert forall|c: u128| #[trigger] queue2.contains_key(c) implies queue2[c].spec_other_id(
        queue2[c].spec_ids()@[0],
    ) != Some(queue2[c].spec_ids()@[0]) by {
        if c != code {
            assert(queue.contains_key(c));
        }
    }
    assert forall|x: HbId, y: HbId|
        recs2.contains_key(x) && #[trigger] recs2[x].overlaps.contains(y) implies x != y
        && recs2.contains_key(y) && recs2[y].overlaps.contains(x) by {
        assert(recs[x].overlaps.contains(y));
    }
    assert forall|c: u128| #[trigger] queue2.contains_key(c) implies match queue2[c] {
        InternalEvent::Collide(x, y) => recs2.contains_key(x) && !recs2[x].overlaps.contains(y),
        InternalEvent::Separate(x, y) => recs2.contains_key(x) && recs2[x].overlaps.contains(y),
        _ => true,
    } by {
        if c != code {
            assert(queue.contains_key(c));
        }
    }
    assert forall|c1: u128, c2: u128|
        queue2.contains_key(c1) && queue2.contains_key(c2) && #[trigger] same_subject(
            queue2[c1],
            queue2[c2],
        ) implies c1 == c2 by {
        if c1 == code && c2 != code {
            assert(queue.contains_key(c2));
            assert(same_subject(queue[c2], event));
        } else if c2 == code && c1 != code {
            assert(queue.contains_key(c1));
            assert(same_subject(queue[c1], event));
        } else if c1 != code && c2 != code {
            assert(same_subject(queue[c1], queue[c2]));
        }
    }
    assert forall|c: u128| #[trigger] queue2.contains_key(c) implies time <= time_of(c) by {
        if c != code {
            assert(queue.contains_key(c));
        }
    }
}

/// Scheduling an event about one hitbox that has none keeps the state
/// consistent.
pub proof fn lemma_add_solo<P, H>(
    recs: Map<HbId, Rec<P, H>>,
    queue: Map<u128, InternalEvent>,
    time: Time,
    code: u128,
    event: InternalEvent,
    id: HbId,
)
    requires
        consistent(recs, queue, time),
        !queue.contains_key(code),
        !event.is_pair(),
        first_of(event) == id,
        recs.contains_key(id),
        time <= time_of(code),
        !has_subject(queue, event),
    ensures
        consistent(recs.insert(id, recs[id].with_key(code)), queue.insert(code, event), time),
{
    let recs2 = recs.insert(id, recs[id].with_key(code));
    let queue2 = queue.insert(code, event);
    let keys = keys_of(recs);
    let keys2 = keys_of(recs2);
    assert forall|c: u128, o: HbId|
        queue2.contains_key(c) && #[trigger] queue2[c].involves(o) implies keys2.contains_key(o)
        && keys2[o].contains(c) by {
        if c != code {
            assert(queue.contains_key(c) && queue[c].involves(o));
            assert(keys.contains_key(o) && keys[o].contains(c));
        }
    }
    assert forall|o: HbId, c: u128|
        keys2.contains_key(o) && #[trigger] keys2[o].contains(c) implies queue2.contains_key(c)
        && queue2[c].involves(o) by {
        if c != code {
            assert(keys.contains_key(o) && keys[o].contains(c));
        } else {
            if o != id {
                assert(keys.contains_key(o) && keys[o].contains(c));
            }
        }
    }
    assert forall|c: u128| #[trigger] queue2.contains_key(c) implies queue2[c].spec_other_id(
        queue2[c].spec_ids()@[0],
    ) != Some(queue2[c].spec_ids()@[0]) by {
        if c != code {
            assert(queue.contains_key(c));
        }
    }
    assert forall|x: HbId, y: HbId|
        recs2.contains_key(x) && #[trigger] recs2[x].overlaps.contains(y) implies x != y
        && recs2.contains_key(y) && recs2[y].overlaps.contains(x) by {
        assert(recs[x].overlaps.contains(y));
    }
    assert forall|c: u128| #[trigger] queue2.contains_key(c) implies match queue2[c] {
        InternalEvent::Collide(x, y) => recs2.contains_key(x) && !recs2[x].overlaps.contains(y),
        InternalEvent::Separate(x, y) => recs2.contains_key(x) && recs2[x].overlaps.contains(y),
        _ => true,
    } by {
        if c != code {
            assert(queue.contains_key(c));
        }
    }
    assert forall|c1: u128, c2: u128|
        queue2.contains_key(c1) && queue2.contains_key(c2) && #[trigger] same_subject(
            queue2[c1],
            queue2[c2],
        ) implies c1 == c2 by {
        if c1 == code && c2 != code {
            assert(queue.contains_key(c2));
            assert(same_subject(queue[c2], event));
        } else if c2 == code && c1 != code {
            assert(queue.contains_key(c1));
            assert(same_subject(queue[c1], event));
        } else if c1 != code && c2 != code {
            assert(same_subject(queue[c1], queue[c2]));
        }
    }
    assert forall|c: u128| #[trigger] queue2.contains_key(c) implies time <= time_of(c) by {
        if c != code {
            assert(queue.contains_key(c));
        }
    }
}

/// The records after the hitboxes `a` and `b` began to overlap.
pub open spec fn joined<P, H>(recs: Map<HbId, Rec<P, H>>, a: HbId, b: HbId) -> Map<HbId, Rec<P, H>> {
    recs.insert(a, recs[a].with_overlap(b)).insert(b, recs[b].with_overlap(a))
}

/// The records after the hitboxes `a` and `b` ceased to overlap.
pub open spec fn parted<P, H>(recs: Map<HbId, Rec<P, H>>, a: HbId, b: HbId) -> Map<HbId, Rec<P, H>> {
    recs.insert(a, recs[a].without_overlap(b)).insert(b, recs[b].without_overlap(a))
}

/// Whether `queue` holds an event between the hitboxes `a` and `b`.
pub open spec fn has_pair_event(queue: Map<u128, InternalEvent>, a: HbId, b: HbId) -> bool {
    has_subject(queue, InternalEvent::Collide(a, b))
}

/// Recording an overlap between two hitboxes that have no event between
/// them keeps the state consistent.
pub proof fn lemma_join<P, H>(
    recs: Map<HbId, Rec<P, H>>,
    queue: Map<u128, InternalEvent>,
    time: Time,
    a: HbId,
    b: HbId,
)
    requires
        consistent(recs, queue, time),
        a != b,
        recs.contains_key(a),
        recs.contains_key(b),
        !has_pair_event(queue, a, b),
    ensures
        consistent(joined(recs, a, b), queue, time),
{
    let recs2 = joined(recs, a, b);
    assert(keys_of(recs2) =~= keys_of(recs));
    assert forall|x: HbId, y: HbId|
        recs2.contains_key(x) && #[trigger] recs2[x].overlaps.contains(y) implies x != y
        && recs2.contains_key(y) && recs2[y].overlaps.contains(x) by {
        if (x == a && y == b) || (x == b && y == a) {
        } else {
            assert(recs[x].overlaps.contains(y));
        }
    }
    assert forall|c: u128| #[trigger] queue.contains_key(c) implies match queue[c] {
        InternalEvent::Collide(x, y) => recs2.contains_key(x) && !recs2[x].overlaps.contains(y),
        InternalEvent::Separate(x, y) => recs2.contains_key(x) && recs2[x].overlaps.contains(y),
        _ => true,
    } by {
        assert(queue[c].spec_other_id(queue[c].spec_ids()@[0]) != Some(queue[c].spec_ids()@[0]));
        if queue[c].is_pair() && queue[c].involves(a) && queue[c].involves(b) {
            assert(same_subject(queue[c], InternalEvent::Collide(a, b)));
        }
    }
}

/// Dropping the overlap between two hitboxes that have no event between
/// them keeps the state consistent.
pub proof fn lemma_part<P, H>(
    recs: Map<HbId, Rec<P, H>>,
    queue: Map<u128, InternalEvent>,
    time: Time,
    a: HbId,
    b: HbId,
)
    requires
        consistent(recs, queue, time),
        a != b,
        recs.contains_key(a),
        recs.contains_key(b),
        !has_pair_event(queue, a, b),
    ensures
        consistent(parted(recs, a, b), queue, time),
{
    let recs2 = parted(recs, a, b);
    assert(keys_of(recs2) =~= keys_of(recs));
    assert forall|x: HbId, y: HbId|
        recs2.contains_key(x) && #[trigger] recs2[x].overlaps.contains(y) implies x != y
        && recs2.contains_key(y) && recs2[y].overlaps.contains(x) by {
        assert(recs[x].overlaps.contains(y));
    }
    assert forall|c: u128| #[trigger] queue.contains_key(c) implies match queue[c] {
        InternalEvent::Collide(x, y) => recs2.contains_key(x) && !recs2[x].overlaps.contains(y),
        InternalEvent::Separate(x, y) => recs2.contains_key(x) && recs2[x].overlaps.contains(y),
        _ => true,
    } by {
        assert(queue[c].spec_other_id(queue[c].spec_ids()@[0]) != Some(queue[c].spec_ids()@[0]));
        if queue[c].is_pair() && queue[c].involves(a) && queue[c].involves(b) {
            assert(same_subject(queue[c], InternalEvent::Collide(a, b)));
        }
    }
}

/// The records after every event of the hitbox `id` was cancelled.
pub open spec fn cleared<P, H>(recs: Map<HbId, Rec<P, H>>, id: HbId) -> Map<HbId, Rec<P, H>> {
    strip(recs, recs[id].keys)
}

/// Cancelling every event that mentions a hitbox keeps the state
/// consistent, and leaves no event that mentions the hitbox.
pub proof fn lemma_clear<P, H>(
    recs: Map<HbId, Rec<P, H>>,
    queue: Map<u128, InternalEvent>,
    time: Time,
    id: HbId,
)
    requires
        consistent(recs, queue, time),
        recs.contains_key(id),
    ensures
        consistent(cleared(recs, id), queue.remove_keys(recs[id].keys), time),
        cleared(recs, id)[id].keys == Set::<u128>::empty(),
        forall|c: u128|
            recs[id].keys.contains(c) <==> queue.contains_key(c) && queue[c].involves(id),
        forall|c: u128| #[trigger]
            queue.remove_keys(recs[id].keys).contains_key(c) ==> !queue[c].involves(id),
{
    let codes = recs[id].keys;
    let recs2 = cleared(recs, id);
    let queue2 = queue.remove_keys(codes);
    let keys = keys_of(recs);
    let keys2 = keys_of(recs2);
    assert(keys.contains_key(id));
    assert forall|c: u128| codes.contains(c) <==> queue.contains_key(c) && queue[c].involves(
        id,
    ) by {
        if codes.contains(c) {
            assert(keys[id].contains(c));
        }
        if queue.contains_key(c) && queue[c].involves(id) {
            assert(keys[id].contains(c));
        }
    }
    assert(recs2[id].keys =~= Set::<u128>::empty());
    assert forall|c: u128, o: HbId|
        queue2.contains_key(c) && #[trigger] queue2[c].involves(o) implies keys2.contains_key(o)
        && keys2[o].contains(c) by {
        assert(queue.contains_key(c) && queue[c].involves(o));
        assert(keys.contains_key(o) && keys[o].contains(c));
    }
    assert forall|o: HbId, c: u128|
        keys2.contains_key(o) && #[trigger] keys2[o].contains(c) implies queue2.contains_key(c)
        && queue2[c].involves(o) by {
        assert(keys.contains_key(o) && keys[o].contains(c));
    }
    assert forall|c: u128| #[trigger] queue2.contains_key(c) implies queue2[c].spec_other_id(
        queue2[c].spec_ids()@[0],
    ) != Some(queue2[c].spec_ids()@[0]) by {
        assert(queue.contains_key(c));
    }
    assert forall|x: HbId, y: HbId|
        recs2.contains_key(x) && #[trigger] recs2[x].overlaps.contains(y) implies x != y
        && recs2.contains_key(y) && recs2[y].overlaps.contains(x) by {
        assert(recs[x].overlaps.contains(y));
    }
    assert forall|c: u128| #[trigger] queue2.contains_key(c) implies match queue2[c] {
        InternalEvent::Collide(x, y) => recs2.contains_key(x) && !recs2[x].overlaps.contains(y),
        InternalEvent::Separate(x, y) => recs2.contains_key(x) && recs2[x].overlaps.contains(y),
        _ => true,
    } by {
        assert(queue.contains_key(c));
    }
    assert forall|c1: u128, c2: u128|
        queue2.contains_key(c1) && queue2.contains_key(c2) && #[trigger] same_subject(
            queue2[c1],
            queue2[c2],
        ) implies c1 == c2 by {
        assert(same_subject(queue[c1], queue[c2]));
    }
    assert forall|c: u128| #[trigger] queue2.contains_key(c) implies time <= time_of(c) by {
        assert(queue.contains_key(c));
    }
}

/// A new record without events and overlaps fits into a consistent state,
/// and no queued event mentions a hitbox that has no record.
pub proof fn lemma_fresh_record<P, H>(
    recs: Map<HbId, Rec<P, H>>,
    queue: Map<u128, InternalEvent>,
    time: Time,
    id: HbId,
    rec: Rec<P, H>,
)
    requires
        consistent(recs, queue, time),
        !recs.contains_key(id),
        rec.keys == Set::<u128>::empty(),
        rec.overlaps == Set::<HbId>::empty(),
    ensures
        consistent(recs.insert(id, rec), queue, time),
        forall|code: u128| queue.contains_key(code) ==> !(#[trigger] queue[code].involves(id)),
        forall|o: HbId| #[trigger] recs.contains_key(o) ==> !recs[o].overlaps.contains(id),
{
    let recs2 = recs.insert(id, rec);
    let keys = keys_of(recs);
    let keys2 = keys_of(recs2);
    assert forall|code: u128| queue.contains_key(code) implies !(#[trigger] queue[code].involves(
        id,
    )) by {
        if queue[code].involves(id) {
            assert(keys.contains_key(id));
        }
    }
    assert forall|o: HbId| #[trigger] recs.contains_key(o) implies !recs[o].overlaps.contains(
        id,
    ) by {
        if recs[o].overlaps.contains(id) {
            assert(recs.contains_key(id));
        }
    }
    assert forall|c: u128, o: HbId|
        queue.contains_key(c) && #[trigger] queue[c].involves(o) implies keys2.contains_key(o)
        && keys2[o].contains(c) by {
        assert(keys.contains_key(o) && keys[o].contains(c));
    }
    assert forall|o: HbId, c: u128|
        keys2.contains_key(o) && #[trigger] keys2[o].contains(c) implies queue.contains_key(c)
        && queue[c].involves(o) by {
        assert(keys.contains_key(o) && keys[o].contains(c));
    }
    assert forall|x: HbId, y: HbId|
        recs2.contains_key(x) && #[trigger] recs2[x].overlaps.contains(y) implies x != y
        && recs2.contains_key(y) && recs2[y].overlaps.contains(x) by {
        assert(recs[x].overlaps.contains(y));
    }
    assert forall|c: u128| #[trigger] queue.contains_key(c) implies match queue[c] {
        InternalEvent::Collide(x, y) => recs2.contains_key(x) && !recs2[x].overlaps.contains(y),
        InternalEvent::Separate(x, y) => recs2.contains_key(x) && recs2[x].overlaps.contains(y),
        _ => true,
    } by {
        match queue[c] {
            InternalEvent::Collide(x, y) => {
                assert(queue[c].involves(x));
            },
            InternalEvent::Separate(x, y) => {
                assert(queue[c].involves(x));
            },
            _ => {},
        }
    }
}

/// The records after the hitbox `id` left: its record is gone, and no
/// peer lists it as an overlap.
pub open spec fn removed<P, H>(recs: Map<HbId, Rec<P, H>>, id: HbId) -> Map<HbId, Rec<P, H>> {
    Map::new(
        |o: HbId| recs.contains_key(o) && o != id,
        |o: HbId| recs[o].without_overlap(id),
    )
}

/// Taking out the record of a hitbox that no queued event mentions keeps
/// the state consistent.
pub proof fn lemma_remove_record<P, H>(
    recs: Map<HbId, Rec<P, H>>,
    queue: Map<u128, InternalEvent>,
    time: Time,
    id: HbId,
)
    requires
        consistent(recs, queue, time),
        recs.contains_key(id),
        forall|code: u128| queue.contains_key(code) ==> !(#[trigger] queue[code].involves(id)),
    ensures
        consistent(removed(recs, id), queue, time),
{
    let recs2 = removed(recs, id);
    let keys = keys_of(recs);
    let keys2 = keys_of(recs2);
    assert forall|c: u128, o: HbId|
        queue.contains_key(c) && #[trigger] queue[c].involves(o) implies keys2.contains_key(o)
        && keys2[o].contains(c) by {
        assert(keys.contains_key(o) && keys[o].contains(c));
    }
    assert forall|o: HbId, c: u128|
        keys2.contains_key(o) && #[trigger] keys2[o].contains(c) implies queue.contains_key(c)
        && queue[c].involves(o) by {
        assert(keys.contains_key(o) && keys[o].contains(c));
    }
    assert forall|x: HbId, y: HbId|
        recs2.contains_key(x) && #[trigger] recs2[x].overlaps.contains(y) implies x != y
        && recs2.contains_key(y) && recs2[y].overlaps.contains(x) by {
        assert(recs[x].overlaps.contains(y));
    }
    assert forall|c: u128| #[trigger] queue.contains_key(c) implies match queue[c] {
        InternalEvent::Collide(x, y) => recs2.contains_key(x) && !recs2[x].overlaps.contains(y),
        InternalEvent::Separate(x, y) => recs2.contains_key(x) && recs2[x].overlaps.contains(y),
        _ => true,
    } by {
        match queue[c] {
            InternalEvent::Collide(x, y) => {
                assert(queue[c].involves(x));
                assert(queue[c].involves(y));
            },
            InternalEvent::Separate(x, y) => {
                assert(queue[c].involves(x));
                assert(queue[c].involves(y));
            },
            _ => {},
        }
    }
}

/// Once an event is taken out of a queue with unique subjects, the queue
/// holds no event with its subject.
pub proof fn lemma_pop_subject(queue: Map<u128, InternalEvent>, code: u128)
    requires
        subjects_unique(queue),
        queue.contains_key(code),
    ensures
        !has_subject(queue.remove(code), queue[code]),
        queue[code] matches InternalEvent::Collide(a, b) ==> !has_subject(
            queue.remove(code),
            InternalEvent::Separate(a, b),
        ),
        queue[code] matches InternalEvent::Separate(a, b) ==> !has_subject(
            queue.remove(code),
            InternalEvent::Collide(a, b),
        ),
{
    let q2 = queue.remove(code);
    assert forall|c: u128| q2.contains_key(c) implies !(#[trigger] same_subject(
        q2[c],
        queue[code],
    )) by {
        if same_subject(q2[c], queue[code]) {
            assert(queue.contains_key(c));
            assert(same_subject(queue[c], queue[code]));
        }
    }
    match queue[code] {
        InternalEvent::Collide(a, b) => {
            assert forall|c: u128| q2.contains_key(c) implies !(#[trigger] same_subject(
                q2[c],
                InternalEvent::Separate(a, b),
            )) by {
                if same_subject(q2[c], InternalEvent::Separate(a, b)) {
                    assert(same_subject(q2[c], queue[code]));
                }
            }
        },
        InternalEvent::Separate(a, b) => {
            assert forall|c: u128| q2.contains_key(c) implies !(#[trigger] same_subject(
                q2[c],
                InternalEvent::Collide(a, b),
            )) by {
                if same_subject(q2[c], InternalEvent::Collide(a, b)) {
                    assert(same_subject(q2[c], queue[code]));
                }
            }
        },
        _ => {},
    }
}

} // verus!

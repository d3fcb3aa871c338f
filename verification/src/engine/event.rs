//! The events that the engine reports to its caller.
use vstd::prelude::*;
use crate::engine::HbId;

verus! {

/// A hitbox event type that may be returned from a `Collider` instance.
#[derive(PartialEq, Eq, Structural, Copy, Clone, Debug, Hash)]
pub enum HbEvent {
    /// Occurs when two hitboxes collide.
    Collide,
    /// Occurs when two hitboxes separate.
    ///
    /// A second `Collide` between two hitboxes may not occur before a
    /// `Separate`. A `Separate` event must come after a `Collide` event.
    Separate,
}

/// The smaller of two ids.
pub open spec fn lower(id_1: HbId, id_2: HbId) -> HbId {
    if id_1 <= id_2 { id_1 } else { id_2 }
}

/// The larger of two ids.
pub open spec fn upper(id_1: HbId, id_2: HbId) -> HbId {
    if id_1 <= id_2 { id_2 } else { id_1 }
}

/// Puts the two ids of a reported event in increasing order.
pub fn new_event(event: HbEvent, id_1: HbId, id_2: HbId) -> (r: (HbEvent, HbId, HbId))
    requires
        id_1 != id_2,
    ensures
        r.0 == event,
        r.1 == lower(id_1, id_2),
        r.2 == upper(id_1, id_2),
        r.1 < r.2,
{
    if id_1 > id_2 {
        (event, id_2, id_1)
    } else {
        (event, id_1, id_2)
    }
}

/// The kind of a reported [`Event`].
#[derive(PartialEq, Eq, Structural, Copy, Clone, Debug, Hash)]
pub enum EventKind {
    /// The two hitboxes begin to touch.
    Collide,
    /// The two hitboxes have parted.
    Separate,
}

/// A collide or separate event between two hitboxes, with the two ids held
/// in increasing order.
#[derive(PartialEq, Eq, Structural, Copy, Clone, Debug, Hash)]
pub struct Event {
    id_1: HbId,
    id_2: HbId,
    kind: EventKind,
}

impl Event {
    /// The kind of the event.
    pub closed spec fn spec_kind(self) -> EventKind {
        self.kind
    }

    /// The smaller of the two ids.
    pub closed spec fn spec_id_1(self) -> HbId {
        self.id_1
    }

    /// The larger of the two ids.
    pub closed spec fn spec_id_2(self) -> HbId {
        self.id_2
    }

    /// An event is well formed when its first id is below its second.
    pub open spec fn wf(self) -> bool {
        self.spec_id_1() < self.spec_id_2()
    }

    /// Whether `id` is one of the event's two hitboxes.
    pub open spec fn involves(self, id: HbId) -> bool {
        id == self.spec_id_1() || id == self.spec_id_2()
    }

    /// The kind of the event.
    pub fn kind(&self) -> (r: EventKind)
        ensures
            r == self.spec_kind(),
    {
        self.kind
    }

    /// Both ids, the smaller first.
    pub fn ids(&self) -> (r: (HbId, HbId))
        ensures
            r == (self.spec_id_1(), self.spec_id_2()),
    {
        (self.id_1, self.id_2)
    }

    /// The smaller id.
    pub fn id_1(&self) -> (r: HbId)
        ensures
            r == self.spec_id_1(),
    {
        self.id_1
    }

    /// The larger id.
    pub fn id_2(&self) -> (r: HbId)
        ensures
            r == self.spec_id_2(),
    {
        self.id_2
    }

    /// Given one of the two hitboxes, the other one.
    pub fn other_id(&self, id: HbId) -> (r: HbId)
        requires
            self.involves(id),
        ensures
            r == if self.spec_id_1() == id { self.spec_id_2() } else { self.spec_id_1() },
    {
        if self.id_1 == id {
            self.id_2
        } else {
            self.id_1
        }
    }

    /// Builds the event between two distinct hitboxes, given in any order.
    pub fn new(id_1: HbId, id_2: HbId, kind: EventKind) -> (r: Event)
        requires
            id_1 != id_2,
        ensures
            r.spec_kind() == kind,
            r.spec_id_1() == lower(id_1, id_2),
            r.spec_id_2() == upper(id_1, id_2),
            r.wf(),
    {
        if id_1 > id_2 {
            Event { id_1: id_2, id_2: id_1, kind }
        } else {
            Event { id_1, id_2, kind }
        }
    }

    /// A `Collide` event between two distinct hitboxes.
    pub fn new_collide(id_1: HbId, id_2: HbId) -> (r: Event)
        requires
            id_1 != id_2,
        ensures
            r.spec_kind() == EventKind::Collide,
            r.spec_id_1() == lower(id_1, id_2),
            r.spec_id_2() == upper(id_1, id_2),
            r.wf(),
    {
        Event::new(id_1, id_2, EventKind::Collide)
    }

    /// A `Separate` event between two distinct hitboxes.
    pub fn new_separate(id_1: HbId, id_2: HbId) -> (r: Event)
        requires
            id_1 != id_2,
        ensures
            r.spec_kind() == EventKind::Separate,
            r.spec_id_1() == lower(id_1, id_2),
            r.spec_id_2() == upper(id_1, id_2),
            r.wf(),
    {
        Event::new(id_1, id_2, EventKind::Separate)
    }
}

/// The order in which the two ids are given does not matter.
pub proof fn lemma_event_order_free(id_1: HbId, id_2: HbId)
    ensures
        lower(id_1, id_2) == lower(id_2, id_1),
        upper(id_1, id_2) == upper(id_2, id_1),
        id_1 != id_2 ==> lower(id_1, id_2) < upper(id_1, id_2),
{
}

} // verus!

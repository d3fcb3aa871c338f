//! The per-hitbox records of the engine.
use fnv::FnvHashMap;
use vstd::prelude::*;
use crate::engine::HbId;
use crate::engine::HbProfile;
use crate::fnv_table::map_insert;
use crate::fnv_table::map_remove;
use crate::index_rect::IndexRect;
use crate::util::TightSet;

verus! {

/// What the engine stores for one hitbox.
///
/// `hitbox` is the caller's description of the moving shape. The engine
/// carries it and hands it back, and never looks inside.
pub struct HitboxInfo<P: HbProfile, H> {
    /// The profile that the hitbox was added with.
    pub profile: P,
    /// The moving shape, as the caller describes it.
    pub hitbox: H,
    /// The grid cells that the hitbox occupies, for a hitbox with a group.
    pub area: Option<IndexRect>,
    /// The codes of the queued events that mention this hitbox.
    pub event_keys: TightSet<u128>,
    /// The peers that have collided with this hitbox and not yet
    /// separated from it.
    pub overlaps: TightSet<HbId>,
}

/// The mathematical content of a [`HitboxInfo`].
pub struct Rec<P, H> {
    /// The profile that the hitbox was added with.
    pub profile: P,
    /// The moving shape, as the caller describes it.
    pub hitbox: H,
    /// The grid cells that the hitbox occupies.
    pub area: Option<IndexRect>,
    /// The codes of the queued events that mention this hitbox.
    pub keys: Set<u128>,
    /// The peers that currently overlap this hitbox.
    pub overlaps: Set<HbId>,
}

impl<P: HbProfile, H> View for HitboxInfo<P, H> {
    type V = Rec<P, H>;

    open spec fn view(&self) -> Rec<P, H> {
        Rec {
            profile: self.profile,
            hitbox: self.hitbox,
            area: self.area,
            keys: self.event_keys@,
            overlaps: self.overlaps@,
        }
    }
}

/// The table of records, keyed by hitbox id.
pub type Records<P, H> = FnvHashMap<HbId, HitboxInfo<P, H>>;

/// The mathematical content of a table of records.
pub open spec fn recs_of<P: HbProfile, H>(table: Records<P, H>) -> Map<HbId, Rec<P, H>> {
    Map::new(|id: HbId| table@.contains_key(id), |id: HbId| table@[id]@)
}

impl<P, H> Rec<P, H> {
    /// The record with `code` added to its keys.
    pub open spec fn with_key(self, code: u128) -> Rec<P, H> {
        Rec { keys: self.keys.insert(code), ..self }
    }

    /// The record with `code` taken out of its keys.
    pub open spec fn without_key(self, code: u128) -> Rec<P, H> {
        Rec { keys: self.keys.remove(code), ..self }
    }

    /// The record with `peer` added to its overlaps.
    pub open spec fn with_overlap(self, peer: HbId) -> Rec<P, H> {
        Rec { overlaps: self.overlaps.insert(peer), ..self }
    }

    /// The record with `peer` taken out of its overlaps.
    pub open spec fn without_overlap(self, peer: HbId) -> Rec<P, H> {
        Rec { overlaps: self.overlaps.remove(peer), ..self }
    }
}

impl<P: HbProfile, H> HitboxInfo<P, H> {
    /// A record with no events and no overlaps.
    pub fn new(hitbox: H, profile: P, area: Option<IndexRect>) -> (r: HitboxInfo<P, H>)
        ensures
            r@ == (Rec {
                profile,
                hitbox,
                area,
                keys: Set::<u128>::empty(),
                overlaps: Set::<HbId>::empty(),
            }),
    {
        HitboxInfo { profile, hitbox, area, event_keys: TightSet::new(), overlaps: TightSet::new() }
    }
}

/// Takes the record of `id` out of the table.
pub fn take<P: HbProfile, H>(table: &mut Records<P, H>, id: HbId) -> (info: HitboxInfo<P, H>)
    requires
        recs_of(*old(table)).contains_key(id),
    ensures
        info@ == recs_of(*old(table))[id],
        recs_of(*final(table)) == recs_of(*old(table)).remove(id),
{
    let before = map_remove(table, &id);
    assert(recs_of(*old(table)).contains_key(id));
    assert(old(table)@.contains_key(id));
    let info = before.unwrap();
    assert(recs_of(*table) =~= recs_of(*old(table)).remove(id));
    info
}

/// Puts a record into the table under an id that is free.
pub fn put<P: HbProfile, H>(table: &mut Records<P, H>, id: HbId, info: HitboxInfo<P, H>)
    requires
        !recs_of(*old(table)).contains_key(id),
    ensures
        recs_of(*final(table)) == recs_of(*old(table)).insert(id, info@),
{
    let before = map_insert(table, id, info);
    assert(recs_of(*table) =~= recs_of(*old(table)).insert(id, info@));
}

/// Takes `code` out of the event keys of the record of `id`. Returns whether
/// it was there.
pub fn remove_key<P: HbProfile, H>(table: &mut Records<P, H>, id: HbId, code: u128) -> (found: bool)
    requires
        recs_of(*old(table)).contains_key(id),
    ensures
        found == recs_of(*old(table))[id].keys.contains(code),
        recs_of(*final(table)) == recs_of(*old(table)).insert(
            id,
            recs_of(*old(table))[id].without_key(code),
        ),
{
    let mut info = take(table, id);
    let found = info.event_keys.remove(&code);
    put(table, id, info);
    assert(recs_of(*table) =~= recs_of(*old(table)).insert(
        id,
        recs_of(*old(table))[id].without_key(code),
    ));
    found
}

/// Takes `peer` out of the overlaps of the record of `id`. Returns whether
/// it was there.
pub fn remove_overlap<P: HbProfile, H>(table: &mut Records<P, H>, id: HbId, peer: HbId) -> (found:
    bool)
    requires
        recs_of(*old(table)).contains_key(id),
    ensures
        found == recs_of(*old(table))[id].overlaps.contains(peer),
        recs_of(*final(table)) == recs_of(*old(table)).insert(
            id,
            recs_of(*old(table))[id].without_overlap(peer),
        ),
{
    let mut info = take(table, id);
    let found = info.overlaps.remove(&peer);
    put(table, id, info);
    assert(recs_of(*table) =~= recs_of(*old(table)).insert(
        id,
        recs_of(*old(table))[id].without_overlap(peer),
    ));
    found
}

} // verus!

//! The engine: hitbox identities, the event queue, the grid, the records
//! and the orchestrator that keeps them consistent.
pub mod collider;
pub mod event;
pub mod events;
pub mod grid;
pub mod key;
pub mod model;
pub mod queue;
pub mod record;
pub mod tracking;

use vstd::prelude::*;

verus! {

/// Type used as a handle for referencing hitboxes in a `Collider` instance.
pub type HbId = u64;

/// A group id that may be used as a first measure to efficiently filter out
/// hitboxes that don't interact.
///
/// The total number of groups used should in general be very small. Often 1
/// is enough, and 10 is excessive.
pub type HbGroup = u32;

/// A trait that holds metadata for describing a hitbox.
///
/// A user of `Collider` will need to implement an `HbProfile` that best
/// suits their needs in a game. The most basic profile will just contain an
/// integer id for the hitbox, but a user may define additional metadata for
/// identifying the hitbox and describing interactivity. A profile must
/// implement the `Copy` trait and should not take up much memory.
///
/// Each method is a function of the profile alone. An implementation
/// states each value twice: as the specification function that the
/// engine's contracts speak of, and as the method that computes it.
pub trait HbProfile: Copy {
    /// The value of [`HbProfile::id`].
    spec fn spec_id(&self) -> HbId;

    /// The value of [`HbProfile::group`].
    spec fn spec_group(&self) -> Option<HbGroup>;

    /// The value of [`HbProfile::interact_groups`].
    spec fn spec_interact_groups(&self) -> &'static [HbGroup];

    /// The value of [`HbProfile::can_interact`].
    spec fn spec_can_interact(&self, other: &Self) -> bool;

    /// A unique identifier for the hitbox.
    ///
    /// Trying to have multiple hitboxes with the same `id` in a `Collider`
    /// instance simultaneously is a contract violation.
    fn id(&self) -> (r: HbId)
        ensures
            r == self.spec_id(),
    ;

    /// Returns the group id associated with the hitbox.
    ///
    /// If `None` is returned, then no collisions will be reported for this
    /// hitbox at all.
    fn group(&self) -> (r: Option<HbGroup>)
        ensures
            r == self.spec_group(),
    ;

    /// Returns a list of groups that this hitbox can interact with.
    ///
    /// Using large lists of groups may be inefficient.
    fn interact_groups(&self) -> (r: &'static [HbGroup])
        ensures
            r@ == self.spec_interact_groups()@,
    ;

    /// Returns true if the pair of hitboxes should be checked for
    /// collisions.
    ///
    /// This method should be commutative. This method should be consistent
    /// with `group` and `interact_groups`, although possibly more
    /// restrictive.
    fn can_interact(&self, other: &Self) -> (r: bool)
        ensures
            r == self.spec_can_interact(other),
    ;
}

} // verus!

//! Continuous two-dimensional collision detection: the event engine.
//!
//! The engine keeps a simulation clock, a priority queue of pending
//! collide and separate events, a sparse grid for broad-phase pruning and
//! one record per tracked hitbox. It never steps the world. The caller
//! advances the clock to the time of the next event, consumes the event,
//! changes hitboxes, and repeats.
//!
//! Everything here works on integers. Instants are carried as ordered
//! keys (see [`time`]) and the numeric narrow phase, which solves for the
//! moment at which two moving shapes touch or part, is done by the caller:
//! each call that schedules events takes the instants computed for the
//! peers that the grid names.
//!
//! To add or update a hitbox the caller asks [`Collider::candidates`] and
//! [`Collider::overlap_ids`] for the peers that matter, computes a
//! [`PeerTimes`] for each, and hands them over in a [`Snapshot`]. To
//! process the queue the caller looks at [`Collider::peek_event`], computes
//! the [`Reply`] that the event needs, and calls [`Collider::next`] until
//! it reports [`Step::Idle`] or an event.
//!
//! [`Collider::wf`] is the invariant of the engine. The proof functions of
//! [`Collider`] state what follows from it: the clock never runs ahead of
//! the queue, queued events and the key sets of the records reference
//! each other, overlaps are symmetric, and two hitboxes have at most one
//! event between them, of the kind that fits their overlap.
pub mod engine;
pub mod fnv_table;
pub mod geom;
pub mod index_rect;
pub mod time;
pub mod util;

pub use crate::engine::collider::Collider;
pub use crate::engine::event::new_event;
pub use crate::engine::event::Event;
pub use crate::engine::event::EventKind;
pub use crate::engine::event::HbEvent;
pub use crate::engine::events::InternalEvent;
pub use crate::engine::tracking::PeerTable;
pub use crate::engine::tracking::PeerTimes;
pub use crate::engine::tracking::Reply;
pub use crate::engine::tracking::Snapshot;
pub use crate::engine::tracking::SolitaireCheck;
pub use crate::engine::tracking::Step;
pub use crate::engine::HbGroup;
pub use crate::engine::HbId;
pub use crate::engine::HbProfile;

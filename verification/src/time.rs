//! Instants on the simulation clock.
//!
//! An instant is the bit pattern of a non-negative IEEE-754 binary64
//! number. On such patterns the unsigned integer order is the numeric
//! order, positive infinity is the largest of them, and zero is `0`. The
//! engine therefore compares instants as integers and never does
//! arithmetic on them: sums of an instant and a delay arrive ready-made.
use vstd::prelude::*;

verus! {

/// A point on the simulation clock.
pub type Time = u64;

/// The pattern of positive infinity: "never".
pub const INFINITY: Time = 0x7FF0_0000_0000_0000;

/// The pattern of ten to the fiftieth: instants at or beyond it are treated
/// as infinite, and no event is ever scheduled there.
pub const HIGH_TIME: Time = 0x4A51_1B0E_C57E_649A;

} // verus!

//! Keys of the event queue.
//!
//! A key is an instant and an allocation index. The queue orders keys by
//! instant and, among equal instants, by index, so that events scheduled
//! for the same instant come out in the order in which they were
//! scheduled. The queue stores a key as its *code*, one number whose
//! integer order is exactly that order.
use std::cmp::Ordering;
use vstd::prelude::*;
use crate::time::Time;

verus! {

/// The lowest index of an event between two hitboxes. An index below it
/// belongs to an event of a single hitbox: the high bit tells the two kinds
/// apart.
pub const PAIR_BASE: u64 = 0x8000_0000_0000_0000;

/// The factor between a key's instant and its index in the key's code.
pub const CODE_SHIFT: u128 = 0x1_0000_0000_0000_0000;

/// The key of a queued event.
#[derive(Copy, Clone, Debug)]
pub struct EventKey {
    /// When the event is due.
    pub time: Time,
    /// The allocation index, with the pair bit.
    pub index: u64,
}

/// The code of the key with the given instant and index.
pub open spec fn code_of(time: Time, index: u64) -> u128 {
    (time * CODE_SHIFT + index) as u128
}

/// The instant of the key with the given code.
pub open spec fn time_of(code: u128) -> Time {
    (code / CODE_SHIFT) as u64
}

/// The index of the key with the given code.
pub open spec fn index_of(code: u128) -> u64 {
    (code % CODE_SHIFT) as u64
}

/// Whether the key with the given code belongs to an event between two
/// hitboxes.
pub open spec fn is_pair_code(code: u128) -> bool {
    index_of(code) >= PAIR_BASE
}

/// The allocation number of the key with the given code: its index
/// without the pair bit.
pub open spec fn serial_of(code: u128) -> int {
    if index_of(code) >= PAIR_BASE {
        index_of(code) - PAIR_BASE
    } else {
        index_of(code) as int
    }
}

/// A code determines its instant and index, and the other way round.
pub proof fn lemma_code_round_trip(time: Time, index: u64)
    ensures
        time_of(code_of(time, index)) == time,
        index_of(code_of(time, index)) == index,
        code_of(time, index) == time * CODE_SHIFT + index,
{
    let c = time * CODE_SHIFT + index;
    assert(0 <= c < 0x1_0000_0000_0000_0000_0000_0000_0000_0000) by (nonlinear_arith)
        requires
            c == time * CODE_SHIFT + index,
            0 <= time < 0x1_0000_0000_0000_0000,
            0 <= index < 0x1_0000_0000_0000_0000,
            CODE_SHIFT == 0x1_0000_0000_0000_0000,
    ;
    assert(c / (CODE_SHIFT as int) == time && c % (CODE_SHIFT as int) == index)
        by (nonlinear_arith)
        requires
            c == time * CODE_SHIFT + index,
            0 <= index < CODE_SHIFT,
            CODE_SHIFT > 0,
    ;
}

/// Every code is the code of its instant and index.
pub proof fn lemma_code_of_parts(code: u128)
    ensures
        code_of(time_of(code), index_of(code)) == code,
{
    let s = CODE_SHIFT as int;
    let c = code as int;
    assert(c == s * (c / s) + c % s && 0 <= c % s < s && 0 <= c / s) by (nonlinear_arith)
        requires
            s > 0,
            c >= 0,
    ;
    assert(c / s < 0x1_0000_0000_0000_0000) by (nonlinear_arith)
        requires
            c < 0x1_0000_0000_0000_0000_0000_0000_0000_0000,
            s == 0x1_0000_0000_0000_0000,
            c >= 0,
    ;
    assert((c / s) * s == s * (c / s)) by (nonlinear_arith);
}

/// The order of codes: by instant first, by index among equal instants.
pub proof fn lemma_code_order(a: u128, b: u128)
    ensures
        a < b <==> (time_of(a) < time_of(b) || (time_of(a) == time_of(b) && index_of(a) < index_of(
            b,
        ))),
        a == b <==> (time_of(a) == time_of(b) && index_of(a) == index_of(b)),
{
    lemma_code_of_parts(a);
    lemma_code_of_parts(b);
    let ta = time_of(a) as int;
    let tb = time_of(b) as int;
    let ia = index_of(a) as int;
    let ib = index_of(b) as int;
    let s = CODE_SHIFT as int;
    lemma_code_round_trip(time_of(a), index_of(a));
    lemma_code_round_trip(time_of(b), index_of(b));
    assert(a == ta * s + ia);
    assert(b == tb * s + ib);
    if ta < tb {
        assert(ta * s + ia < tb * s + ib) by (nonlinear_arith)
            requires
                ta < tb,
                0 <= ia < s,
                0 <= ib,
        ;
    } else if tb < ta {
        assert(tb * s + ib < ta * s + ia) by (nonlinear_arith)
            requires
                tb < ta,
                0 <= ib < s,
                0 <= ia,
        ;
    }
}

impl EventKey {
    /// The code under which the queue stores the key.
    pub open spec fn spec_code(self) -> u128 {
        code_of(self.time, self.index)
    }

    /// Whether `self` comes out of the queue before `other`.
    pub open spec fn precedes(self, other: EventKey) -> bool {
        self.time < other.time || (self.time == other.time && self.index < other.index)
    }

    /// When the event is due.
    pub fn time(&self) -> (r: Time)
        ensures
            r == self.time,
    {
        self.time
    }

    /// The code under which the queue stores the key.
    pub fn code(&self) -> (r: u128)
        ensures
            r == self.spec_code(),
            time_of(r) == self.time,
            index_of(r) == self.index,
    {
        proof {
            lemma_code_round_trip(self.time, self.index);
        }
        (self.time as u128) * CODE_SHIFT + (self.index as u128)
    }

    /// The key that a code stands for.
    pub fn from_code(code: u128) -> (r: EventKey)
        ensures
            r.time == time_of(code),
            r.index == index_of(code),
            r.spec_code() == code,
    {
        proof {
            lemma_code_of_parts(code);
            let s = CODE_SHIFT as int;
            let c = code as int;
            assert(c / s < 0x1_0000_0000_0000_0000) by (nonlinear_arith)
                requires
                    c < 0x1_0000_0000_0000_0000_0000_0000_0000_0000,
                    s == 0x1_0000_0000_0000_0000,
                    c >= 0,
            ;
        }
        EventKey { time: (code / CODE_SHIFT) as u64, index: (code % CODE_SHIFT) as u64 }
    }

    /// Whether the key belongs to an event between two hitboxes.
    pub fn is_pair(&self) -> (r: bool)
        ensures
            r == (self.index >= PAIR_BASE),
    {
        self.index >= PAIR_BASE
    }

    /// Whether `self` comes out of the queue before `other`.
    pub fn lt(&self, other: &EventKey) -> (r: bool)
        ensures
            r == self.precedes(*other),
            r == (self.spec_code() < other.spec_code()),
    {
        proof {
            lemma_code_round_trip(self.time, self.index);
            lemma_code_round_trip(other.time, other.index);
            lemma_code_order(self.spec_code(), other.spec_code());
        }
        self.time < other.time || (self.time == other.time && self.index < other.index)
    }
}

impl PartialOrd for EventKey {
    /// Keys are ordered by time and, among equal times, by index.
    fn partial_cmp(&self, other: &EventKey) -> (r: Option<Ordering>) {
        if self.time < other.time {
            Some(Ordering::Less)
        } else if self.time > other.time {
            Some(Ordering::Greater)
        } else if self.index < other.index {
            Some(Ordering::Less)
        } else if self.index > other.index {
            Some(Ordering::Greater)
        } else {
            Some(Ordering::Equal)
        }
    }
}

impl vstd::std_specs::cmp::PartialOrdSpecImpl for EventKey {
    open spec fn obeys_partial_cmp_spec() -> bool {
        true
    }

    open spec fn partial_cmp_spec(&self, other: &EventKey) -> Option<Ordering> {
        if self.time < other.time {
            Some(Ordering::Less)
        } else if self.time > other.time {
            Some(Ordering::Greater)
        } else if self.index < other.index {
            Some(Ordering::Less)
        } else if self.index > other.index {
            Some(Ordering::Greater)
        } else {
            Some(Ordering::Equal)
        }
    }
}

impl PartialEq for EventKey {
    /// Keys are the same key when their indices agree: an index is
    /// allocated once.
    fn eq(&self, rhs: &EventKey) -> (r: bool) {
        self.index == rhs.index
    }
}

impl Eq for EventKey {

}

impl vstd::std_specs::cmp::PartialEqSpecImpl for EventKey {
    open spec fn obeys_eq_spec() -> bool {
        true
    }

    open spec fn eq_spec(&self, rhs: &EventKey) -> bool {
        self.index == rhs.index
    }
}

} // verus!

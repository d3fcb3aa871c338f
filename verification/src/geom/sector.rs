//! Where a point lies relative to a bounding box, and the kinds of shape.
use std::cmp::Ordering;
use vstd::prelude::*;
use crate::geom::card::Card;
use crate::geom::card::CardMask;

verus! {

/// Enumeration of kinds of shapes.
#[derive(PartialEq, Eq, Structural, Copy, Clone, Debug, Hash)]
pub enum ShapeKind {
    /// Circle. Requires width and height to match.
    Circle,
    /// Axis-aligned rectangle.
    Rect,
}

/// Where a coordinate lies relative to an interval.
#[derive(PartialEq, Eq, Structural, Copy, Clone, Debug, Hash)]
pub enum Side {
    /// Before the interval's lower end.
    Below,
    /// Inside the interval, ends included.
    Within,
    /// Beyond the interval's upper end.
    Above,
}

impl Side {
    /// The side that an ordering of the coordinate against the interval
    /// stands for.
    pub open spec fn of(o: Ordering) -> Side {
        match o {
            Ordering::Less => Side::Below,
            Ordering::Equal => Side::Within,
            Ordering::Greater => Side::Above,
        }
    }

    /// Turns the ordering of a coordinate against an interval into a side.
    pub fn from_ordering(o: Ordering) -> (r: Side)
        ensures
            r == Side::of(o),
    {
        match o {
            Ordering::Less => Side::Below,
            Ordering::Equal => Side::Within,
            Ordering::Greater => Side::Above,
        }
    }
}

/// The position of a point relative to a bounding box: inside it, beside one
/// of its four edges, or in one of the four corner regions.
#[derive(PartialEq, Eq, Structural, Copy, Clone, Debug)]
pub struct Sector {
    /// The point's side along the x axis.
    pub x: Side,
    /// The point's side along the y axis.
    pub y: Side,
}

impl Sector {
    /// Whether the point is beyond the box along both axes.
    pub open spec fn spec_is_corner(self) -> bool {
        self.x != Side::Within && self.y != Side::Within
    }

    /// The two directions that point from the box to a corner region, the
    /// horizontal one first.
    pub open spec fn spec_corner_cards(self) -> Option<(Card, Card)> {
        if self.spec_is_corner() {
            Some(
                (
                    if self.x == Side::Above { Card::PlusX } else { Card::MinusX },
                    if self.y == Side::Above { Card::PlusY } else { Card::MinusY },
                ),
            )
        } else {
            None
        }
    }

    /// Builds the sector from the point's side along each axis.
    pub fn new(x: Side, y: Side) -> (r: Sector)
        ensures
            r.x == x,
            r.y == y,
    {
        Sector { x, y }
    }

    /// Whether the sector is one of the four corner regions.
    pub fn is_corner(self) -> (r: bool)
        ensures
            r == self.spec_is_corner(),
    {
        self.x != Side::Within && self.y != Side::Within
    }

    /// For a corner region its two directions, `None` for any other sector.
    pub fn corner_cards(self) -> (r: Option<(Card, Card)>)
        ensures
            r == self.spec_corner_cards(),
    {
        if self.is_corner() {
            Some(
                (
                    if self.x == Side::Above { Card::PlusX } else { Card::MinusX },
                    if self.y == Side::Above { Card::PlusY } else { Card::MinusY },
                ),
            )
        } else {
            None
        }
    }
}

/// Whether `sector` is a corner region both of whose directions `mask`
/// allows.
pub open spec fn spec_mask_has_corner_sector(sector: Sector, mask: CardMask) -> bool {
    match sector.spec_corner_cards() {
        Some((h_card, v_card)) => mask.at(h_card) && mask.at(v_card),
        None => false,
    }
}

/// Returns true when `sector` is a corner and `mask` permits both of the
/// corner's directions. A normal between a rectangle and a circle is taken
/// from the corner only in that case.
pub fn mask_has_corner_sector(sector: Sector, mask: CardMask) -> (r: bool)
    ensures
        r == spec_mask_has_corner_sector(sector, mask),
{
    if let Some((h_card, v_card)) = sector.corner_cards() {
        mask.get(h_card) && mask.get(v_card)
    } else {
        false
    }
}

} // verus!

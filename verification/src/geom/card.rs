//! Cardinal directions and masks over them.
use vstd::prelude::*;

verus! {

/// Represents the four cardinal directions in 2D space.
#[derive(PartialEq, Eq, Structural, Copy, Clone, Debug, Hash)]
pub enum Card {
    /// Negative X direction.
    MinusX,
    /// Negative Y direction.
    MinusY,
    /// Positive X direction.
    PlusX,
    /// Positive Y direction.
    PlusY,
}

impl Card {
    /// The opposite direction.
    pub open spec fn spec_flip(self) -> Card {
        match self {
            Card::MinusX => Card::PlusX,
            Card::PlusX => Card::MinusX,
            Card::MinusY => Card::PlusY,
            Card::PlusY => Card::MinusY,
        }
    }

    /// The four directions in their fixed enumeration order.
    pub open spec fn spec_values() -> Seq<Card> {
        seq![Card::MinusX, Card::MinusY, Card::PlusX, Card::PlusY]
    }

    /// Returns the negative of the current direction.
    pub fn flip(self) -> (r: Card)
        ensures
            r == self.spec_flip(),
    {
        match self {
            Card::MinusX => Card::PlusX,
            Card::PlusX => Card::MinusX,
            Card::MinusY => Card::PlusY,
            Card::PlusY => Card::MinusY,
        }
    }

    /// Returns all cardinal directions.
    pub fn values() -> (r: [Card; 4])
        ensures
            r@ == Card::spec_values(),
    {
        let r = [Card::MinusX, Card::MinusY, Card::PlusX, Card::PlusY];
        assert(r@ =~= Card::spec_values());
        r
    }
}

/// Flipping twice gives the direction back, and a flip never fixes a
/// direction.
pub proof fn lemma_flip_involution(card: Card)
    ensures
        card.spec_flip().spec_flip() == card,
        card.spec_flip() != card,
{
}

/// A map from `Card` to `bool`, typically used to specify allowed normal
/// vector directions.
#[derive(PartialEq, Eq, Structural, Copy, Clone, Debug, Hash)]
pub struct CardMask {
    minus_x: bool,
    minus_y: bool,
    plus_x: bool,
    plus_y: bool,
}

impl CardMask {
    /// The flag that the mask holds for `card`.
    pub closed spec fn at(self, card: Card) -> bool {
        match card {
            Card::MinusX => self.minus_x,
            Card::MinusY => self.minus_y,
            Card::PlusX => self.plus_x,
            Card::PlusY => self.plus_y,
        }
    }

    /// Two masks with the same four flags are the same mask.
    pub proof fn lemma_ext(self, other: CardMask)
        requires
            forall|card: Card| self.at(card) == other.at(card),
        ensures
            self == other,
    {
        assert(self.at(Card::MinusX) == other.at(Card::MinusX));
        assert(self.at(Card::MinusY) == other.at(Card::MinusY));
        assert(self.at(Card::PlusX) == other.at(Card::PlusX));
        assert(self.at(Card::PlusY) == other.at(Card::PlusY));
    }

    /// Creates a `CardMask` with all values set to `false`.
    pub fn empty() -> (r: CardMask)
        ensures
            forall|card: Card| !r.at(card),
    {
        CardMask { minus_x: false, minus_y: false, plus_x: false, plus_y: false }
    }

    /// Creates a `CardMask` with all values set to `true`.
    pub fn full() -> (r: CardMask)
        ensures
            forall|card: Card| r.at(card),
    {
        CardMask { minus_x: true, minus_y: true, plus_x: true, plus_y: true }
    }

    /// The mask that allows exactly the opposites of what `self` allows.
    pub fn flip(self) -> (r: CardMask)
        ensures
            forall|card: Card| r.at(card) == self.at(card.spec_flip()),
    {
        CardMask {
            minus_x: self.plus_x,
            minus_y: self.plus_y,
            plus_x: self.minus_x,
            plus_y: self.minus_y,
        }
    }

    /// Reads the flag of `card`.
    pub fn get(&self, card: Card) -> (r: bool)
        ensures
            r == self.at(card),
    {
        match card {
            Card::MinusX => self.minus_x,
            Card::MinusY => self.minus_y,
            Card::PlusX => self.plus_x,
            Card::PlusY => self.plus_y,
        }
    }

    /// Sets the flag of `card` and leaves the other three alone.
    pub fn set(&mut self, card: Card, value: bool)
        ensures
            forall|c: Card| final(self).at(c) == if c == card { value } else { old(self).at(c) },
    {
        match card {
            Card::MinusX => { self.minus_x = value; },
            Card::MinusY => { self.minus_y = value; },
            Card::PlusX => { self.plus_x = value; },
            Card::PlusY => { self.plus_y = value; },
        }
    }
}

impl From<Card> for CardMask {
    /// The mask that allows `card` and nothing else.
    fn from(card: Card) -> (r: CardMask) {
        let mut result = CardMask::empty();
        result.set(card, true);
        proof {
            result.lemma_ext(CardMask::single(card));
        }
        result
    }
}

impl vstd::std_specs::convert::FromSpecImpl<Card> for CardMask {
    open spec fn obeys_from_spec() -> bool {
        true
    }

    open spec fn from_spec(card: Card) -> CardMask {
        CardMask::single(card)
    }
}

impl CardMask {
    /// The mask that holds `true` for `card` alone.
    pub closed spec fn single(card: Card) -> CardMask {
        CardMask {
            minus_x: card == Card::MinusX,
            minus_y: card == Card::MinusY,
            plus_x: card == Card::PlusX,
            plus_y: card == Card::PlusY,
        }
    }
}

/// Flipping a mask twice gives the mask back.
pub proof fn lemma_mask_flip_involution(mask: CardMask, once: CardMask, twice: CardMask)
    requires
        forall|card: Card| once.at(card) == mask.at(card.spec_flip()),
        forall|card: Card| twice.at(card) == once.at(card.spec_flip()),
    ensures
        twice == mask,
{
    assert forall|card: Card| twice.at(card) == mask.at(card) by {
        lemma_flip_involution(card);
        assert(twice.at(card) == once.at(card.spec_flip()));
        assert(once.at(card.spec_flip()) == mask.at(card.spec_flip().spec_flip()));
    }
    twice.lemma_ext(mask);
}

} // verus!

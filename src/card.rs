//! Cards, suits and board addresses, with the tableau and foundation rules.

use vstd::prelude::*;

verus! {

/// The four suits, in foundation order.
#[derive(Clone, Copy, Debug, PartialEq, Eq, Structural, Hash)]
pub enum Suit {
    Clubs,
    Diamonds,
    Hearts,
    Spades,
}

/// The colour of a suit: tableau runs alternate colours.
#[derive(Clone, Copy, Debug, PartialEq, Eq, Structural)]
pub enum Colour {
    Red,
    Black,
}

impl Suit {
    /// Position of this suit among the foundations.
    pub open spec fn spec_index(self) -> int {
        match self {
            Suit::Clubs => 0,
            Suit::Diamonds => 1,
            Suit::Hearts => 2,
            Suit::Spades => 3,
        }
    }

    pub open spec fn spec_colour(self) -> Colour {
        match self {
            Suit::Clubs => Colour::Black,
            Suit::Diamonds => Colour::Red,
            Suit::Hearts => Colour::Red,
            Suit::Spades => Colour::Black,
        }
    }

    /// The suit whose foundation sits at position `i`.
    pub open spec fn at_index(i: int) -> Suit {
        if i == 0 {
            Suit::Clubs
        } else if i == 1 {
            Suit::Diamonds
        } else if i == 2 {
            Suit::Hearts
        } else {
            Suit::Spades
        }
    }

    pub fn colour(&self) -> (r: Colour)
        ensures
            r == self.spec_colour(),
    {
        match self {
            Suit::Clubs => Colour::Black,
            Suit::Diamonds => Colour::Red,
            Suit::Hearts => Colour::Red,
            Suit::Spades => Colour::Black,
        }
    }

    pub fn index(&self) -> (r: usize)
        ensures
            r as int == self.spec_index(),
            r < 4,
    {
        match self {
            Suit::Clubs => 0,
            Suit::Diamonds => 1,
            Suit::Hearts => 2,
            Suit::Spades => 3,
        }
    }

    pub fn from_index(i: usize) -> (r: Option<Suit>)
        ensures
            i < 4 ==> r == Some(Suit::at_index(i as int)),
            i >= 4 ==> r is None,
    {
        match i {
            0 => Some(Suit::Clubs),
            1 => Some(Suit::Diamonds),
            2 => Some(Suit::Hearts),
            3 => Some(Suit::Spades),
            _ => None,
        }
    }
}

impl From<Suit> for usize {
    fn from(suit: Suit) -> usize {
        suit.index()
    }
}

impl vstd::std_specs::convert::FromSpecImpl<Suit> for usize {
    open spec fn obeys_from_spec() -> bool {
        true
    }

    open spec fn from_spec(suit: Suit) -> usize {
        suit.spec_index() as usize
    }
}

/// A playing card. Rank 1 is the ace and 13 the king; a rank of 0 only marks
/// an empty foundation.
#[derive(Clone, Copy, Debug, PartialEq, Eq, Structural, Hash)]
pub struct Card {
    pub rank: u8,
    pub suit: Suit,
}

impl Card {
    /// A card that can be dealt: rank between ace and king.
    pub open spec fn valid(self) -> bool {
        1 <= self.rank <= 13
    }

    /// Tableau rule: `self` may lie on `base` when the colours differ and
    /// `base` is one rank higher.
    pub open spec fn spec_stacks_on(self, base: Card) -> bool {
        self.suit.spec_colour() != base.suit.spec_colour() && base.rank == self.rank + 1
    }

    /// Foundation rule: `self` may cover `base` when the suits agree and
    /// `self` is one rank higher.
    pub open spec fn spec_fits_on_foundation(self, base: Card) -> bool {
        self.suit == base.suit && self.rank == base.rank + 1
    }

    pub fn stacks_on(&self, base: &Card) -> (r: bool)
        ensures
            r == self.spec_stacks_on(*base),
    {
        self.suit.colour() != base.suit.colour() && base.rank as u16 == self.rank as u16 + 1
    }

    pub fn fits_on_foundation(&self, base: &Card) -> (r: bool)
        ensures
            r == self.spec_fits_on_foundation(*base),
    {
        self.suit == base.suit && self.rank as u16 == base.rank as u16 + 1
    }

    pub fn new(rank: u8, suit: Suit) -> (r: Card)
        ensures
            r == (Card { rank, suit }),
    {
        Card { rank, suit }
    }
}

/// A place on the board: a tableau column, the foundation of a suit, or a
/// free cell.
#[derive(Clone, Copy, Debug, PartialEq, Eq, Structural)]
pub enum CardAddress {
    Column(usize),
    Foundation(Suit),
    FreeCell(usize),
}

} // verus!

//! Why a move was rejected.

use vstd::prelude::*;

use crate::card::CardAddress;

verus! {

/// Why cards could not be picked up.
#[derive(Clone, Copy, Debug, PartialEq, Eq, Structural)]
pub enum PickUpReason {
    AlreadyHolding,
    EmptyAddress,
    MoveOffFoundation,
    EmptyStack,
    UnsoundStack,
    StackTooLarge,
    StackLargerThanColumn,
    OnlyFromColumn,
}

/// Why the held cards could not be placed.
#[derive(Clone, Copy, Debug, PartialEq, Eq, Structural)]
pub enum PlaceReason {
    DoesNotFit,
    NoCardsHeld,
}

/// A rejected move. The board it was tried on is left as it was.
#[allow(inconsistent_fields)]
#[derive(Clone, Copy, Debug, PartialEq, Eq, Structural)]
pub enum MoveError {
    CannotPlace { reason: PlaceReason, to: CardAddress },
    CannotPickUp { reason: PickUpReason, from: CardAddress },
    IllegalAddress { address: CardAddress },
}

impl PickUpReason {
    pub fn message(&self) -> (r: &'static str)
        ensures
            r@ == crate::text::pick_up_reason_text(*self),
    {
        match self {
            PickUpReason::AlreadyHolding => "already holding cards",
            PickUpReason::EmptyAddress => "empty address",
            PickUpReason::MoveOffFoundation => "cannot move off foundation",
            PickUpReason::EmptyStack => "cannot pick up zero-card stack",
            PickUpReason::UnsoundStack => "cards in stack don't stack",
            PickUpReason::StackTooLarge => "cannot pick up that many cards at once",
            PickUpReason::StackLargerThanColumn => "there are not that many cards in that column",
            PickUpReason::OnlyFromColumn => "cannot pick up a stack from anywhere except a column",
        }
    }
}

impl PlaceReason {
    pub fn message(&self) -> (r: &'static str)
        ensures
            r@ == crate::text::place_reason_text(*self),
    {
        match self {
            PlaceReason::DoesNotFit => "those cards do not fit there",
            PlaceReason::NoCardsHeld => "cannot place cards when not holding cards",
        }
    }
}

} // verus!

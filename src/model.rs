//! The mathematical model of a board and the meaning of every move on it.

use vstd::multiset::Multiset;
use vstd::prelude::*;

use crate::card::{Card, CardAddress, Colour, Suit};
use crate::error::{MoveError, PickUpReason, PlaceReason};

verus! {

/// The mathematical view of a board.
pub struct GameModel {
    /// The tableau; the last card of a column is its top.
    pub columns: Seq<Seq<Card>>,
    /// The top card of each foundation, indexed by suit; rank 0 when empty.
    pub foundations: Seq<Card>,
    pub free_cells: Seq<Option<Card>>,
    /// A single card being held.
    pub floating: Option<Card>,
    /// A run of cards being held, in column order.
    pub floating_stack: Option<Seq<Card>>,
}

/// Whether every card of `s` is a dealt card.
pub open spec fn all_valid(s: Seq<Card>) -> bool {
    forall|k: int| 0 <= k < s.len() ==> (#[trigger] s[k]).valid()
}

/// Whether each card of `s` lies on the card before it by the tableau rule.
pub open spec fn is_run(s: Seq<Card>) -> bool {
    forall|k: int| 0 <= k < s.len() - 1 ==> (#[trigger] s[k + 1]).spec_stacks_on(s[k])
}

/// How many free cells are empty.
pub open spec fn count_empty(cells: Seq<Option<Card>>) -> nat
    decreases cells.len(),
{
    if cells.len() == 0 {
        0
    } else {
        count_empty(cells.drop_last()) + if cells.last() is None {
            1nat
        } else {
            0nat
        }
    }
}

/// The foundations of a fresh board: every suit at rank 0.
pub open spec fn empty_foundations() -> Seq<Card> {
    Seq::new(4, |i: int| Card { rank: 0, suit: Suit::at_index(i) })
}

/// Whether a card of `rank` and `suit` may go to its foundation without
/// ever being needed in the tableau: it is next on its foundation, and each
/// card of the other colour one rank lower is on its foundation already or
/// may itself go there by this rule.
pub open spec fn auto_safe(foundations: Seq<Card>, rank: int, suit: Suit) -> bool
    decreases rank,
{
    if rank < 1 {
        false
    } else if foundations[suit.spec_index()].rank != rank - 1 {
        false
    } else {
        let (a, b) = if suit.spec_colour() == Colour::Red {
            (Suit::Clubs, Suit::Spades)
        } else {
            (Suit::Diamonds, Suit::Hearts)
        };
        (foundations[a.spec_index()].rank >= rank - 1 || auto_safe(foundations, rank - 1, a))
            && (foundations[b.spec_index()].rank >= rank - 1 || auto_safe(
            foundations,
            rank - 1,
            b,
        ))
    }
}

/// The sum of a sequence of multisets.
pub open spec fn sum_multisets(s: Seq<Multiset<Card>>) -> Multiset<Card>
    decreases s.len(),
{
    if s.len() == 0 {
        Multiset::empty()
    } else {
        sum_multisets(s.drop_last()).add(s.last())
    }
}

pub open spec fn option_cards(c: Option<Card>) -> Multiset<Card> {
    match c {
        Some(card) => Multiset::singleton(card),
        None => Multiset::empty(),
    }
}

/// The cards on a foundation whose top card is `top`: every rank of its suit
/// from the ace up to `top`.
pub open spec fn foundation_cards(top: Card) -> Multiset<Card>
    decreases top.rank,
{
    if top.rank == 0 {
        Multiset::empty()
    } else {
        foundation_cards(Card { rank: (top.rank - 1) as u8, suit: top.suit }).insert(top)
    }
}

pub open spec fn seq_cards(s: Seq<Card>) -> Multiset<Card> {
    s.to_multiset()
}

pub open spec fn option_seq_cards(s: Option<Seq<Card>>) -> Multiset<Card> {
    match s {
        Some(cards) => cards.to_multiset(),
        None => Multiset::empty(),
    }
}

/// The cards of each column.
pub open spec fn column_multisets(columns: Seq<Seq<Card>>) -> Seq<Multiset<Card>> {
    columns.map_values(|c: Seq<Card>| seq_cards(c))
}

/// The cards of each foundation.
pub open spec fn foundation_multisets(tops: Seq<Card>) -> Seq<Multiset<Card>> {
    tops.map_values(|c: Card| foundation_cards(c))
}

/// The card of each free cell.
pub open spec fn cell_multisets(cells: Seq<Option<Card>>) -> Seq<Multiset<Card>> {
    cells.map_values(|c: Option<Card>| option_cards(c))
}

impl GameModel {
    /// Whether cards are being held.
    pub open spec fn holding(self) -> bool {
        self.floating is Some || self.floating_stack is Some
    }

    /// The board invariant.
    pub open spec fn wf(self) -> bool {
        &&& self.foundations.len() == 4
        &&& forall|i: int|
            0 <= i < 4 ==> (#[trigger] self.foundations[i]).suit == Suit::at_index(i)
                && self.foundations[i].rank <= 13
        &&& self.free_cells.len() == 4
        &&& forall|i: int|
            0 <= i < 4 ==> (#[trigger] self.free_cells[i] matches Some(c) ==> c.valid())
        &&& forall|i: int| 0 <= i < self.columns.len() ==> all_valid(#[trigger] self.columns[i])
        &&& self.floating matches Some(c) ==> c.valid()
        &&& self.floating_stack matches Some(s) ==> s.len() > 0 && all_valid(s)
        &&& !(self.floating is Some && self.floating_stack is Some)
    }

    /// One more than the number of empty free cells: the largest run that
    /// may be picked up at once.
    pub open spec fn max_stack_size(self) -> int {
        1 + count_empty(self.free_cells) as int
    }

    /// Every card on the board, wherever it lies.
    pub open spec fn cards(self) -> Multiset<Card> {
        sum_multisets(column_multisets(self.columns)).add(
            sum_multisets(foundation_multisets(self.foundations)),
        ).add(sum_multisets(cell_multisets(self.free_cells))).add(option_cards(self.floating)).add(
            option_seq_cards(self.floating_stack),
        )
    }

    /// The card showing at `address`.
    pub open spec fn card_at(self, address: CardAddress) -> Result<Card, MoveError> {
        let empty = MoveError::CannotPickUp { reason: PickUpReason::EmptyAddress, from: address };
        match address {
            CardAddress::Column(i) => {
                if i >= self.columns.len() {
                    Err(MoveError::IllegalAddress { address })
                } else if self.columns[i as int].len() == 0 {
                    Err(empty)
                } else {
                    Ok(self.columns[i as int].last())
                }
            },
            CardAddress::Foundation(suit) => {
                if suit.spec_index() >= self.foundations.len() {
                    Err(MoveError::IllegalAddress { address })
                } else {
                    Ok(self.foundations[suit.spec_index()])
                }
            },
            CardAddress::FreeCell(i) => {
                if i >= self.free_cells.len() {
                    Err(MoveError::IllegalAddress { address })
                } else {
                    match self.free_cells[i as int] {
                        Some(card) => Ok(card),
                        None => Err(empty),
                    }
                }
            },
        }
    }

    /// Picking up the single card at `address`.
    pub open spec fn after_pick_up_card(self, address: CardAddress) -> Result<
        GameModel,
        MoveError,
    > {
        if self.holding() {
            Err(MoveError::CannotPickUp { reason: PickUpReason::AlreadyHolding, from: address })
        } else {
            match address {
                CardAddress::Column(i) => {
                    if i >= self.columns.len() {
                        Err(MoveError::IllegalAddress { address })
                    } else if self.columns[i as int].len() == 0 {
                        Err(
                            MoveError::CannotPickUp {
                                reason: PickUpReason::EmptyAddress,
                                from: address,
                            },
                        )
                    } else {
                        let column = self.columns[i as int];
                        Ok(
                            GameModel {
                                columns: self.columns.update(i as int, column.drop_last()),
                                floating: Some(column.last()),
                                ..self
                            },
                        )
                    }
                },
                CardAddress::Foundation(_) => Err(
                    MoveError::CannotPickUp {
                        reason: PickUpReason::MoveOffFoundation,
                        from: address,
                    },
                ),
                CardAddress::FreeCell(i) => {
                    if i >= self.free_cells.len() {
                        Err(MoveError::IllegalAddress { address })
                    } else {
                        match self.free_cells[i as int] {
                            None => Err(
                                MoveError::CannotPickUp {
                                    reason: PickUpReason::EmptyAddress,
                                    from: address,
                                },
                            ),
                            Some(card) => Ok(
                                GameModel {
                                    free_cells: self.free_cells.update(i as int, None),
                                    floating: Some(card),
                                    ..self
                                },
                            ),
                        }
                    }
                },
            }
        }
    }

    /// Picking up the top `count` cards of a column as one run.
    pub open spec fn after_pick_up_stack(self, address: CardAddress, count: usize) -> Result<
        GameModel,
        MoveError,
    > {
        match address {
            CardAddress::Column(i) => {
                if self.holding() {
                    Err(
                        MoveError::CannotPickUp {
                            reason: PickUpReason::AlreadyHolding,
                            from: address,
                        },
                    )
                } else if count == 0 {
                    Err(MoveError::CannotPickUp { reason: PickUpReason::EmptyStack, from: address })
                } else if count == 1 {
                    self.after_pick_up_card(address)
                } else if i >= self.columns.len() {
                    Err(MoveError::IllegalAddress { address })
                } else {
                    let column = self.columns[i as int];
                    let split = column.len() - count;
                    if count > column.len() {
                        Err(
                            MoveError::CannotPickUp {
                                reason: PickUpReason::StackLargerThanColumn,
                                from: address,
                            },
                        )
                    } else if count > self.max_stack_size() {
                        Err(
                            MoveError::CannotPickUp {
                                reason: PickUpReason::StackTooLarge,
                                from: address,
                            },
                        )
                    } else if !is_run(column.subrange(split, column.len() as int)) {
                        Err(
                            MoveError::CannotPickUp {
                                reason: PickUpReason::UnsoundStack,
                                from: address,
                            },
                        )
                    } else {
                        Ok(
                            GameModel {
                                columns: self.columns.update(i as int, column.subrange(0, split)),
                                floating_stack: Some(
                                    column.subrange(split, column.len() as int),
                                ),
                                ..self
                            },
                        )
                    }
                }
            },
            _ => Err(MoveError::CannotPickUp { reason: PickUpReason::OnlyFromColumn, from: address }),
        }
    }

    /// Placing whatever is held at `address`.
    pub open spec fn after_place(self, address: CardAddress) -> Result<GameModel, MoveError> {
        let does_not_fit = MoveError::CannotPlace { reason: PlaceReason::DoesNotFit, to: address };
        let nothing_held = MoveError::CannotPlace { reason: PlaceReason::NoCardsHeld, to: address };
        match address {
            CardAddress::Column(i) => {
                if i >= self.columns.len() {
                    Err(MoveError::IllegalAddress { address })
                } else {
                    let column = self.columns[i as int];
                    match self.floating {
                        Some(card) => {
                            if column.len() == 0 || card.spec_stacks_on(column.last()) {
                                Ok(
                                    GameModel {
                                        columns: self.columns.update(i as int, column.push(card)),
                                        floating: None,
                                        ..self
                                    },
                                )
                            } else {
                                Err(does_not_fit)
                            }
                        },
                        None => match self.floating_stack {
                            Some(cards) => {
                                if column.len() == 0 || cards[0].spec_stacks_on(column.last()) {
                                    Ok(
                                        GameModel {
                                            columns: self.columns.update(i as int, column + cards),
                                            floating_stack: None,
                                            ..self
                                        },
                                    )
                                } else {
                                    Err(does_not_fit)
                                }
                            },
                            None => Err(nothing_held),
                        },
                    }
                }
            },
            CardAddress::Foundation(suit) => {
                let f = suit.spec_index();
                if f >= self.foundations.len() {
                    Err(MoveError::IllegalAddress { address })
                } else {
                    match self.floating {
                        Some(card) => {
                            if card.spec_fits_on_foundation(self.foundations[f]) {
                                Ok(
                                    GameModel {
                                        foundations: self.foundations.update(f, card),
                                        floating: None,
                                        ..self
                                    },
                                )
                            } else {
                                Err(does_not_fit)
                            }
                        },
                        None => if self.floating_stack is Some {
                            Err(does_not_fit)
                        } else {
                            Err(nothing_held)
                        },
                    }
                }
            },
            CardAddress::FreeCell(i) => {
                if i >= self.free_cells.len() {
                    Err(MoveError::IllegalAddress { address })
                } else if self.free_cells[i as int] is Some {
                    Err(does_not_fit)
                } else {
                    match self.floating {
                        Some(card) => Ok(
                            GameModel {
                                free_cells: self.free_cells.update(i as int, Some(card)),
                                floating: None,
                                ..self
                            },
                        ),
                        None => Err(does_not_fit),
                    }
                }
            },
        }
    }

    /// Whether the top card of column `k` may go to its foundation.
    pub open spec fn column_auto_safe(self, k: int) -> bool {
        let column = self.columns[k];
        column.len() > 0 && auto_safe(self.foundations, column.last().rank as int, column.last().suit)
    }

    /// The first column, from `k` on, whose top card may go to its foundation.
    pub open spec fn first_auto_column(self, k: int) -> Option<int>
        decreases self.columns.len() - k,
    {
        if k < 0 || k >= self.columns.len() {
            None
        } else if self.column_auto_safe(k) {
            Some(k)
        } else {
            self.first_auto_column(k + 1)
        }
    }

    /// One automatic move: the top card of the first column whose top card
    /// is safe goes to its foundation.
    pub open spec fn after_auto_move(self) -> Option<GameModel> {
        if self.holding() {
            None
        } else {
            match self.first_auto_column(0) {
                None => None,
                Some(k) => {
                    let column = self.columns[k];
                    let card = column.last();
                    Some(
                        GameModel {
                            columns: self.columns.update(k, column.drop_last()),
                            foundations: self.foundations.update(card.suit.spec_index(), card),
                            ..self
                        },
                    )
                }
            }
        }
    }

    /// The held cards as a run: a single held card is a run of one.
    pub open spec fn held(self) -> Option<Seq<Card>> {
        match self.floating {
            Some(card) => Some(seq![card]),
            None => self.floating_stack,
        }
    }

    /// Whether every foundation holds its king.
    pub open spec fn won(self) -> bool {
        forall|i: int| 0 <= i < self.foundations.len() ==> (#[trigger] self.foundations[i]).rank == 13
    }
}

/// A sum of empty multisets is empty.
pub proof fn lemma_sum_of_empties(s: Seq<Multiset<Card>>)
    requires
        forall|i: int| 0 <= i < s.len() ==> #[trigger] s[i] == Multiset::<Card>::empty(),
    ensures
        sum_multisets(s) == Multiset::<Card>::empty(),
    decreases s.len(),
{
    if s.len() > 0 {
        lemma_sum_of_empties(s.drop_last());
        assert(sum_multisets(s) =~= Multiset::<Card>::empty());
    }
}

/// Replacing one term of a sum changes the sum by that term alone.
pub proof fn lemma_sum_update(s: Seq<Multiset<Card>>, i: int, m: Multiset<Card>)
    requires
        0 <= i < s.len(),
    ensures
        sum_multisets(s.update(i, m)).add(s[i]) == sum_multisets(s).add(m),
    decreases s.len(),
{
    let t = s.update(i, m);
    if i == s.len() - 1 {
        assert(t.drop_last() =~= s.drop_last());
        assert(sum_multisets(t).add(s[i]) =~= sum_multisets(s).add(m));
    } else {
        lemma_sum_update(s.drop_last(), i, m);
        assert(t.drop_last() =~= s.drop_last().update(i, m));
        assert(s.drop_last()[i] == s[i]);
        assert(t.last() == s.last());
        assert(sum_multisets(t) == sum_multisets(t.drop_last()).add(t.last()));
        assert(sum_multisets(s) == sum_multisets(s.drop_last()).add(s.last()));
        let x = sum_multisets(s.drop_last().update(i, m));
        let y = sum_multisets(s.drop_last());
        assert(x.add(s[i]) == y.add(m));
        assert(sum_multisets(t) == x.add(s.last()));
        assert(sum_multisets(t).add(s[i]) =~= x.add(s[i]).add(s.last()));
        assert(sum_multisets(s).add(m) =~= y.add(m).add(s.last()));
    }
}

} // verus!

//! The board: validated moves from one board value to the next.

use vstd::prelude::*;

use crate::card::{Card, CardAddress, Colour, Suit};
use crate::error::{MoveError, PickUpReason, PlaceReason};
use crate::model::{all_valid, auto_safe, count_empty, empty_foundations, is_run, GameModel};
use crate::text::{all_showable, lemma_valid_showable, model_text, showable};

verus! {

/// A board: the tableau, the foundations, the free cells and whatever is held.
#[derive(Debug)]
pub struct Game {
    columns: Vec<Vec<Card>>,
    foundations: Vec<Card>,
    free_cells: Vec<Option<Card>>,
    floating: Option<Card>,
    floating_stack: Option<Vec<Card>>,
}

/// The columns of a board as sequences.
pub open spec fn column_views(columns: Seq<Vec<Card>>) -> Seq<Seq<Card>> {
    columns.map_values(|c: Vec<Card>| c@)
}

pub open spec fn stack_view(stack: Option<Vec<Card>>) -> Option<Seq<Card>> {
    match stack {
        Some(cards) => Some(cards@),
        None => None,
    }
}

/// A fresh board with the given tableau.
pub open spec fn board_with_columns(columns: Seq<Seq<Card>>) -> GameModel {
    GameModel {
        columns,
        foundations: empty_foundations(),
        free_cells: seq![None, None, None, None],
        floating: None,
        floating_stack: None,
    }
}

/// A read-only snapshot of a board for display.
#[derive(Clone, Debug, PartialEq, Eq)]
pub struct GameView {
    pub columns: Vec<Vec<Card>>,
    pub foundations: Vec<Card>,
    pub free_cells: Vec<Option<Card>>,
    /// The held cards: one card, or a run.
    pub floating: Option<Vec<Card>>,
}

impl GameView {
    /// Whether every foundation holds its king.
    pub fn is_won(&self) -> (r: bool)
        ensures
            r == (forall|i: int|
                0 <= i < self.foundations@.len() ==> (#[trigger] self.foundations@[i]).rank == 13),
    {
        let mut k: usize = 0;
        while k < self.foundations.len()
            invariant
                k <= self.foundations@.len(),
                forall|j: int| 0 <= j < k ==> (#[trigger] self.foundations@[j]).rank == 13,
            decreases self.foundations.len() - k,
        {
            if self.foundations[k].rank != 13 {
                return false;
            }
            k += 1;
        }
        true
    }
}

impl Game {
    /// The mathematical view of this board.
    pub closed spec fn model(&self) -> GameModel {
        GameModel {
            columns: column_views(self.columns@),
            foundations: self.foundations@,
            free_cells: self.free_cells@,
            floating: self.floating,
            floating_stack: stack_view(self.floating_stack),
        }
    }
}

/// The outcome of a move, as models.
pub open spec fn view_result(r: Result<Game, MoveError>) -> Result<GameModel, MoveError> {
    match r {
        Ok(g) => Ok(g.model()),
        Err(e) => Err(e),
    }
}

pub open spec fn view_option(r: Option<Game>) -> Option<GameModel> {
    match r {
        Some(g) => Some(g.model()),
        None => None,
    }
}

fn copy_cards(v: &Vec<Card>) -> (r: Vec<Card>)
    ensures
        r@ == v@,
{
    let mut r: Vec<Card> = Vec::new();
    let mut k: usize = 0;
    while k < v.len()
        invariant
            k <= v.len(),
            r@ == v@.subrange(0, k as int),
        decreases v.len() - k,
    {
        r.push(v[k]);
        k += 1;
        assert(r@ =~= v@.subrange(0, k as int));
    }
    assert(r@ =~= v@);
    r
}

fn copy_cells(v: &Vec<Option<Card>>) -> (r: Vec<Option<Card>>)
    ensures
        r@ == v@,
{
    let mut r: Vec<Option<Card>> = Vec::new();
    let mut k: usize = 0;
    while k < v.len()
        invariant
            k <= v.len(),
            r@ == v@.subrange(0, k as int),
        decreases v.len() - k,
    {
        r.push(v[k]);
        k += 1;
        assert(r@ =~= v@.subrange(0, k as int));
    }
    assert(r@ =~= v@);
    r
}

fn copy_columns(v: &Vec<Vec<Card>>) -> (r: Vec<Vec<Card>>)
    ensures
        column_views(r@) == column_views(v@),
{
    let mut r: Vec<Vec<Card>> = Vec::new();
    let mut k: usize = 0;
    while k < v.len()
        invariant
            k <= v.len(),
            r@.len() == k,
            forall|j: int| 0 <= j < k ==> (#[trigger] r@[j])@ == v@[j]@,
        decreases v.len() - k,
    {
        let c = copy_cards(&v[k]);
        r.push(c);
        k += 1;
    }
    assert(column_views(r@) =~= column_views(v@));
    r
}

fn copy_stack(v: &Option<Vec<Card>>) -> (r: Option<Vec<Card>>)
    ensures
        stack_view(r) == stack_view(*v),
{
    match v {
        Some(cards) => Some(copy_cards(cards)),
        None => None,
    }
}

fn cards_equal(a: &Vec<Card>, b: &Vec<Card>) -> (r: bool)
    ensures
        r == (a@ == b@),
{
    if a.len() != b.len() {
        return false;
    }
    let mut k: usize = 0;
    while k < a.len()
        invariant
            a.len() == b.len(),
            k <= a.len(),
            forall|j: int| 0 <= j < k ==> a@[j] == b@[j],
        decreases a.len() - k,
    {
        if a[k] != b[k] {
            return false;
        }
        k += 1;
    }
    assert(a@ =~= b@);
    true
}

fn option_cards_equal(a: Option<Card>, b: Option<Card>) -> (r: bool)
    ensures
        r == (a == b),
{
    match (a, b) {
        (Some(x), Some(y)) => x == y,
        (None, None) => true,
        _ => false,
    }
}

fn cells_equal(a: &Vec<Option<Card>>, b: &Vec<Option<Card>>) -> (r: bool)
    ensures
        r == (a@ == b@),
{
    if a.len() != b.len() {
        return false;
    }
    let mut k: usize = 0;
    while k < a.len()
        invariant
            a.len() == b.len(),
            k <= a.len(),
            forall|j: int| 0 <= j < k ==> a@[j] == b@[j],
        decreases a.len() - k,
    {
        if !option_cards_equal(a[k], b[k]) {
            return false;
        }
        k += 1;
    }
    assert(a@ =~= b@);
    true
}

fn columns_equal(a: &Vec<Vec<Card>>, b: &Vec<Vec<Card>>) -> (r: bool)
    ensures
        r == (column_views(a@) == column_views(b@)),
{
    if a.len() != b.len() {
        assert(column_views(a@).len() != column_views(b@).len());
        return false;
    }
    let mut k: usize = 0;
    while k < a.len()
        invariant
            a.len() == b.len(),
            k <= a.len(),
            forall|j: int| 0 <= j < k ==> a@[j]@ == b@[j]@,
        decreases a.len() - k,
    {
        if !cards_equal(&a[k], &b[k]) {
            assert(column_views(a@)[k as int] != column_views(b@)[k as int]);
            return false;
        }
        k += 1;
    }
    assert(column_views(a@) =~= column_views(b@));
    true
}

fn stacks_equal(a: &Option<Vec<Card>>, b: &Option<Vec<Card>>) -> (r: bool)
    ensures
        r == (stack_view(*a) == stack_view(*b)),
{
    match (a, b) {
        (Some(x), Some(y)) => cards_equal(x, y),
        (None, None) => true,
        _ => false,
    }
}

impl Clone for Game {
    fn clone(&self) -> (r: Game)
        ensures
            r.model() == self.model(),
    {
        self.duplicate()
    }
}

impl PartialEq for Game {
    fn eq(&self, other: &Game) -> (r: bool) {
        let r = columns_equal(&self.columns, &other.columns) && cards_equal(
            &self.foundations,
            &other.foundations,
        ) && cells_equal(&self.free_cells, &other.free_cells) && option_cards_equal(
            self.floating,
            other.floating,
        ) && stacks_equal(&self.floating_stack, &other.floating_stack);
        r
    }
}

impl vstd::std_specs::cmp::PartialEqSpecImpl for Game {
    open spec fn obeys_eq_spec() -> bool {
        true
    }

    open spec fn eq_spec(&self, other: &Game) -> bool {
        self.model() == other.model()
    }
}

impl Game {
    #[verifier::type_invariant]
    closed spec fn inv(&self) -> bool {
        self.model().wf()
    }

    fn duplicate(&self) -> (r: Game)
        ensures
            r.model() == self.model(),
    {
        proof {
            use_type_invariant(self);
        }
        Game {
            columns: copy_columns(&self.columns),
            foundations: copy_cards(&self.foundations),
            free_cells: copy_cells(&self.free_cells),
            floating: self.floating,
            floating_stack: copy_stack(&self.floating_stack),
        }
    }

    /// A board with the given tableau, empty foundations and free cells, and
    /// nothing held.
    fn empty_with_columns(columns: Vec<Vec<Card>>) -> (r: Game)
        requires
            forall|i: int| 0 <= i < columns@.len() ==> all_valid(#[trigger] columns@[i]@),
        ensures
            r.model() == board_with_columns(column_views(columns@)),
    {
        let foundations = vec![
            Card::new(0, Suit::Clubs),
            Card::new(0, Suit::Diamonds),
            Card::new(0, Suit::Hearts),
            Card::new(0, Suit::Spades),
        ];
        let free_cells: Vec<Option<Card>> = vec![None, None, None, None];
        assert(foundations@ =~= empty_foundations());
        assert(free_cells@ =~= seq![None, None, None, None]);
        Game { columns, foundations, free_cells, floating: None, floating_stack: None }
    }

    /// A board with an empty tableau.
    pub fn empty() -> (r: Game)
        ensures
            r.model() == board_with_columns(Seq::empty()),
            r.model().wf(),
    {
        let r = game_from_columns(Vec::new());
        assert(column_views(Seq::<Vec<Card>>::empty()) =~= Seq::empty());
        r
    }

    /// Picks up the single card at `address`: the top card of a column, or
    /// the card in a free cell.
    pub fn pick_up_card(&self, address: CardAddress) -> (r: Result<Game, MoveError>)
        ensures
            view_result(r) == self.model().after_pick_up_card(address),
    {
        proof {
            use_type_invariant(self);
        }
        if self.floating.is_some() || self.floating_stack.is_some() {
            return Err(MoveError::CannotPickUp { reason: PickUpReason::AlreadyHolding, from: address });
        }
        match address {
            CardAddress::Column(i) => {
                if i >= self.columns.len() {
                    return Err(MoveError::IllegalAddress { address });
                }
                if self.columns[i].len() == 0 {
                    return Err(
                        MoveError::CannotPickUp { reason: PickUpReason::EmptyAddress, from: address },
                    );
                }
                let Game { mut columns, foundations, free_cells, floating: _, floating_stack } =
                    self.duplicate();
                let mut column = copy_cards(&self.columns[i]);
                let card = column.pop().unwrap();
                columns.set(i, column);
                let ghost expected = self.model().columns.update(
                    i as int,
                    self.model().columns[i as int].drop_last(),
                );
                assert(column_views(columns@) =~= expected);
                Ok(Game { columns, foundations, free_cells, floating: Some(card), floating_stack })
            },
            CardAddress::Foundation(_) => Err(
                MoveError::CannotPickUp { reason: PickUpReason::MoveOffFoundation, from: address },
            ),
            CardAddress::FreeCell(i) => {
                if i >= self.free_cells.len() {
                    return Err(MoveError::IllegalAddress { address });
                }
                match self.free_cells[i] {
                    None => Err(
                        MoveError::CannotPickUp { reason: PickUpReason::EmptyAddress, from: address },
                    ),
                    Some(card) => {
                        let Game { columns, foundations, mut free_cells, floating: _, floating_stack } =
                            self.duplicate();
                        free_cells.set(i, None);
                        Ok(Game { columns, foundations, free_cells, floating: Some(card), floating_stack })
                    },
                }
            },
        }
    }

    /// Picks up the top `count` cards of a column as one run. The run must
    /// alternate colours and descend by one rank, and be no longer than
    /// [`GameModel::max_stack_size`]. A count of one picks up a single card.
    #[verifier::loop_isolation(false)]
    pub fn pick_up_stack(&self, address: CardAddress, count: usize) -> (r: Result<Game, MoveError>)
        ensures
            view_result(r) == self.model().after_pick_up_stack(address, count),
    {
        proof {
            use_type_invariant(self);
        }
        let i = match address {
            CardAddress::Column(i) => i,
            _ => {
                return Err(
                    MoveError::CannotPickUp { reason: PickUpReason::OnlyFromColumn, from: address },
                );
            },
        };
        if self.floating.is_some() || self.floating_stack.is_some() {
            return Err(MoveError::CannotPickUp { reason: PickUpReason::AlreadyHolding, from: address });
        }
        let max_possible_stack_size = self.max_stack_size();
        if count == 0 {
            return Err(MoveError::CannotPickUp { reason: PickUpReason::EmptyStack, from: address });
        }
        if count == 1 {
            return self.pick_up_card(address);
        }
        if i >= self.columns.len() {
            return Err(MoveError::IllegalAddress { address });
        }
        let column = &self.columns[i];
        if count > column.len() {
            return Err(
                MoveError::CannotPickUp { reason: PickUpReason::StackLargerThanColumn, from: address },
            );
        }
        if count > max_possible_stack_size {
            return Err(MoveError::CannotPickUp { reason: PickUpReason::StackTooLarge, from: address });
        }
        let split = column.len() - count;
        assert(self.model().columns[i as int] == column@);
        let ghost run = column@.subrange(split as int, column@.len() as int);
        let mut k: usize = split;
        while k + 1 < column.len()
            invariant
                split <= k < column@.len(),
                run == column@.subrange(split as int, column@.len() as int),
                forall|j: int| 0 <= j < k - split ==> (#[trigger] run[j + 1]).spec_stacks_on(run[j]),
            decreases column.len() - k,
        {
            if !column[k + 1].stacks_on(&column[k]) {
                let ghost j = k - split;
                assert(run[j] == column@[k as int] && run[j + 1] == column@[k + 1]);
                assert(!(run[j + 1]).spec_stacks_on(run[j]));
                return Err(MoveError::CannotPickUp { reason: PickUpReason::UnsoundStack, from: address });
            }
            k += 1;
        }
        assert(is_run(run));
        let Game { mut columns, foundations, free_cells, floating, floating_stack: _ } =
            self.duplicate();
        let mut remaining = copy_cards(&self.columns[i]);
        let stack = remaining.split_off(split);
        columns.set(i, remaining);
        let ghost expected = self.model().columns.update(i as int, column@.subrange(0, split as int));
        assert(column_views(columns@) =~= expected);
        Ok(Game { columns, foundations, free_cells, floating, floating_stack: Some(stack) })
    }

    /// Places whatever is held at `address`: on a column by the tableau
    /// rule, a single card on its foundation by the foundation rule, or a
    /// single card in an empty free cell.
    pub fn place(&self, address: CardAddress) -> (r: Result<Game, MoveError>)
        ensures
            view_result(r) == self.model().after_place(address),
    {
        proof {
            use_type_invariant(self);
        }
        let does_not_fit = MoveError::CannotPlace { reason: PlaceReason::DoesNotFit, to: address };
        let nothing_held = MoveError::CannotPlace { reason: PlaceReason::NoCardsHeld, to: address };
        match address {
            CardAddress::Column(i) => {
                if i >= self.columns.len() {
                    return Err(MoveError::IllegalAddress { address });
                }
                let column = &self.columns[i];
                let len = column.len();
                match self.floating {
                    Some(card) => {
                        if len == 0 || card.stacks_on(&column[len - 1]) {
                            let Game { mut columns, foundations, free_cells, floating: _, floating_stack } =
                                self.duplicate();
                            let mut extended = copy_cards(column);
                            extended.push(card);
                            columns.set(i, extended);
                            let ghost expected = self.model().columns.update(i as int, column@.push(card));
                            assert(column_views(columns@) =~= expected);
                            Ok(Game { columns, foundations, free_cells, floating: None, floating_stack })
                        } else {
                            Err(does_not_fit)
                        }
                    },
                    None => match &self.floating_stack {
                        Some(cards) => {
                            if len == 0 || cards[0].stacks_on(&column[len - 1]) {
                                let Game { mut columns, foundations, free_cells, floating, floating_stack: _ } =
                                    self.duplicate();
                                let mut extended = copy_cards(column);
                                let mut moved = copy_cards(cards);
                                extended.append(&mut moved);
                                columns.set(i, extended);
                                let ghost expected = self.model().columns.update(
                                    i as int,
                                    column@ + cards@,
                                );
                                assert(column_views(columns@) =~= expected);
                                Ok(Game { columns, foundations, free_cells, floating, floating_stack: None })
                            } else {
                                Err(does_not_fit)
                            }
                        },
                        None => Err(nothing_held),
                    },
                }
            },
            CardAddress::Foundation(suit) => {
                let f = suit.index();
                if f >= self.foundations.len() {
                    return Err(MoveError::IllegalAddress { address });
                }
                match self.floating {
                    Some(card) => {
                        if card.fits_on_foundation(&self.foundations[f]) {
                            let Game { columns, mut foundations, free_cells, floating: _, floating_stack } =
                                self.duplicate();
                            foundations.set(f, card);
                            Ok(Game { columns, foundations, free_cells, floating: None, floating_stack })
                        } else {
                            Err(does_not_fit)
                        }
                    },
                    None => {
                        if self.floating_stack.is_some() {
                            Err(does_not_fit)
                        } else {
                            Err(nothing_held)
                        }
                    },
                }
            },
            CardAddress::FreeCell(i) => {
                if i >= self.free_cells.len() {
                    return Err(MoveError::IllegalAddress { address });
                }
                if self.free_cells[i].is_some() {
                    return Err(does_not_fit);
                }
                match self.floating {
                    Some(card) => {
                        let Game { columns, foundations, mut free_cells, floating: _, floating_stack } =
                            self.duplicate();
                        free_cells.set(i, Some(card));
                        Ok(Game { columns, foundations, free_cells, floating: None, floating_stack })
                    },
                    None => Err(does_not_fit),
                }
            },
        }
    }

    /// A snapshot of the board. A single held card is shown as a run of one.
    pub fn view(&self) -> (r: GameView)
        ensures
            column_views(r.columns@) == self.model().columns,
            r.foundations@ == self.model().foundations,
            r.free_cells@ == self.model().free_cells,
            stack_view(r.floating) == self.model().held(),
    {
        let floating = match self.floating {
            Some(card) => {
                let mut one = Vec::new();
                one.push(card);
                assert(one@ =~= seq![card]);
                Some(one)
            },
            None => copy_stack(&self.floating_stack),
        };
        GameView {
            columns: copy_columns(&self.columns),
            foundations: copy_cards(&self.foundations),
            free_cells: copy_cells(&self.free_cells),
            floating,
        }
    }

    /// Whether every foundation holds its king.
    pub fn is_won(&self) -> (r: bool)
        ensures
            r == self.model().won(),
    {
        self.view().is_won()
    }

    /// Whether `card` may go to its foundation now and is never needed in
    /// the tableau again (see [`auto_safe`]).
    fn can_auto_move(&self, card: Card) -> (r: bool)
        requires
            card.valid(),
        ensures
            r == auto_safe(self.model().foundations, card.rank as int, card.suit),
        decreases card.rank,
    {
        proof {
            use_type_invariant(self);
        }
        let below = card.rank - 1;
        if self.foundations[card.suit.index()].rank != below {
            return false;
        }
        let (a, b) = match card.suit.colour() {
            Colour::Red => (Suit::Clubs, Suit::Spades),
            Colour::Black => (Suit::Diamonds, Suit::Hearts),
        };
        let a_done = self.foundations[a.index()].rank >= below || self.can_auto_move(
            Card::new(below, a),
        );
        let b_done = self.foundations[b.index()].rank >= below || self.can_auto_move(
            Card::new(below, b),
        );
        a_done && b_done
    }

    /// Moves one card to its foundation: the top card of the first column
    /// whose top card may go there safely. `None` when no card may, or when
    /// cards are held.
    pub fn auto_move_to_foundations(&self) -> (r: Option<Game>)
        ensures
            view_option(r) == self.model().after_auto_move(),
    {
        proof {
            use_type_invariant(self);
        }
        if self.floating.is_some() || self.floating_stack.is_some() {
            return None;
        }
        let mut index: usize = 0;
        while index < self.columns.len()
            invariant
                index <= self.model().columns.len(),
                self.model().wf(),
                !self.model().holding(),
                self.model().first_auto_column(0) == self.model().first_auto_column(index as int),
            decreases self.columns.len() - index,
        {
            let column = &self.columns[index];
            assert(self.model().columns[index as int] == column@);
            if column.len() > 0 {
                let card = column[column.len() - 1];
                assert(all_valid(self.model().columns[index as int]));
                if self.can_auto_move(card) {
                    assert(Suit::at_index(card.suit.spec_index()) == card.suit);
                    return match self.pick_up_card(CardAddress::Column(index)) {
                        Ok(held) => match held.place(CardAddress::Foundation(card.suit)) {
                            Ok(moved) => Some(moved),
                            Err(_) => None,
                        },
                        Err(_) => None,
                    };
                }
            }
            index += 1;
        }
        None
    }

    /// The largest run that may be picked up at once: one more than the
    /// number of empty free cells, so one with every free cell full and five
    /// with every free cell empty.
    pub fn max_stack_size(&self) -> (r: usize)
        ensures
            r as int == self.model().max_stack_size(),
            1 <= r <= 5,
    {
        proof {
            use_type_invariant(self);
        }
        let mut empty: usize = 0;
        let mut k: usize = 0;
        while k < self.free_cells.len()
            invariant
                k <= self.free_cells@.len(),
                self.free_cells@.len() == 4,
                empty <= k,
                empty as int == count_empty(self.free_cells@.subrange(0, k as int)),
            decreases self.free_cells.len() - k,
        {
            assert(self.free_cells@.subrange(0, k + 1).drop_last() =~= self.free_cells@.subrange(
                0,
                k as int,
            ));
            if self.free_cells[k].is_none() {
                empty += 1;
            }
            k += 1;
        }
        assert(self.free_cells@.subrange(0, k as int) =~= self.free_cells@);
        1 + empty
    }

    /// The card at `address`: the top card of a column, the top card of a
    /// foundation, or the card in a free cell.
    pub fn get(&self, address: CardAddress) -> (r: Result<Card, MoveError>)
        ensures
            r == self.model().card_at(address),
    {
        proof {
            use_type_invariant(self);
        }
        match address {
            CardAddress::Column(i) => {
                if i >= self.columns.len() {
                    return Err(MoveError::IllegalAddress { address });
                }
                let column = &self.columns[i];
                if column.len() == 0 {
                    Err(MoveError::CannotPickUp { reason: PickUpReason::EmptyAddress, from: address })
                } else {
                    Ok(column[column.len() - 1])
                }
            },
            CardAddress::Foundation(suit) => {
                let f = suit.index();
                if f >= self.foundations.len() {
                    Err(MoveError::IllegalAddress { address })
                } else {
                    Ok(self.foundations[f])
                }
            },
            CardAddress::FreeCell(i) => {
                if i >= self.free_cells.len() {
                    return Err(MoveError::IllegalAddress { address });
                }
                match self.free_cells[i] {
                    Some(card) => Ok(card),
                    None => Err(
                        MoveError::CannotPickUp { reason: PickUpReason::EmptyAddress, from: address },
                    ),
                }
            },
        }
    }

    /// Whether cards are being held.
    pub fn has_floating(&self) -> (r: bool)
        ensures
            r == self.model().holding(),
    {
        self.floating.is_some() || self.floating_stack.is_some()
    }
}

impl Game {
    /// The board as text (see [`GameView::text`]).
    pub fn text(&self) -> (r: String)
        ensures
            r@ == model_text(self.model()),
    {
        let view = self.view();
        let ghost m = self.model();
        proof {
            use_type_invariant(self);
            assert forall|i: int| 0 <= i < view.columns@.len() implies all_showable(
                #[trigger] view.columns@[i]@,
            ) by {
                assert(view.columns@[i]@ == m.columns[i]);
                lemma_valid_showable(m.columns[i]);
            }
            assert forall|i: int| 0 <= i < view.foundations@.len() implies showable(
                #[trigger] view.foundations@[i],
            ) by {
                assert(m.foundations[i].rank <= 13);
            }
            assert forall|i: int| 0 <= i < view.free_cells@.len() implies (
            #[trigger] view.free_cells@[i] matches Some(c) ==> showable(c)) by {
                assert(m.free_cells[i] matches Some(c) ==> c.valid());
            }
            match m.floating {
                Some(c) => {
                    assert(view.floating->Some_0@ == seq![c]);
                    assert(all_showable(seq![c]));
                },
                None => {
                    if m.floating_stack is Some {
                        lemma_valid_showable(m.floating_stack->Some_0);
                    }
                },
            }
        }
        view.text()
    }
}

/// A fresh board with the given tableau.
pub fn game_from_columns(columns: Vec<Vec<Card>>) -> (r: Game)
    requires
        forall|i: int| 0 <= i < columns@.len() ==> all_valid(#[trigger] columns@[i]@),
    ensures
        r.model() == board_with_columns(column_views(columns@)),
        r.model().wf(),
{
    let r = Game::empty_with_columns(columns);
    proof {
        use_type_invariant(&r);
    }
    r
}

/// The plain contents of a board, for saving and loading.
#[derive(Clone, Debug, PartialEq, Eq)]
pub struct StateContainer {
    pub columns: Vec<Vec<Card>>,
    pub foundations: Vec<Card>,
    pub free_cells: Vec<Option<Card>>,
    pub floating: Option<Card>,
    pub floating_stack: Option<Vec<Card>>,
}

impl StateContainer {
    pub open spec fn model(&self) -> GameModel {
        GameModel {
            columns: column_views(self.columns@),
            foundations: self.foundations@,
            free_cells: self.free_cells@,
            floating: self.floating,
            floating_stack: stack_view(self.floating_stack),
        }
    }

    /// Whether these contents form a board: four foundations in suit order,
    /// four free cells, dealt cards only, and at most one kind of held cards.
    pub fn is_valid(&self) -> (r: bool)
        ensures
            r == self.model().wf(),
    {
        let ghost m = self.model();
        if self.foundations.len() != 4 || self.free_cells.len() != 4 {
            return false;
        }
        let mut k: usize = 0;
        while k < 4
            invariant
                k <= 4,
                m == self.model(),
                self.foundations@.len() == 4,
                self.free_cells@.len() == 4,
                forall|j: int|
                    0 <= j < k ==> (#[trigger] m.foundations[j]).suit == Suit::at_index(j)
                        && m.foundations[j].rank <= 13,
                forall|j: int| 0 <= j < k ==> (#[trigger] m.free_cells[j] matches Some(c) ==> c.valid()),
            decreases 4 - k,
        {
            let f = self.foundations[k];
            match Suit::from_index(k) {
                Some(suit) => {
                    if f.suit != suit || f.rank > 13 {
                        return false;
                    }
                },
                None => {
                    return false;
                },
            }
            match self.free_cells[k] {
                Some(c) => {
                    if !card_valid(c) {
                        return false;
                    }
                },
                None => {},
            }
            k += 1;
        }
        let mut i: usize = 0;
        while i < self.columns.len()
            invariant
                i <= self.columns@.len(),
                m == self.model(),
                forall|j: int| 0 <= j < i ==> all_valid(#[trigger] m.columns[j]),
            decreases self.columns.len() - i,
        {
            assert(m.columns[i as int] == self.columns@[i as int]@);
            if !cards_valid(&self.columns[i]) {
                return false;
            }
            i += 1;
        }
        match self.floating {
            Some(c) => {
                if !card_valid(c) || self.floating_stack.is_some() {
                    return false;
                }
            },
            None => {},
        }
        match &self.floating_stack {
            Some(cards) => cards.len() > 0 && cards_valid(cards),
            None => true,
        }
    }
}

fn card_valid(c: Card) -> (r: bool)
    ensures
        r == c.valid(),
{
    1 <= c.rank && c.rank <= 13
}

fn cards_valid(v: &Vec<Card>) -> (r: bool)
    ensures
        r == all_valid(v@),
{
    let mut k: usize = 0;
    while k < v.len()
        invariant
            k <= v@.len(),
            forall|j: int| 0 <= j < k ==> (#[trigger] v@[j]).valid(),
        decreases v.len() - k,
    {
        if !card_valid(v[k]) {
            return false;
        }
        k += 1;
    }
    true
}

/// The contents of a board.
pub fn game_get_state(game: &Game) -> (r: StateContainer)
    ensures
        r.model() == game.model(),
        r.model().wf(),
{
    proof {
        use_type_invariant(game);
    }
    let copy = game.duplicate();
    let Game { columns, foundations, free_cells, floating, floating_stack } = copy;
    StateContainer { columns, foundations, free_cells, floating, floating_stack }
}

/// The board with the given contents.
pub fn game_from_state(state: StateContainer) -> (r: Game)
    requires
        state.model().wf(),
    ensures
        r.model() == state.model(),
{
    let StateContainer { columns, foundations, free_cells, floating, floating_stack } = state;
    Game { columns, foundations, free_cells, floating, floating_stack }
}

} // verus!

//! Plain-text renderings of cards, addresses, errors and boards.

use vstd::prelude::*;
use vstd::string::StringExecFns;

use crate::card::{Card, CardAddress, Suit};
use crate::error::{MoveError, PickUpReason, PlaceReason};
use crate::game::{column_views, stack_view, GameView};
use crate::model::{all_valid, GameModel};
use crate::undo::{boards_view, history_view, GameUndoStack, UndoModel};

verus! {

/// The character of a decimal digit.
pub open spec fn digit_char(d: nat) -> char {
    if d == 0 {
        '0'
    } else if d == 1 {
        '1'
    } else if d == 2 {
        '2'
    } else if d == 3 {
        '3'
    } else if d == 4 {
        '4'
    } else if d == 5 {
        '5'
    } else if d == 6 {
        '6'
    } else if d == 7 {
        '7'
    } else if d == 8 {
        '8'
    } else {
        '9'
    }
}

/// The decimal digits of `n`, most significant first.
pub open spec fn decimal(n: nat) -> Seq<char>
    decreases n,
{
    if n < 10 {
        seq![digit_char(n)]
    } else {
        decimal(n / 10) + seq![digit_char(n % 10)]
    }
}

fn digit_str(d: usize) -> (r: &'static str)
    requires
        d < 10,
    ensures
        r@ == seq![digit_char(d as nat)],
{
    proof {
        reveal_strlit("0");
        reveal_strlit("1");
        reveal_strlit("2");
        reveal_strlit("3");
        reveal_strlit("4");
        reveal_strlit("5");
        reveal_strlit("6");
        reveal_strlit("7");
        reveal_strlit("8");
        reveal_strlit("9");
    }
    match d {
        0 => "0",
        1 => "1",
        2 => "2",
        3 => "3",
        4 => "4",
        5 => "5",
        6 => "6",
        7 => "7",
        8 => "8",
        _ => "9",
    }
}

/// `n` written in decimal.
pub fn decimal_text(n: usize) -> (r: String)
    ensures
        r@ == decimal(n as nat),
    decreases n,
{
    if n < 10 {
        String::from_str(digit_str(n))
    } else {
        let mut r = decimal_text(n / 10);
        r.append(digit_str(n % 10));
        r
    }
}

pub open spec fn suit_symbol(suit: Suit) -> Seq<char> {
    match suit {
        Suit::Clubs => "\u{2663}"@,
        Suit::Diamonds => "\u{2666}"@,
        Suit::Hearts => "\u{2665}"@,
        Suit::Spades => "\u{2660}"@,
    }
}

/// The rank as shown on a card: its number, or J, Q and K for the faces.
pub open spec fn rank_text(rank: u8) -> Seq<char> {
    if rank == 11 {
        "J"@
    } else if rank == 12 {
        "Q"@
    } else if rank == 13 {
        "K"@
    } else {
        decimal(rank as nat)
    }
}

/// A card as text: rank then suit symbol; the empty-foundation marker is
/// blank.
pub open spec fn card_text(card: Card) -> Seq<char> {
    if card.rank == 0 {
        "   "@
    } else {
        rank_text(card.rank) + suit_symbol(card.suit)
    }
}

pub open spec fn address_text(address: CardAddress) -> Seq<char> {
    match address {
        CardAddress::Column(i) => "column "@ + decimal(i as nat),
        CardAddress::Foundation(s) => "foundation "@ + suit_symbol(s),
        CardAddress::FreeCell(i) => "free cell "@ + decimal(i as nat),
    }
}

impl Suit {
    /// The suit's symbol.
    pub fn symbol(&self) -> (r: &'static str)
        ensures
            r@ == suit_symbol(*self),
    {
        match self {
            Suit::Clubs => "\u{2663}",
            Suit::Diamonds => "\u{2666}",
            Suit::Hearts => "\u{2665}",
            Suit::Spades => "\u{2660}",
        }
    }
}

impl Card {
    /// The card as text, for example `10♥` or `Q♠`.
    pub fn text(&self) -> (r: String)
        requires
            self.rank <= 13,
        ensures
            r@ == card_text(*self),
    {
        if self.rank == 0 {
            return String::from_str("   ");
        }
        let mut r = match self.rank {
            11 => String::from_str("J"),
            12 => String::from_str("Q"),
            13 => String::from_str("K"),
            n => decimal_text(n as usize),
        };
        r.append(self.suit.symbol());
        r
    }
}

impl CardAddress {
    /// The address as text, for example `column 3`.
    pub fn text(&self) -> (r: String)
        ensures
            r@ == address_text(*self),
    {
        match self {
            CardAddress::Column(i) => {
                let mut r = String::from_str("column ");
                r.append(decimal_text(*i).as_str());
                r
            },
            CardAddress::Foundation(s) => {
                let mut r = String::from_str("foundation ");
                r.append(s.symbol());
                r
            },
            CardAddress::FreeCell(i) => {
                let mut r = String::from_str("free cell ");
                r.append(decimal_text(*i).as_str());
                r
            },
        }
    }
}

pub open spec fn pick_up_reason_text(reason: PickUpReason) -> Seq<char> {
    match reason {
        PickUpReason::AlreadyHolding => "already holding cards"@,
        PickUpReason::EmptyAddress => "empty address"@,
        PickUpReason::MoveOffFoundation => "cannot move off foundation"@,
        PickUpReason::EmptyStack => "cannot pick up zero-card stack"@,
        PickUpReason::UnsoundStack => "cards in stack don't stack"@,
        PickUpReason::StackTooLarge => "cannot pick up that many cards at once"@,
        PickUpReason::StackLargerThanColumn => "there are not that many cards in that column"@,
        PickUpReason::OnlyFromColumn => "cannot pick up a stack from anywhere except a column"@,
    }
}

pub open spec fn place_reason_text(reason: PlaceReason) -> Seq<char> {
    match reason {
        PlaceReason::DoesNotFit => "those cards do not fit there"@,
        PlaceReason::NoCardsHeld => "cannot place cards when not holding cards"@,
    }
}

pub open spec fn error_text(e: MoveError) -> Seq<char> {
    match e {
        MoveError::CannotPlace { reason, to } => "cannot move current cards to "@ + address_text(to)
            + ": "@ + place_reason_text(reason),
        MoveError::CannotPickUp { reason, from } => "cannot pick up cards from "@ + address_text(
            from,
        ) + ": "@ + pick_up_reason_text(reason),
        MoveError::IllegalAddress { address } => "address "@ + address_text(address)
            + " does not exist on the board"@,
    }
}

impl MoveError {
    /// The error as a sentence, for example
    /// `cannot pick up cards from column 2: empty address`.
    pub fn text(&self) -> (r: String)
        ensures
            r@ == error_text(*self),
    {
        match self {
            MoveError::CannotPlace { reason, to } => {
                let mut r = String::from_str("cannot move current cards to ");
                r.append(to.text().as_str());
                r.append(": ");
                r.append(reason.message());
                r
            },
            MoveError::CannotPickUp { reason, from } => {
                let mut r = String::from_str("cannot pick up cards from ");
                r.append(from.text().as_str());
                r.append(": ");
                r.append(reason.message());
                r
            },
            MoveError::IllegalAddress { address } => {
                let mut r = String::from_str("address ");
                r.append(address.text().as_str());
                r.append(" does not exist on the board");
                r
            },
        }
    }
}

/// The parts joined in order.
pub open spec fn concat_all(parts: Seq<Seq<char>>) -> Seq<char>
    decreases parts.len(),
{
    if parts.len() == 0 {
        Seq::empty()
    } else {
        concat_all(parts.drop_last()) + parts.last()
    }
}

/// Whether a card can be shown: a rank up to the king, or the empty marker.
pub open spec fn showable(card: Card) -> bool {
    card.rank <= 13
}

pub open spec fn all_showable(cards: Seq<Card>) -> bool {
    forall|k: int| 0 <= k < cards.len() ==> showable(#[trigger] cards[k])
}

/// A free cell: its card and a space, or four spaces.
pub open spec fn cell_text(cell: Option<Card>) -> Seq<char> {
    match cell {
        Some(card) => card_text(card) + " "@,
        None => "    "@,
    }
}

pub open spec fn foundation_text(top: Card) -> Seq<char> {
    card_text(top) + " "@
}

/// One column's share of tableau row `row`.
pub open spec fn column_cell(column: Seq<Card>, row: int) -> Seq<char> {
    if row < column.len() {
        card_text(column[row]) + " "@
    } else {
        "    "@
    }
}

pub open spec fn row_cells(columns: Seq<Seq<Card>>, row: int) -> Seq<Seq<char>> {
    columns.map_values(|column: Seq<Card>| column_cell(column, row))
}

pub open spec fn row_text(columns: Seq<Seq<Card>>, row: int) -> Seq<char> {
    concat_all(row_cells(columns, row))
}

pub open spec fn cell_parts(cells: Seq<Option<Card>>) -> Seq<Seq<char>> {
    cells.map_values(|cell: Option<Card>| cell_text(cell))
}

pub open spec fn foundation_parts(tops: Seq<Card>) -> Seq<Seq<char>> {
    tops.map_values(|top: Card| foundation_text(top))
}

pub open spec fn held_parts(cards: Seq<Card>) -> Seq<Seq<char>> {
    cards.map_values(|card: Card| card_text(card) + ","@)
}

/// The length of the longest column.
pub open spec fn height(columns: Seq<Seq<Card>>) -> int
    decreases columns.len(),
{
    if columns.len() == 0 {
        0
    } else {
        let rest = height(columns.drop_last());
        if columns.last().len() > rest {
            columns.last().len() as int
        } else {
            rest
        }
    }
}

/// The first `n` tableau rows, each on a line of its own.
pub open spec fn rows_text(columns: Seq<Seq<Card>>, n: int) -> Seq<char>
    decreases n,
{
    if n <= 0 {
        Seq::empty()
    } else {
        rows_text(columns, n - 1) + "\n"@ + row_text(columns, n - 1)
    }
}

pub open spec fn held_text(cards: Seq<Card>) -> Seq<char> {
    concat_all(held_parts(cards))
}

/// A board as text: free cells and foundations on the first line, then the
/// tableau row by row, then the held cards after an arrow.
pub open spec fn board_text(
    columns: Seq<Seq<Card>>,
    foundations: Seq<Card>,
    free_cells: Seq<Option<Card>>,
    held: Option<Seq<Card>>,
) -> Seq<char> {
    concat_all(cell_parts(free_cells)) + concat_all(foundation_parts(foundations)) + "\n"@ + rows_text(columns, height(columns)) + "\n"@ + match held {
        Some(cards) => "\n-> "@ + held_text(cards),
        None => Seq::empty(),
    }
}

proof fn lemma_concat_step(parts: Seq<Seq<char>>, k: int)
    requires
        0 <= k < parts.len(),
    ensures
        concat_all(parts.subrange(0, k + 1)) == concat_all(parts.subrange(0, k)) + parts[k],
{
    assert(parts.subrange(0, k + 1).drop_last() =~= parts.subrange(0, k));
}

proof fn lemma_height_bounds(columns: Seq<Seq<Card>>)
    ensures
        height(columns) >= 0,
        forall|i: int| 0 <= i < columns.len() ==> (#[trigger] columns[i]).len() <= height(columns),
        columns.len() > 0 ==> exists|i: int|
            0 <= i < columns.len() && (#[trigger] columns[i]).len() == height(columns),
        columns.len() == 0 ==> height(columns) == 0,
    decreases columns.len(),
{
    if columns.len() > 0 {
        let rest = columns.drop_last();
        lemma_height_bounds(rest);
        assert forall|i: int| 0 <= i < columns.len() implies (#[trigger] columns[i]).len() <= height(
            columns,
        ) by {
            if i < rest.len() {
                assert(columns[i] == rest[i]);
            }
        }
        if columns.last().len() <= height(rest) && rest.len() > 0 {
            let i = choose|i: int| 0 <= i < rest.len() && (#[trigger] rest[i]).len() == height(rest);
            assert(columns[i] == rest[i]);
        }
    }
}

fn cards_text(cards: &Vec<Card>) -> (r: String)
    requires
        all_showable(cards@),
    ensures
        r@ == held_text(cards@),
{
    let ghost parts = held_parts(cards@);
    let mut r = String::new();
    let mut k: usize = 0;
    while k < cards.len()
        invariant
            k <= cards@.len(),
            all_showable(cards@),
            parts == held_parts(cards@),
            r@ == concat_all(parts.subrange(0, k as int)),
        decreases cards.len() - k,
    {
        proof {
            lemma_concat_step(parts, k as int);
        }
        r.append(cards[k].text().as_str());
        r.append(",");
        k += 1;
    }
    assert(parts.subrange(0, k as int) =~= parts);
    r
}

impl GameView {
    /// The board as text: the free cells and foundations, then the tableau
    /// row by row, then the held cards.
    pub fn text(&self) -> (r: String)
        requires
            forall|i: int| 0 <= i < self.columns@.len() ==> all_showable(#[trigger] self.columns@[i]@),
            all_showable(self.foundations@),
            forall|i: int|
                0 <= i < self.free_cells@.len() ==> (#[trigger] self.free_cells@[i] matches Some(c)
                    ==> showable(c)),
            self.floating matches Some(cards) ==> all_showable(cards@),
        ensures
            r@ == board_text(
                column_views(self.columns@),
                self.foundations@,
                self.free_cells@,
                stack_view(self.floating),
            ),
    {
        let ghost columns = column_views(self.columns@);
        let ghost cells = cell_parts(self.free_cells@);
        let ghost tops = foundation_parts(self.foundations@);
        let mut r = String::new();
        let mut k: usize = 0;
        while k < self.free_cells.len()
            invariant
                k <= self.free_cells@.len(),
                cells == cell_parts(self.free_cells@),
                forall|i: int|
                    0 <= i < self.free_cells@.len() ==> (#[trigger] self.free_cells@[i] matches Some(
                        c,
                    ) ==> showable(c)),
                r@ == concat_all(cells.subrange(0, k as int)),
            decreases self.free_cells.len() - k,
        {
            proof {
                lemma_concat_step(cells, k as int);
            }
            match self.free_cells[k] {
                Some(card) => {
                    r.append(card.text().as_str());
                    r.append(" ");
                },
                None => {
                    r.append("    ");
                },
            }
            k += 1;
        }
        assert(cells.subrange(0, k as int) =~= cells);
        let ghost first = r@;
        let mut k: usize = 0;
        while k < self.foundations.len()
            invariant
                k <= self.foundations@.len(),
                tops == foundation_parts(self.foundations@),
                all_showable(self.foundations@),
                r@ == first + concat_all(tops.subrange(0, k as int)),
            decreases self.foundations.len() - k,
        {
            proof {
                lemma_concat_step(tops, k as int);
            }
            r.append(self.foundations[k].text().as_str());
            r.append(" ");
            k += 1;
        }
        assert(tops.subrange(0, k as int) =~= tops);
        r.append("\n");
        let ghost header = r@;
        proof {
            lemma_height_bounds(columns);
        }
        let mut row: usize = 0;
        loop
            invariant
                columns == column_views(self.columns@),
                forall|i: int| 0 <= i < self.columns@.len() ==> all_showable(#[trigger] self.columns@[i]@),
                row as int <= height(columns),
                height(columns) >= 0,
                forall|i: int| 0 <= i < columns.len() ==> (#[trigger] columns[i]).len() <= height(columns),
                columns.len() > 0 ==> exists|i: int|
                    0 <= i < columns.len() && (#[trigger] columns[i]).len() == height(columns),
                columns.len() == 0 ==> height(columns) == 0,
                r@ == header + rows_text(columns, row as int),
            ensures
                row as int == height(columns),
                r@ == header + rows_text(columns, row as int),
            decreases height(columns) - row,
        {
            let mut line = String::new();
            let mut printed = false;
            let ghost parts = row_cells(columns, row as int);
            let mut c: usize = 0;
            while c < self.columns.len()
                invariant
                    c <= self.columns@.len(),
                    columns == column_views(self.columns@),
                    parts == row_cells(columns, row as int),
                    forall|i: int| 0 <= i < self.columns@.len() ==> all_showable(#[trigger] self.columns@[i]@),
                    line@ == concat_all(parts.subrange(0, c as int)),
                    printed <==> exists|i: int| 0 <= i < c && row < (#[trigger] columns[i]).len(),
                    printed ==> row < usize::MAX,
                decreases self.columns.len() - c,
            {
                proof {
                    lemma_concat_step(parts, c as int);
                }
                assert(columns[c as int] == self.columns@[c as int]@);
                let column = &self.columns[c];
                if row < column.len() {
                    line.append(column[row].text().as_str());
                    line.append(" ");
                    printed = true;
                } else {
                    line.append("    ");
                }
                c += 1;
            }
            assert(parts.subrange(0, c as int) =~= parts);
            if !printed {
                proof {
                    if columns.len() > 0 {
                        let i = choose|i: int|
                            0 <= i < columns.len() && (#[trigger] columns[i]).len() == height(columns);
                        assert(!(row < columns[i].len()));
                    }
                }
                break ;
            }
            proof {
                let i = choose|i: int| 0 <= i < c && row < (#[trigger] columns[i]).len();
                assert(columns[i] == self.columns@[i]@);
            }
            r.append("\n");
            r.append(line.as_str());
            row += 1;
        }
        assert(row as int == height(columns));
        r.append("\n");
        match &self.floating {
            Some(cards) => {
                r.append("\n-> ");
                r.append(cards_text(cards).as_str());
            },
            None => {},
        }
        r
    }
}

/// A board model as text.
pub open spec fn model_text(m: GameModel) -> Seq<char> {
    board_text(m.columns, m.foundations, m.free_cells, m.held())
}

pub open spec fn entry_text(entry: (bool, GameModel)) -> Seq<char> {
    (if entry.0 {
        "\n  sneak:"@
    } else {
        Seq::empty()
    }) + "\n"@ + model_text(entry.1)
}

pub open spec fn history_parts(history: Seq<(bool, GameModel)>) -> Seq<Seq<char>> {
    history.map_values(|entry: (bool, GameModel)| entry_text(entry))
}

pub open spec fn redo_parts(redo: Seq<GameModel>) -> Seq<Seq<char>> {
    redo.map_values(|m: GameModel| "\n"@ + model_text(m))
}

/// An undo history as text: the recorded boards, oldest first and marked
/// when left by an automatic move, then the undone boards.
pub open spec fn undo_text(u: UndoModel) -> Seq<char> {
    "UNDO:"@ + concat_all(history_parts(u.history)) + "\nREDO:"@ + concat_all(redo_parts(u.redo))
}

pub(crate) proof fn lemma_valid_showable(cards: Seq<Card>)
    requires
        all_valid(cards),
    ensures
        all_showable(cards),
{
    assert forall|k: int| 0 <= k < cards.len() implies showable(#[trigger] cards[k]) by {
        assert(cards[k].valid());
    }
}

impl GameUndoStack {
    /// The history as text: `UNDO:` and the recorded boards, oldest first,
    /// each board left by an automatic move marked `sneak:`; then `REDO:`
    /// and the undone boards.
    pub fn text(&self) -> (r: String)
        ensures
            r@ == undo_text(self@),
    {
        let history = self.history();
        let redo = self.redo_stack();
        let ghost hp = history_parts(self@.history);
        let ghost rp = redo_parts(self@.redo);
        let mut r = String::from_str("UNDO:");
        proof {
            reveal_strlit("UNDO:");
        }
        let ghost start = r@;
        let mut k: usize = 0;
        while k < history.len()
            invariant
                k <= history@.len(),
                history_view(history@) == self@.history,
                hp == history_parts(self@.history),
                r@ == start + concat_all(hp.subrange(0, k as int)),
            decreases history.len() - k,
        {
            proof {
                lemma_concat_step(hp, k as int);
                assert(history_view(history@)[k as int] == (history@[k as int].0, history@[k as int].1.model()));
            }
            let entry = &history[k];
            if entry.0 {
                r.append("\n  sneak:");
            }
            r.append("\n");
            r.append(entry.1.text().as_str());
            k += 1;
        }
        assert(hp.subrange(0, k as int) =~= hp);
        r.append("\nREDO:");
        let ghost middle = r@;
        let mut k: usize = 0;
        while k < redo.len()
            invariant
                k <= redo@.len(),
                boards_view(redo@) == self@.redo,
                rp == redo_parts(self@.redo),
                r@ == middle + concat_all(rp.subrange(0, k as int)),
            decreases redo.len() - k,
        {
            proof {
                lemma_concat_step(rp, k as int);
                assert(boards_view(redo@)[k as int] == redo@[k as int].model());
            }
            r.append("\n");
            r.append(redo[k].text().as_str());
            k += 1;
        }
        assert(rp.subrange(0, k as int) =~= rp);
        r
    }
}

} // verus!

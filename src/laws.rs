//! Properties that hold across moves: conservation of cards, foundations
//! that only climb, round trips, and undo passing over automatic moves.

use vstd::multiset::Multiset;
use vstd::prelude::*;

use crate::card::{Card, CardAddress, Suit};
use crate::error::{MoveError, PickUpReason};
use crate::deal::{lemma_standard_deck_counts, standard_deck};
use crate::model::{
    all_valid, auto_safe, cell_multisets, column_multisets, count_empty, foundation_cards,
    foundation_multisets, lemma_sum_update, option_cards, option_seq_cards, sum_multisets,
    GameModel,
};
use crate::undo::UndoModel;

verus! {

/// A move tried on a board.
#[derive(Clone, Copy, Debug, PartialEq, Eq, Structural)]
pub enum Move {
    PickUpCard(CardAddress),
    PickUpStack(CardAddress, usize),
    Place(CardAddress),
    AutoMove,
}

/// The board after trying `m` on `g`: a rejected move leaves it as it was.
pub open spec fn apply(g: GameModel, m: Move) -> GameModel {
    let outcome = match m {
        Move::PickUpCard(a) => g.after_pick_up_card(a),
        Move::PickUpStack(a, n) => g.after_pick_up_stack(a, n),
        Move::Place(a) => g.after_place(a),
        Move::AutoMove => match g.after_auto_move() {
            Some(h) => Ok(h),
            None => Err(MoveError::IllegalAddress { address: CardAddress::Column(0) }),
        },
    };
    match outcome {
        Ok(h) => h,
        Err(_) => g,
    }
}

/// The board after trying each of `moves` in turn.
pub open spec fn apply_all(g: GameModel, moves: Seq<Move>) -> GameModel
    decreases moves.len(),
{
    if moves.len() == 0 {
        g
    } else {
        apply(apply_all(g, moves.drop_last()), moves.last())
    }
}

/// Each foundation keeps its suit and either stays or grows by one rank.
pub open spec fn foundations_advance(g: GameModel, h: GameModel) -> bool {
    &&& h.foundations.len() == g.foundations.len()
    &&& forall|i: int|
        0 <= i < g.foundations.len() ==> (#[trigger] h.foundations[i]).suit == g.foundations[i].suit
            && (h.foundations[i].rank == g.foundations[i].rank || h.foundations[i].rank
            == g.foundations[i].rank + 1)
}

proof fn lemma_valid_subrange(s: Seq<Card>, a: int, b: int)
    requires
        all_valid(s),
        0 <= a <= b <= s.len(),
    ensures
        all_valid(s.subrange(a, b)),
{
    assert forall|k: int| 0 <= k < b - a implies (#[trigger] s.subrange(a, b)[k]).valid() by {
        assert(s.subrange(a, b)[k] == s[a + k]);
    }
}

proof fn lemma_valid_concat(s: Seq<Card>, t: Seq<Card>)
    requires
        all_valid(s),
        all_valid(t),
    ensures
        all_valid(s + t),
{
    assert forall|k: int| 0 <= k < (s + t).len() implies (#[trigger] (s + t)[k]).valid() by {
        if k < s.len() {
            assert((s + t)[k] == s[k]);
        } else {
            assert((s + t)[k] == t[k - s.len()]);
        }
    }
}

/// Replacing column `i` by `x` trades the cards of the one for the other.
proof fn lemma_column_replaced(columns: Seq<Seq<Card>>, i: int, x: Seq<Card>)
    requires
        0 <= i < columns.len(),
    ensures
        sum_multisets(column_multisets(columns.update(i, x))).add(
            columns[i].to_multiset(),
        ) == sum_multisets(column_multisets(columns)).add(x.to_multiset()),
{
    let m = column_multisets(columns);
    assert(column_multisets(columns.update(i, x)) =~= m.update(
        i,
        x.to_multiset(),
    ));
    lemma_sum_update(m, i, x.to_multiset());
}

/// Columns that are all valid stay valid when column `i` is replaced by
/// valid cards.
proof fn lemma_columns_valid(columns: Seq<Seq<Card>>, i: int, x: Seq<Card>)
    requires
        0 <= i < columns.len(),
        forall|j: int| 0 <= j < columns.len() ==> all_valid(#[trigger] columns[j]),
        all_valid(x),
    ensures
        forall|j: int|
            0 <= j < columns.update(i, x).len() ==> all_valid(#[trigger] columns.update(i, x)[j]),
{
    assert forall|j: int| 0 <= j < columns.update(i, x).len() implies all_valid(
        #[trigger] columns.update(i, x)[j],
    ) by {
        if j != i {
            assert(columns.update(i, x)[j] == columns[j]);
        }
    }
}

proof fn lemma_add_count(a: Multiset<Card>, b: Multiset<Card>, x: Card)
    ensures
        a.add(b).count(x) == a.count(x) + b.count(x),
{
}

/// How many copies of `x` the board holds, part by part.
proof fn lemma_cards_count(g: GameModel, x: Card)
    ensures
        g.cards().count(x) == sum_multisets(column_multisets(g.columns)).count(x) + sum_multisets(
            foundation_multisets(g.foundations),
        ).count(x) + sum_multisets(cell_multisets(g.free_cells)).count(x) + option_cards(
            g.floating,
        ).count(x) + option_seq_cards(g.floating_stack).count(x),
{
    let a = sum_multisets(column_multisets(g.columns));
    let b = sum_multisets(foundation_multisets(g.foundations));
    let c = sum_multisets(cell_multisets(g.free_cells));
    let d = option_cards(g.floating);
    let e = option_seq_cards(g.floating_stack);
    lemma_add_count(a, b, x);
    lemma_add_count(a.add(b), c, x);
    lemma_add_count(a.add(b).add(c), d, x);
    lemma_add_count(a.add(b).add(c).add(d), e, x);
}

proof fn lemma_replaced_count(
    ah: Multiset<Card>,
    ag: Multiset<Card>,
    old: Multiset<Card>,
    new: Multiset<Card>,
    x: Card,
)
    requires
        ah.add(old) == ag.add(new),
    ensures
        ah.count(x) + old.count(x) == ag.count(x) + new.count(x),
{
    lemma_add_count(ah, old, x);
    lemma_add_count(ag, new, x);
}

/// Nothing held counts for nothing.
proof fn lemma_nothing_held(g: GameModel, x: Card)
    ensures
        g.floating is None ==> option_cards(g.floating).count(x) == 0,
        g.floating_stack is None ==> option_seq_cards(g.floating_stack).count(x) == 0,
{
}

proof fn lemma_pick_up_card_step(g: GameModel, address: CardAddress)
    requires
        g.wf(),
        g.after_pick_up_card(address) is Ok,
    ensures
        g.after_pick_up_card(address)->Ok_0.wf(),
        g.after_pick_up_card(address)->Ok_0.cards() == g.cards(),
        foundations_advance(g, g.after_pick_up_card(address)->Ok_0),
{
    let h = g.after_pick_up_card(address)->Ok_0;
    match address {
        CardAddress::Column(i) => {
            let col = g.columns[i as int];
            let rest = col.drop_last();
            lemma_column_replaced(g.columns, i as int, rest);
            assert(rest.push(col.last()) =~= col);
            rest.to_multiset_ensures();
            lemma_valid_subrange(col, 0, col.len() - 1);
            assert(col.drop_last() =~= col.subrange(0, col.len() - 1));
            lemma_columns_valid(g.columns, i as int, rest);
            assert(col.last() == col[col.len() - 1]);
            let one = Multiset::singleton(col.last());
            assert(col.to_multiset() == rest.to_multiset().add(one));
            assert(option_cards(h.floating) == one);
            let ah = sum_multisets(column_multisets(h.columns));
            let ag = sum_multisets(column_multisets(g.columns));
            assert forall|x: Card| #[trigger] h.cards().count(x) == g.cards().count(x) by {
                lemma_cards_count(h, x);
                lemma_cards_count(g, x);
                lemma_nothing_held(g, x);
                lemma_nothing_held(h, x);
                lemma_replaced_count(ah, ag, col.to_multiset(), rest.to_multiset(), x);
                lemma_add_count(rest.to_multiset(), one, x);
            }
            assert(h.cards() =~= g.cards());
        },
        CardAddress::FreeCell(i) => {
            let card = g.free_cells[i as int]->Some_0;
            let cells = cell_multisets(g.free_cells);
            assert(cell_multisets(h.free_cells) =~= cells.update(
                i as int,
                Multiset::empty(),
            ));
            lemma_sum_update(cells, i as int, Multiset::empty());
            assert(cells[i as int] == Multiset::singleton(card));
            let a = sum_multisets(cell_multisets(h.free_cells));
            let b = sum_multisets(cells);
            assert(a.add(Multiset::singleton(card)) =~= b);
            assert(h.floating == Some(card));
            assert(option_cards(h.floating) == Multiset::singleton(card));
            assert(option_cards(g.floating) =~= Multiset::<Card>::empty());
            assert(h.cards() =~= g.cards());
            assert forall|j: int| 0 <= j < 4 implies (#[trigger] h.free_cells[j] matches Some(
                c,
            ) ==> c.valid()) by {
                if j != i {
                    assert(h.free_cells[j] == g.free_cells[j]);
                }
            }
        },
        CardAddress::Foundation(_) => {},
    }
}

proof fn lemma_pick_up_stack_step(g: GameModel, address: CardAddress, count: usize)
    requires
        g.wf(),
        g.after_pick_up_stack(address, count) is Ok,
    ensures
        g.after_pick_up_stack(address, count)->Ok_0.wf(),
        g.after_pick_up_stack(address, count)->Ok_0.cards() == g.cards(),
        foundations_advance(g, g.after_pick_up_stack(address, count)->Ok_0),
{
    if count == 1 {
        lemma_pick_up_card_step(g, address);
    } else {
        let h = g.after_pick_up_stack(address, count)->Ok_0;
        let i = address->Column_0 as int;
        let col = g.columns[i];
        let split = col.len() - count;
        let rest = col.subrange(0, split);
        let run = col.subrange(split, col.len() as int);
        lemma_column_replaced(g.columns, i, rest);
        vstd::seq_lib::lemma_multiset_commutative(rest, run);
        assert(rest + run =~= col);
        lemma_valid_subrange(col, 0, split);
        lemma_valid_subrange(col, split, col.len() as int);
        lemma_columns_valid(g.columns, i, rest);
        assert(option_seq_cards(h.floating_stack) == run.to_multiset());
        let ah = sum_multisets(column_multisets(h.columns));
        let ag = sum_multisets(column_multisets(g.columns));
        assert forall|x: Card| #[trigger] h.cards().count(x) == g.cards().count(x) by {
            lemma_cards_count(h, x);
            lemma_cards_count(g, x);
            lemma_nothing_held(g, x);
            lemma_nothing_held(h, x);
            lemma_replaced_count(ah, ag, col.to_multiset(), rest.to_multiset(), x);
            lemma_add_count(rest.to_multiset(), run.to_multiset(), x);
        }
        assert(h.cards() =~= g.cards());
    }
}

proof fn lemma_place_step(g: GameModel, address: CardAddress)
    requires
        g.wf(),
        g.after_place(address) is Ok,
    ensures
        g.after_place(address)->Ok_0.wf(),
        g.after_place(address)->Ok_0.cards() == g.cards(),
        foundations_advance(g, g.after_place(address)->Ok_0),
{
    let h = g.after_place(address)->Ok_0;
    match address {
        CardAddress::Column(i) => {
            let col = g.columns[i as int];
            match g.floating {
                Some(card) => {
                    let x = col.push(card);
                    lemma_column_replaced(g.columns, i as int, x);
                    col.to_multiset_ensures();
                    assert(all_valid(seq![card]));
                    lemma_valid_concat(col, seq![card]);
                    assert(col + seq![card] =~= x);
                    lemma_columns_valid(g.columns, i as int, x);
                    let one = Multiset::singleton(card);
                    assert(x.to_multiset() == col.to_multiset().add(one));
                    assert(option_cards(g.floating) == one);
                    let ah = sum_multisets(column_multisets(h.columns));
                    let ag = sum_multisets(column_multisets(g.columns));
                    assert forall|y: Card| #[trigger] h.cards().count(y) == g.cards().count(y) by {
                        lemma_cards_count(h, y);
                        lemma_cards_count(g, y);
                        lemma_nothing_held(g, y);
                        lemma_nothing_held(h, y);
                        lemma_replaced_count(ah, ag, col.to_multiset(), x.to_multiset(), y);
                        lemma_add_count(col.to_multiset(), one, y);
                    }
                    assert(h.cards() =~= g.cards());
                },
                None => {
                    let cards = g.floating_stack->Some_0;
                    let x = col + cards;
                    lemma_column_replaced(g.columns, i as int, x);
                    vstd::seq_lib::lemma_multiset_commutative(col, cards);
                    lemma_valid_concat(col, cards);
                    lemma_columns_valid(g.columns, i as int, x);
                    assert(option_seq_cards(g.floating_stack) == cards.to_multiset());
                    let ah = sum_multisets(column_multisets(h.columns));
                    let ag = sum_multisets(column_multisets(g.columns));
                    assert forall|y: Card| #[trigger] h.cards().count(y) == g.cards().count(y) by {
                        lemma_cards_count(h, y);
                        lemma_cards_count(g, y);
                        lemma_nothing_held(g, y);
                        lemma_nothing_held(h, y);
                        lemma_replaced_count(ah, ag, col.to_multiset(), x.to_multiset(), y);
                        lemma_add_count(col.to_multiset(), cards.to_multiset(), y);
                    }
                    assert(h.cards() =~= g.cards());
                },
            }
        },
        CardAddress::Foundation(suit) => {
            let f = suit.spec_index();
            let card = g.floating->Some_0;
            let base = g.foundations[f];
            let tops = foundation_multisets(g.foundations);
            assert(foundation_multisets(h.foundations) =~= tops.update(
                f,
                foundation_cards(card),
            ));
            lemma_sum_update(tops, f, foundation_cards(card));
            assert(Card { rank: (card.rank - 1) as u8, suit: card.suit } == base);
            let one = Multiset::singleton(card);
            assert(foundation_cards(card) == foundation_cards(base).add(one));
            assert(tops[f] == foundation_cards(base));
            assert(option_cards(g.floating) == one);
            let fh = sum_multisets(foundation_multisets(h.foundations));
            let fg = sum_multisets(tops);
            assert forall|y: Card| #[trigger] h.cards().count(y) == g.cards().count(y) by {
                lemma_cards_count(h, y);
                lemma_cards_count(g, y);
                lemma_nothing_held(g, y);
                lemma_nothing_held(h, y);
                lemma_replaced_count(fh, fg, foundation_cards(base), foundation_cards(card), y);
                lemma_add_count(foundation_cards(base), one, y);
            }
            assert(h.cards() =~= g.cards());
            assert forall|j: int| 0 <= j < 4 implies (#[trigger] h.foundations[j]).suit
                == Suit::at_index(j) && h.foundations[j].rank <= 13 by {
                if j != f {
                    assert(h.foundations[j] == g.foundations[j]);
                }
            }
        },
        CardAddress::FreeCell(i) => {
            let card = g.floating->Some_0;
            let cells = cell_multisets(g.free_cells);
            assert(cell_multisets(h.free_cells) =~= cells.update(
                i as int,
                Multiset::singleton(card),
            ));
            lemma_sum_update(cells, i as int, Multiset::singleton(card));
            let one = Multiset::singleton(card);
            assert(cells[i as int] == option_cards(None));
            assert(option_cards(g.floating) == one);
            let ch = sum_multisets(cell_multisets(h.free_cells));
            let cg = sum_multisets(cells);
            assert forall|y: Card| #[trigger] h.cards().count(y) == g.cards().count(y) by {
                lemma_cards_count(h, y);
                lemma_cards_count(g, y);
                lemma_nothing_held(g, y);
                lemma_nothing_held(h, y);
                lemma_replaced_count(ch, cg, cells[i as int], one, y);
                assert(cells[i as int].count(y) == 0);
            }
            assert(h.cards() =~= g.cards());
            assert forall|j: int| 0 <= j < 4 implies (#[trigger] h.free_cells[j] matches Some(
                c,
            ) ==> c.valid()) by {
                if j != i {
                    assert(h.free_cells[j] == g.free_cells[j]);
                }
            }
        },
    }
}

proof fn lemma_first_auto_column(g: GameModel, k: int)
    requires
        0 <= k,
    ensures
        g.first_auto_column(k) matches Some(c) ==> k <= c < g.columns.len() && g.column_auto_safe(c),
    decreases g.columns.len() - k,
{
    if k < g.columns.len() && !g.column_auto_safe(k) {
        lemma_first_auto_column(g, k + 1);
    }
}

proof fn lemma_auto_move_step(g: GameModel)
    requires
        g.wf(),
        g.after_auto_move() is Some,
    ensures
        g.after_auto_move()->Some_0.wf(),
        g.after_auto_move()->Some_0.cards() == g.cards(),
        foundations_advance(g, g.after_auto_move()->Some_0),
{
    let h = g.after_auto_move()->Some_0;
    lemma_first_auto_column(g, 0);
    let k = g.first_auto_column(0)->Some_0;
    let col = g.columns[k];
    let card = col.last();
    let f = card.suit.spec_index();
    let base = g.foundations[f];
    assert(auto_safe(g.foundations, card.rank as int, card.suit));
    assert(all_valid(col));
    assert(col[col.len() - 1].valid());
    assert(base.rank == card.rank - 1);
    assert(base.suit == Suit::at_index(f));
    assert(Suit::at_index(card.suit.spec_index()) == card.suit);
    let rest = col.drop_last();
    lemma_column_replaced(g.columns, k, rest);
    assert(rest.push(card) =~= col);
    rest.to_multiset_ensures();
    lemma_valid_subrange(col, 0, col.len() - 1);
    assert(col.drop_last() =~= col.subrange(0, col.len() - 1));
    lemma_columns_valid(g.columns, k, rest);
    let tops = foundation_multisets(g.foundations);
    assert(foundation_multisets(h.foundations) =~= tops.update(
        f,
        foundation_cards(card),
    ));
    lemma_sum_update(tops, f, foundation_cards(card));
    assert(Card { rank: (card.rank - 1) as u8, suit: card.suit } == base);
    let one = Multiset::singleton(card);
    assert(foundation_cards(card) == foundation_cards(base).add(one));
    assert(tops[f] == foundation_cards(base));
    assert(col.to_multiset() == rest.to_multiset().add(one));
    let ah = sum_multisets(column_multisets(h.columns));
    let ag = sum_multisets(column_multisets(g.columns));
    let fh = sum_multisets(foundation_multisets(h.foundations));
    let fg = sum_multisets(tops);
    assert forall|y: Card| #[trigger] h.cards().count(y) == g.cards().count(y) by {
        lemma_cards_count(h, y);
        lemma_cards_count(g, y);
        lemma_nothing_held(g, y);
        lemma_nothing_held(h, y);
        lemma_replaced_count(ah, ag, col.to_multiset(), rest.to_multiset(), y);
        lemma_add_count(rest.to_multiset(), one, y);
        lemma_replaced_count(fh, fg, foundation_cards(base), foundation_cards(card), y);
        lemma_add_count(foundation_cards(base), one, y);
    }
    assert(h.cards() =~= g.cards());
    assert forall|j: int| 0 <= j < 4 implies (#[trigger] h.foundations[j]).suit == Suit::at_index(
        j,
    ) && h.foundations[j].rank <= 13 by {
        if j != f {
            assert(h.foundations[j] == g.foundations[j]);
        }
    }
}

/// One move, accepted or not, keeps the board invariant and every card on
/// the board, and moves each foundation up by at most one rank.
pub proof fn lemma_move_step(g: GameModel, m: Move)
    requires
        g.wf(),
    ensures
        apply(g, m).wf(),
        apply(g, m).cards() == g.cards(),
        foundations_advance(g, apply(g, m)),
{
    match m {
        Move::PickUpCard(a) => {
            if g.after_pick_up_card(a) is Ok {
                lemma_pick_up_card_step(g, a);
            }
        },
        Move::PickUpStack(a, n) => {
            if g.after_pick_up_stack(a, n) is Ok {
                lemma_pick_up_stack_step(g, a, n);
            }
        },
        Move::Place(a) => {
            if g.after_place(a) is Ok {
                lemma_place_step(g, a);
            }
        },
        Move::AutoMove => {
            if g.after_auto_move() is Some {
                lemma_auto_move_step(g);
            }
        },
    }
}

/// After any sequence of moves the board holds exactly the cards it held
/// before, none lost and none duplicated, and no foundation has gone down.
pub proof fn lemma_moves_keep_cards(g: GameModel, moves: Seq<Move>)
    requires
        g.wf(),
    ensures
        apply_all(g, moves).wf(),
        apply_all(g, moves).cards() == g.cards(),
        forall|i: int|
            0 <= i < 4 ==> (#[trigger] apply_all(g, moves).foundations[i]).rank
                >= g.foundations[i].rank,
    decreases moves.len(),
{
    if moves.len() > 0 {
        lemma_moves_keep_cards(g, moves.drop_last());
        let before = apply_all(g, moves.drop_last());
        lemma_move_step(before, moves.last());
        assert forall|i: int| 0 <= i < 4 implies (#[trigger] apply_all(g, moves).foundations[i]).rank
            >= g.foundations[i].rank by {
            assert(before.foundations[i].rank >= g.foundations[i].rank);
        }
    }
}

/// A board that holds the standard deck, as a new deal does, holds after any
/// sequence of moves every card of rank one to thirteen of every suit
/// exactly once, and nothing else.
pub proof fn lemma_moves_keep_full_deck(g: GameModel, moves: Seq<Move>, c: Card)
    requires
        g.wf(),
        g.cards() == standard_deck().to_multiset(),
    ensures
        apply_all(g, moves).cards().count(c) == if c.valid() {
            1nat
        } else {
            0nat
        },
{
    lemma_moves_keep_cards(g, moves);
    lemma_standard_deck_counts(c);
}

/// Picking up a card from a column or a free cell and placing it back where
/// it came from gives the board back, provided the card lies legally where it
/// came from: alone in its column or on a card it stacks on.
pub proof fn lemma_pick_up_place_round_trip(g: GameModel, address: CardAddress)
    requires
        g.wf(),
        g.after_pick_up_card(address) is Ok,
        address matches CardAddress::Column(i) ==> ({
            let col = g.columns[i as int];
            col.len() == 1 || col.last().spec_stacks_on(col[col.len() - 2])
        }),
    ensures
        g.after_pick_up_card(address)->Ok_0.after_place(address) == Ok::<GameModel, MoveError>(
            g,
        ),
{
    let h = g.after_pick_up_card(address)->Ok_0;
    match address {
        CardAddress::Column(i) => {
            let col = g.columns[i as int];
            assert(col.drop_last().push(col.last()) =~= col);
            assert(h.columns.update(i as int, col) =~= g.columns);
            if col.len() > 1 {
                assert(col.drop_last().last() == col[col.len() - 2]);
            }
        },
        CardAddress::FreeCell(i) => {
            assert(h.free_cells.update(i as int, g.free_cells[i as int]) =~= g.free_cells);
        },
        CardAddress::Foundation(_) => {},
    }
}

/// With every free cell full only single cards move: a run of more than one
/// card is too large, even where the column could give it. With every free
/// cell empty, runs of up to five cards may be picked up.
pub proof fn lemma_stack_size_follows_free_cells(g: GameModel, i: usize, count: usize)
    requires
        g.wf(),
    ensures
        (forall|j: int| 0 <= j < 4 ==> #[trigger] g.free_cells[j] is Some) ==> g.max_stack_size()
            == 1,
        (forall|j: int| 0 <= j < 4 ==> #[trigger] g.free_cells[j] is None) ==> g.max_stack_size()
            == 5,
        (forall|j: int| 0 <= j < 4 ==> #[trigger] g.free_cells[j] is Some) && !g.holding() && count
            > 1 && i < g.columns.len() && count <= g.columns[i as int].len() ==> g.after_pick_up_stack(
            CardAddress::Column(i),
            count,
        ) == Err::<GameModel, MoveError>(
            MoveError::CannotPickUp {
                reason: PickUpReason::StackTooLarge,
                from: CardAddress::Column(i),
            },
        ),
{
    let c = g.free_cells;
    reveal_with_fuel(count_empty, 5);
    assert(c.drop_last().drop_last().drop_last().drop_last().len() == 0);
    assert(c.drop_last().last() == c[2]);
    assert(c.drop_last().drop_last().last() == c[1]);
    assert(c.drop_last().drop_last().drop_last().last() == c[0]);
    assert(c.last() == c[3]);
    assert(count_empty(c) == count_empty(c.drop_last()) + if c[3] is None { 1nat } else { 0nat });
}

/// A card never stacks on itself.
pub proof fn lemma_no_card_stacks_on_itself(c: Card)
    ensures
        !c.spec_stacks_on(c),
{
}

/// One manual move from `a` to `b`, then an automatic move from `b` to `c`,
/// then one undo, gives `a` back: the undo passes over the automatic move.
/// The manual move must change the board and be a fresh one, not a move back
/// to one of the two newest boards of the history, and `a` must be a board
/// with nothing held.
pub proof fn lemma_undo_passes_over_sneak_move(
    u: UndoModel,
    a: GameModel,
    b: GameModel,
    c: GameModel,
)
    requires
        a != b,
        !a.holding(),
        u.rewind_point(b) is None,
    ensures
        u.after_update(a, b).after_sneak_update(b, c).after_undo(c).1 == a,
{
    let u1 = u.after_update(a, b);
    let u2 = u1.after_sneak_update(b, c);
    assert(u1.history == u.history.push((false, a)));
    assert(u2.history == u1.history.push((true, b)));
    assert(u2.history.drop_last() =~= u1.history);
    assert(crate::undo::last_manual(u1.history) == u.history.len());
}

/// A manual move made of a pick-up from `a` and a place at `b`, recorded
/// as two updates, then an automatic move recorded as a sneak update, then
/// one undo, gives back the board from before the manual move: the undo
/// passes over the automatic move and the held board between pick-up and
/// place. The manual move must change the board; the history must hold no
/// board with cards held and not the board the manual move leads to, so that
/// neither update goes back in history instead.
pub proof fn lemma_undo_reverses_manual_move(
    u: UndoModel,
    g0: GameModel,
    g1: GameModel,
    g2: GameModel,
    g3: GameModel,
    a: CardAddress,
    b: CardAddress,
)
    requires
        g0.wf(),
        !g0.holding(),
        g0.after_pick_up_card(a) == Ok::<GameModel, MoveError>(g1),
        g1.after_place(b) == Ok::<GameModel, MoveError>(g2),
        g2 != g0,
        forall|i: int|
            0 <= i < u.history.len() ==> !(#[trigger] u.history[i]).1.holding() && u.history[i].1
                != g2,
    ensures
        u.after_update(g0, g1).after_update(g1, g2).after_sneak_update(g2, g3).after_undo(g3).1
            == g0,
{
    let len = u.history.len();
    assert(g1.floating is Some && g1.floating_stack is None);
    assert(!g2.holding());
    if len >= 1 {
        assert(!u.history[len - 1].1.holding());
    }
    if len >= 2 {
        assert(!u.history[len - 2].1.holding());
    }
    assert(u.rewind_point(g1) is None);
    let u1 = u.after_update(g0, g1);
    assert(u1.history == u.history.push((false, g0)));
    assert(u1.history[len as int].1 == g0);
    if len >= 1 {
        assert(u1.history[len - 1] == u.history[len - 1]);
    }
    assert(u1.rewind_point(g2) is None);
    let u2 = u1.after_update(g1, g2);
    assert(u2.history == u1.history);
    let u3 = u2.after_sneak_update(g2, g3);
    assert(u3.history == u1.history.push((true, g2)));
    assert(u3.history.drop_last() =~= u1.history);
    assert(crate::undo::last_manual(u1.history) == len);
}

} // verus!

//! Building and dealing a shuffled deck.

use vstd::prelude::*;

use rand::seq::SliceRandom;
use rand_chacha::rand_core::SeedableRng;
use rand_chacha::ChaCha12Rng;

use crate::card::{Card, Suit};
use crate::game::{board_with_columns, column_views, Game};
use crate::model::{
    all_valid, cell_multisets, column_multisets, foundation_multisets, lemma_sum_of_empties,
    sum_multisets, GameModel,
};
use vstd::multiset::Multiset;

verus! {

/// The order of `deck` after a shuffle driven by a generator seeded with
/// `seed`.
pub uninterp spec fn seeded_shuffle(deck: Seq<Card>, seed: u64) -> Seq<Card>;

/// Relies on rand_chacha's `ChaCha12Rng::seed_from_u64` and rand's
/// `SliceRandom::shuffle`: the generator is fixed by the seed, and the shuffle
/// only swaps elements of the slice, so the result is a reordering of `deck`
/// that depends on `deck` and `seed` alone.
#[verifier::external_body]
fn shuffle_with_seed(deck: Vec<Card>, seed: u64) -> (r: Vec<Card>)
    ensures
        r@ == seeded_shuffle(deck@, seed),
        r@.to_multiset() == deck@.to_multiset(),
{
    let mut deck = deck;
    let mut rng = ChaCha12Rng::seed_from_u64(seed);
    deck.shuffle(&mut rng);
    deck
}

/// The suits in the order the deck is built.
pub open spec fn deck_suit(i: int) -> Suit {
    if i == 0 {
        Suit::Clubs
    } else if i == 1 {
        Suit::Diamonds
    } else if i == 2 {
        Suit::Spades
    } else {
        Suit::Hearts
    }
}

/// The thirteen cards of a suit, ace first.
pub open spec fn suit_cards(suit: Suit) -> Seq<Card> {
    Seq::new(13, |r: int| Card { rank: (r + 1) as u8, suit })
}

/// The cards of the first `n` suits of the deck, in order.
pub open spec fn deck_prefix(n: int) -> Seq<Card>
    decreases n,
{
    if n <= 0 {
        Seq::empty()
    } else {
        deck_prefix(n - 1) + suit_cards(deck_suit(n - 1))
    }
}

/// The unshuffled deck: every rank of every suit, once.
pub open spec fn standard_deck() -> Seq<Card> {
    deck_prefix(4)
}

/// Where column `k` starts in the shuffled deck: four columns of seven
/// cards, then four of six.
pub open spec fn column_start(k: int) -> int {
    if k <= 4 {
        7 * k
    } else {
        28 + 6 * (k - 4)
    }
}

/// The tableau dealt from `deck`.
pub open spec fn deal_columns(deck: Seq<Card>) -> Seq<Seq<Card>> {
    Seq::new(8, |k: int| deck.subrange(column_start(k), column_start(k + 1)))
}

/// The board dealt from the seed `seed`.
pub open spec fn dealt(seed: u64) -> GameModel {
    board_with_columns(deal_columns(seeded_shuffle(standard_deck(), seed)))
}

proof fn lemma_deck_prefix(n: int)
    requires
        0 <= n <= 4,
    ensures
        deck_prefix(n).len() == 13 * n,
        all_valid(deck_prefix(n)),
    decreases n,
{
    if n > 0 {
        lemma_deck_prefix(n - 1);
        let p = deck_prefix(n - 1);
        let s = suit_cards(deck_suit(n - 1));
        assert forall|k: int| 0 <= k < deck_prefix(n).len() implies (#[trigger] deck_prefix(
            n,
        )[k]).valid() by {
            if k >= p.len() {
                assert(deck_prefix(n)[k] == s[k - p.len()]);
            } else {
                assert(deck_prefix(n)[k] == p[k]);
            }
        }
    }
}

proof fn lemma_empty_seq_cards(s: Seq<Card>)
    requires
        s.len() == 0,
    ensures
        s.to_multiset() == Multiset::<Card>::empty(),
{
    s.to_multiset_ensures();
    assert(s.to_multiset() =~= Multiset::<Card>::empty());
}

/// The first `k` dealt columns hold the first cards of the deck, up to where
/// column `k` starts.
proof fn lemma_deal_prefix_cards(d: Seq<Card>, k: int)
    requires
        d.len() == 52,
        0 <= k <= 8,
    ensures
        sum_multisets(column_multisets(deal_columns(d).subrange(0, k)))
            == d.subrange(0, column_start(k)).to_multiset(),
    decreases k,
{
    let m = column_multisets(deal_columns(d).subrange(0, k));
    if k == 0 {
        lemma_empty_seq_cards(d.subrange(0, 0));
    } else {
        lemma_deal_prefix_cards(d, k - 1);
        let a = d.subrange(0, column_start(k - 1));
        let b = d.subrange(column_start(k - 1), column_start(k));
        assert(m.drop_last() =~= column_multisets(deal_columns(d).subrange(0, k - 1)));
        assert(m.last() == b.to_multiset());
        vstd::seq_lib::lemma_multiset_commutative(a, b);
        assert(a + b =~= d.subrange(0, column_start(k)));
    }
}

/// The board dealt from a deck holds exactly the cards of the deck.
proof fn lemma_dealt_cards(d: Seq<Card>)
    requires
        d.len() == 52,
    ensures
        board_with_columns(deal_columns(d)).cards() == d.to_multiset(),
{
    let g = board_with_columns(deal_columns(d));
    lemma_deal_prefix_cards(d, 8);
    assert(deal_columns(d).subrange(0, 8) =~= deal_columns(d));
    assert(d.subrange(0, 52) =~= d);
    lemma_sum_of_empties(foundation_multisets(g.foundations));
    lemma_sum_of_empties(cell_multisets(g.free_cells));
    assert(g.cards() =~= d.to_multiset());
}

/// Where `suit` comes in the order the deck is built.
pub open spec fn deck_position(suit: Suit) -> int {
    match suit {
        Suit::Clubs => 0,
        Suit::Diamonds => 1,
        Suit::Spades => 2,
        Suit::Hearts => 3,
    }
}

proof fn lemma_suit_prefix_count(suit: Suit, k: int, c: Card)
    requires
        0 <= k <= 13,
    ensures
        suit_cards(suit).subrange(0, k).to_multiset().count(c) == if c.suit == suit && 1 <= c.rank
            <= k {
            1nat
        } else {
            0nat
        },
    decreases k,
{
    let p = suit_cards(suit).subrange(0, k);
    if k == 0 {
        p.to_multiset_ensures();
        assert(!p.contains(c));
    } else {
        lemma_suit_prefix_count(suit, k - 1, c);
        let q = suit_cards(suit).subrange(0, k - 1);
        let top = Card { rank: k as u8, suit };
        assert(q.push(top) =~= p);
        q.to_multiset_ensures();
        assert(p.to_multiset() == q.to_multiset().insert(top));
        assert(p.to_multiset().count(c) == q.to_multiset().count(c) + if c == top {
            1nat
        } else {
            0nat
        });
    }
}

proof fn lemma_deck_prefix_count(n: int, c: Card)
    requires
        0 <= n <= 4,
    ensures
        deck_prefix(n).to_multiset().count(c) == if c.valid() && deck_position(c.suit) < n {
            1nat
        } else {
            0nat
        },
    decreases n,
{
    if n == 0 {
        deck_prefix(0).to_multiset_ensures();
        assert(!deck_prefix(0).contains(c));
    } else {
        lemma_deck_prefix_count(n - 1, c);
        let suit = deck_suit(n - 1);
        lemma_suit_prefix_count(suit, 13, c);
        assert(suit_cards(suit).subrange(0, 13) =~= suit_cards(suit));
        vstd::seq_lib::lemma_multiset_commutative(deck_prefix(n - 1), suit_cards(suit));
        assert(deck_prefix(n).to_multiset().count(c) == deck_prefix(n - 1).to_multiset().count(c)
            + suit_cards(suit).to_multiset().count(c));
        assert(c.suit == suit <==> deck_position(c.suit) == n - 1);
    }
}

/// The standard deck holds every card of rank one to thirteen of every suit
/// exactly once, and nothing else.
pub proof fn lemma_standard_deck_counts(c: Card)
    ensures
        standard_deck().to_multiset().count(c) == if c.valid() {
            1nat
        } else {
            0nat
        },
{
    lemma_deck_prefix_count(4, c);
}

fn build_deck() -> (r: Vec<Card>)
    ensures
        r@ == standard_deck(),
{
    let suits = vec![Suit::Clubs, Suit::Diamonds, Suit::Spades, Suit::Hearts];
    let mut deck: Vec<Card> = Vec::new();
    let mut s: usize = 0;
    while s < 4
        invariant
            s <= 4,
            suits@ == seq![Suit::Clubs, Suit::Diamonds, Suit::Spades, Suit::Hearts],
            deck@ == deck_prefix(s as int),
        decreases 4 - s,
    {
        let suit = suits[s];
        assert(suit == deck_suit(s as int));
        let mut rank: u8 = 1;
        while rank <= 13
            invariant
                1 <= rank <= 14,
                deck@ == deck_prefix(s as int) + suit_cards(suit).subrange(0, rank - 1),
            decreases 14 - rank,
        {
            deck.push(Card::new(rank, suit));
            rank += 1;
            assert(deck@ =~= deck_prefix(s as int) + suit_cards(suit).subrange(0, rank - 1));
        }
        assert(suit_cards(suit).subrange(0, 13) =~= suit_cards(suit));
        s += 1;
    }
    deck
}

impl Game {
    /// Shuffles the deck with a generator seeded by `seed` and deals it into
    /// eight columns, four of seven cards then four of six. The same seed
    /// always gives the same board.
    pub fn new_game(seed: u64) -> (r: Game)
        ensures
            r.model() == dealt(seed),
            r.model().wf(),
            r.model().cards() == standard_deck().to_multiset(),
            seeded_shuffle(standard_deck(), seed).to_multiset() == standard_deck().to_multiset(),
            r.model().columns.len() == 8,
            forall|k: int|
                0 <= k < 8 ==> (#[trigger] r.model().columns[k]).len() == if k < 4 {
                    7int
                } else {
                    6int
                },
    {
        let deck = build_deck();
        let shuffled = shuffle_with_seed(deck, seed);
        proof {
            lemma_deck_prefix(4);
            shuffled@.to_multiset_ensures();
            deck@.to_multiset_ensures();
        }
        assert(shuffled@.len() == 52);
        let mut columns: Vec<Vec<Card>> = Vec::new();
        let mut k: usize = 0;
        let mut start: usize = 0;
        while k < 8
            invariant
                k <= 8,
                shuffled@.len() == 52,
                start as int == column_start(k as int),
                columns@.len() == k,
                forall|j: int|
                    0 <= j < k ==> (#[trigger] columns@[j])@ == shuffled@.subrange(
                        column_start(j),
                        column_start(j + 1),
                    ),
            decreases 8 - k,
        {
            let size: usize = if k < 4 {
                7
            } else {
                6
            };
            let mut column: Vec<Card> = Vec::new();
            let mut m: usize = start;
            while m < start + size
                invariant
                    start <= m <= start + size,
                    start + size <= 52,
                    shuffled@.len() == 52,
                    column@ == shuffled@.subrange(start as int, m as int),
                decreases start + size - m,
            {
                column.push(shuffled[m]);
                m += 1;
                assert(column@ =~= shuffled@.subrange(start as int, m as int));
            }
            columns.push(column);
            start += size;
            k += 1;
        }
        let ghost tableau = deal_columns(seeded_shuffle(standard_deck(), seed));
        assert(column_views(columns@) =~= tableau);
        assert forall|i: int| 0 <= i < columns@.len() implies all_valid(#[trigger] columns@[i]@) by {
            assert forall|j: int| 0 <= j < columns@[i]@.len() implies (#[trigger] columns@[i]@[j]).valid() by {
                let c = columns@[i]@[j];
                assert(c == shuffled@[column_start(i) + j]);
                assert(shuffled@.contains(c));
                assert(shuffled@.to_multiset().count(c) > 0);
                assert(deck@.contains(c));
            }
        }
        let r = crate::game::game_from_columns(columns);
        proof {
            lemma_dealt_cards(shuffled@);
        }
        r
    }
}

} // verus!

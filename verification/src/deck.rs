use vstd::prelude::*;
use rand::seq::SliceRandom;

use crate::card::{Card, Suit, VALID_RANKS, valid_card};

verus! {

/// The suit of the `i`-th group of ten cards of a fresh deck.
pub open spec fn deck_suit(i: int) -> Suit {
    if i == 0 {
        Suit::Oros
    } else if i == 1 {
        Suit::Copas
    } else if i == 2 {
        Suit::Espadas
    } else {
        Suit::Bastos
    }
}

/// The `i`-th valid rank: 1 to 7, then 10, 11, 12.
pub open spec fn deck_rank(i: int) -> u8 {
    if i < 7 {
        (i + 1) as u8
    } else {
        (i + 3) as u8
    }
}

/// The 40 cards of a fresh deck: for each suit in turn, its ten ranks in order.
pub open spec fn standard_deck() -> Seq<Card> {
    Seq::new(40, |i: int| Card { suit: deck_suit(i / 10), rank: deck_rank(i % 10) })
}

/// Shuffles the cards in place with the thread-local generator.
///
/// Calls `rand::seq::SliceRandom::shuffle` on the slice with `rand::thread_rng()`.
/// Claimed: the result is a permutation of the input (the crate's source shuffles by
/// swapping elements). Which permutation comes out is left unsaid: it rests on chance.
#[verifier::external_body]
pub(crate) fn shuffle_cards(cards: &mut Vec<Card>)
    ensures
        final(cards)@.len() == old(cards)@.len(),
        final(cards)@.to_multiset() == old(cards)@.to_multiset(),
{
    cards.shuffle(&mut rand::thread_rng());
}

/// A pile of cards; the top of the pile is the end of the sequence.
#[derive(Clone)]
pub struct Deck {
    cards: Vec<Card>,
}

impl View for Deck {
    type V = Seq<Card>;

    closed spec fn view(&self) -> Seq<Card> {
        self.cards@
    }
}

impl Deck {
    /// A fresh 40-card Spanish deck, in suit order, each suit in rank order.
    pub fn new() -> (d: Deck)
        ensures
            d@ == standard_deck(),
    {
        let mut cards: Vec<Card> = Vec::new();
        let mut s: usize = 0;
        while s < 4
            invariant
                s <= 4,
                cards@ == standard_deck().take(10 * s as int),
            decreases 4 - s,
        {
            let suit = Suit::ALL[s];
            let mut r: usize = 0;
            while r < 10
                invariant
                    s < 4,
                    r <= 10,
                    suit == deck_suit(s as int),
                    cards@ == standard_deck().take(10 * s + r as int),
                decreases 10 - r,
            {
                let rank = VALID_RANKS[r];
                assert(rank == deck_rank(r as int));
                let c = Card::new(suit, rank);
                proof {
                    let k = 10 * s + r as int;
                    assert(k / 10 == s as int);
                    assert(k % 10 == r as int);
                    assert(standard_deck().take(k + 1) =~= standard_deck().take(k).push(c));
                }
                cards.push(c);
                r = r + 1;
            }
            s = s + 1;
        }
        assert(standard_deck().take(40) =~= standard_deck());
        Deck { cards }
    }

    /// Shuffles the deck: its cards come out in some order, none added or lost.
    pub fn shuffle(&mut self)
        ensures
            final(self)@.len() == old(self)@.len(),
            final(self)@.to_multiset() == old(self)@.to_multiset(),
    {
        shuffle_cards(&mut self.cards);
    }

    /// Takes the top card, if any.
    pub fn draw(&mut self) -> (c: Option<Card>)
        ensures
            old(self)@.len() == 0 ==> c is None && final(self)@ == old(self)@,
            old(self)@.len() > 0 ==> c == Some(old(self)@.last())
                && final(self)@ == old(self)@.drop_last(),
    {
        self.cards.pop()
    }

    /// Takes the top `n` cards (all of them if fewer remain), keeping their order.
    pub fn draw_n(&mut self, n: usize) -> (drawn: Vec<Card>)
        ensures
            drawn@.len() == if n <= old(self)@.len() { n as int } else { old(self)@.len() as int },
            final(self)@ + drawn@ == old(self)@,
    {
        let len = self.cards.len();
        let start = len.saturating_sub(n);
        let drawn = self.cards.split_off(start);
        assert(self.cards@ + drawn@ =~= old(self)@);
        drawn
    }

    /// The number of cards left.
    pub fn remaining(&self) -> (n: usize)
        ensures
            n == self@.len(),
    {
        self.cards.len()
    }

    /// Whether no card is left.
    pub fn is_empty(&self) -> (b: bool)
        ensures
            b <==> self@.len() == 0,
    {
        self.cards.is_empty()
    }

    /// A deck holding exactly the given cards, the last one on top.
    pub fn from_cards(cards: Vec<Card>) -> (d: Deck)
        ensures
            d@ == cards@,
    {
        Deck { cards }
    }

    /// The cards of the deck, bottom first.
    pub fn cards(&self) -> (s: &[Card])
        ensures
            s@ == self@,
    {
        self.cards.as_slice()
    }
}

impl Default for Deck {
    fn default() -> (d: Deck)
        ensures
            d@ == standard_deck(),
    {
        Deck::new()
    }
}

/// A fresh deck holds 40 cards, all valid and no two alike, and every valid card is among them.
pub proof fn lemma_standard_deck_complete()
    ensures
        standard_deck().len() == 40,
        forall|i: int| 0 <= i < 40 ==> #[trigger] valid_card(standard_deck()[i]),
        standard_deck().no_duplicates(),
        forall|c: Card| valid_card(c) ==> #[trigger] standard_deck().contains(c),
{
    let d = standard_deck();
    assert forall|i: int, j: int| 0 <= i < 40 && 0 <= j < 40 && i != j implies d[i] != d[j] by {
        if i / 10 == j / 10 {
            assert(i % 10 != j % 10);
        }
    }
    assert forall|c: Card| valid_card(c) implies #[trigger] d.contains(c) by {
        let s: int = match c.suit {
            Suit::Oros => 0,
            Suit::Copas => 1,
            Suit::Espadas => 2,
            Suit::Bastos => 3,
        };
        let r: int = if c.rank <= 7 { c.rank - 1 } else { c.rank - 3 };
        let k = 10 * s + r;
        assert(k / 10 == s);
        assert(k % 10 == r);
        assert(d[k] == c);
    }
}

} // verus!

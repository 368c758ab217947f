use vstd::prelude::*;
use vstd::string::*;

use crate::card::Card;

verus! {

/// A player's state within a round.
#[derive(Debug, Clone)]
pub struct Player {
    pub name: String,
    pub hand: Vec<Card>,
    pub captured: Vec<Card>,
    pub escobas: u32,
}

impl Player {
    /// A player with the given name, no cards and no escobas.
    pub fn new(name: &str) -> (p: Player)
        ensures
            p.name@ == name@,
            p.hand@ == Seq::<Card>::empty(),
            p.captured@ == Seq::<Card>::empty(),
            p.escobas == 0,
    {
        Player { name: String::from_str(name), hand: Vec::new(), captured: Vec::new(), escobas: 0 }
    }

    /// Adds the cards to the end of the hand.
    pub fn add_to_hand(&mut self, cards: Vec<Card>)
        ensures
            final(self).hand@ == old(self).hand@ + cards@,
            final(self).name == old(self).name,
            final(self).captured == old(self).captured,
            final(self).escobas == old(self).escobas,
    {
        let mut cards = cards;
        self.hand.append(&mut cards);
    }

    /// Removes the first card of the hand equal to `card`, if there is one.
    pub fn remove_from_hand(&mut self, card: &Card) -> (r: Option<Card>)
        ensures
            final(self).name == old(self).name,
            final(self).captured == old(self).captured,
            final(self).escobas == old(self).escobas,
            !old(self).hand@.contains(*card) ==> r is None && final(self).hand@ == old(self).hand@,
            old(self).hand@.contains(*card) ==> r == Some(*card) && exists|k: int|
                0 <= k < old(self).hand@.len() && old(self).hand@[k] == *card && (forall|j: int|
                    0 <= j < k ==> old(self).hand@[j] != *card) && final(self).hand@
                    == old(self).hand@.remove(k),
    {
        let mut i: usize = 0;
        while i < self.hand.len()
            invariant
                i <= self.hand@.len(),
                self.hand@ == old(self).hand@,
                self.name == old(self).name,
                self.captured == old(self).captured,
                self.escobas == old(self).escobas,
                forall|j: int| 0 <= j < i ==> self.hand@[j] != *card,
            decreases self.hand@.len() - i,
        {
            if self.hand[i] == *card {
                assert(old(self).hand@[i as int] == *card);
                let c = self.hand.remove(i);
                return Some(c);
            }
            i = i + 1;
        }
        None
    }

    /// Adds the cards to the end of the captured pile.
    pub fn capture(&mut self, cards: Vec<Card>)
        ensures
            final(self).captured@ == old(self).captured@ + cards@,
            final(self).name == old(self).name,
            final(self).hand == old(self).hand,
            final(self).escobas == old(self).escobas,
    {
        let mut cards = cards;
        self.captured.append(&mut cards);
    }

    /// Counts one more escoba.
    pub fn record_escoba(&mut self)
        requires
            old(self).escobas < u32::MAX,
        ensures
            final(self).escobas == old(self).escobas + 1,
            final(self).name == old(self).name,
            final(self).hand == old(self).hand,
            final(self).captured == old(self).captured,
    {
        self.escobas = self.escobas + 1;
    }

    /// Whether the hand holds no card.
    pub fn hand_is_empty(&self) -> (b: bool)
        ensures
            b <==> self.hand@.len() == 0,
    {
        self.hand.is_empty()
    }
}

} // verus!

use vstd::prelude::*;
use vstd::string::*;

use crate::card::{Card, Suit, valid_card, rank_word_es, suit_name, rank_word};

verus! {

/// The languages in which card names are given.
#[derive(Debug, Clone, Copy, PartialEq, Eq, Structural)]
pub enum Lang {
    Es,
    En,
}

/// The name of a suit in a language.
pub open spec fn suit_word(s: Suit, lang: Lang) -> Seq<char> {
    match lang {
        Lang::Es => suit_name(s),
        Lang::En => match s {
            Suit::Oros => "Coins"@,
            Suit::Copas => "Cups"@,
            Suit::Espadas => "Swords"@,
            Suit::Bastos => "Clubs"@,
        },
    }
}

/// The English word for a rank: "Ace", the digit for 2-7, "Jack", "Knight", "King".
pub open spec fn rank_word_en(rank: u8) -> Seq<char> {
    if rank == 1 {
        "Ace"@
    } else if rank == 10 {
        "Jack"@
    } else if rank == 11 {
        "Knight"@
    } else if rank == 12 {
        "King"@
    } else {
        rank_word_es(rank)
    }
}

/// The name of a card in a language: "Rey de Oros", "King of Coins".
pub open spec fn localized_name_of(c: Card, lang: Lang) -> Seq<char> {
    match lang {
        Lang::Es => rank_word_es(c.rank) + " de "@ + suit_word(c.suit, lang),
        Lang::En => rank_word_en(c.rank) + " of "@ + suit_word(c.suit, lang),
    }
}

impl Suit {
    /// The suit's name in the given language.
    pub fn localized(&self, lang: Lang) -> (r: &'static str)
        ensures
            r@ == suit_word(*self, lang),
    {
        match lang {
            Lang::Es => match self {
                Suit::Oros => "Oros",
                Suit::Copas => "Copas",
                Suit::Espadas => "Espadas",
                Suit::Bastos => "Bastos",
            },
            Lang::En => match self {
                Suit::Oros => "Coins",
                Suit::Copas => "Cups",
                Suit::Espadas => "Swords",
                Suit::Bastos => "Clubs",
            },
        }
    }
}

/// The English word for a valid rank.
fn rank_word_english(rank: u8) -> (r: &'static str)
    requires
        1 <= rank <= 7 || 10 <= rank <= 12,
    ensures
        r@ == rank_word_en(rank),
{
    match rank {
        1 => "Ace",
        10 => "Jack",
        11 => "Knight",
        12 => "King",
        _ => rank_word(rank),
    }
}

impl Card {
    /// The card's name in the given language.
    pub fn localized_name(&self, lang: Lang) -> (s: String)
        requires
            valid_card(*self),
        ensures
            s@ == localized_name_of(*self, lang),
    {
        let suit = self.suit.localized(lang);
        match lang {
            Lang::Es => {
                let mut s = String::from_str(rank_word(self.rank));
                s.append(" de ");
                s.append(suit);
                s
            },
            Lang::En => {
                let mut s = String::from_str(rank_word_english(self.rank));
                s.append(" of ");
                s.append(suit);
                s
            },
        }
    }
}

/// The Spanish name of a card is its displayed name.
pub proof fn lemma_spanish_name_is_display_name(c: Card)
    ensures
        localized_name_of(c, Lang::Es) == crate::card::display_name_of(c),
{
}

/// In English too, a card numbered 2 to 7 is named by its digit, then " of ", then
/// the suit.
pub proof fn law_english_numbers_are_digits(c: Card)
    requires
        2 <= c.rank <= 7,
    ensures
        localized_name_of(c, Lang::En).len() >= 2,
        localized_name_of(c, Lang::En)[0] as int == '0' as int + c.rank,
        localized_name_of(c, Lang::En)[1] == ' ',
{
    reveal_strlit("2");
    reveal_strlit("3");
    reveal_strlit("4");
    reveal_strlit("5");
    reveal_strlit("6");
    reveal_strlit("7");
    reveal_strlit(" of ");
    let w = rank_word_en(c.rank);
    assert(w == rank_word_es(c.rank));
    assert(w.len() == 1);
    let a = w + " of "@;
    assert(a[0] == w[0]);
    assert(a[1] == " of "@[0]);
    assert(localized_name_of(c, Lang::En) == a + suit_word(c.suit, Lang::En));
    assert(localized_name_of(c, Lang::En)[0] == a[0]);
    assert(localized_name_of(c, Lang::En)[1] == a[1]);
}

} // verus!

use vstd::prelude::*;
use vstd::string::*;

verus! {

/// The ranks of the Spanish 40-card deck, in deck order (no 8 or 9).
pub const VALID_RANKS: [u8; 10] = [1, 2, 3, 4, 5, 6, 7, 10, 11, 12];

/// The four suits of the Spanish deck.
#[derive(Debug, Clone, Copy, PartialEq, Eq, Hash, Structural)]
pub enum Suit {
    Oros,
    Copas,
    Espadas,
    Bastos,
}

impl Suit {
    /// Every suit, in deck order.
    pub const ALL: [Suit; 4] = [Suit::Oros, Suit::Copas, Suit::Espadas, Suit::Bastos];

    /// The suit's displayed name: "Oros", "Copas", "Espadas" or "Bastos".
    pub fn display_name(&self) -> (r: &'static str)
        ensures
            r@ == suit_name(*self),
    {
        suit_display(*self)
    }
}

/// A card of the Spanish deck.
#[derive(Debug, Clone, Copy, PartialEq, Eq, Hash, Structural)]
pub struct Card {
    pub suit: Suit,
    pub rank: u8,
}

/// A rank that exists in the 40-card deck: 1 to 7 and 10 to 12.
pub open spec fn valid_rank(rank: u8) -> bool {
    (1 <= rank && rank <= 7) || (10 <= rank && rank <= 12)
}

/// The game value of a rank: 1-7 count as themselves, Sota 8, Caballo 9, Rey 10.
pub open spec fn rank_value(rank: u8) -> nat {
    if rank <= 7 {
        rank as nat
    } else if rank == 10 {
        8
    } else if rank == 11 {
        9
    } else {
        10
    }
}

/// A card whose rank belongs to the deck.
pub open spec fn valid_card(c: Card) -> bool {
    valid_rank(c.rank)
}

/// Every card of the sequence is a valid card.
pub open spec fn all_valid(cards: Seq<Card>) -> bool {
    forall|i: int| 0 <= i < cards.len() ==> #[trigger] valid_card(cards[i])
}

/// The game value of a card.
pub open spec fn card_value(c: Card) -> nat {
    rank_value(c.rank)
}

/// The name of a suit as it is displayed.
pub open spec fn suit_name(s: Suit) -> Seq<char> {
    match s {
        Suit::Oros => "Oros"@,
        Suit::Copas => "Copas"@,
        Suit::Espadas => "Espadas"@,
        Suit::Bastos => "Bastos"@,
    }
}

/// The Spanish word for a rank: "As", the digit for 2-7, "Sota", "Caballo", "Rey".
pub open spec fn rank_word_es(rank: u8) -> Seq<char> {
    if rank == 1 {
        "As"@
    } else if rank == 2 {
        "2"@
    } else if rank == 3 {
        "3"@
    } else if rank == 4 {
        "4"@
    } else if rank == 5 {
        "5"@
    } else if rank == 6 {
        "6"@
    } else if rank == 7 {
        "7"@
    } else if rank == 10 {
        "Sota"@
    } else if rank == 11 {
        "Caballo"@
    } else {
        "Rey"@
    }
}

/// The displayed name of a card, e.g. "Rey de Oros".
pub open spec fn display_name_of(c: Card) -> Seq<char> {
    rank_word_es(c.rank) + " de "@ + suit_name(c.suit)
}

/// The displayed name of a suit.
pub(crate) fn suit_display(s: Suit) -> (r: &'static str)
    ensures
        r@ == suit_name(s),
{
    match s {
        Suit::Oros => "Oros",
        Suit::Copas => "Copas",
        Suit::Espadas => "Espadas",
        Suit::Bastos => "Bastos",
    }
}

/// The Spanish word for a valid rank.
pub(crate) fn rank_word(rank: u8) -> (r: &'static str)
    requires
        valid_rank(rank),
    ensures
        r@ == rank_word_es(rank),
{
    match rank {
        1 => "As",
        2 => "2",
        3 => "3",
        4 => "4",
        5 => "5",
        6 => "6",
        7 => "7",
        10 => "Sota",
        11 => "Caballo",
        _ => "Rey",
    }
}

impl Card {
    /// Creates a card; the rank must be one of `VALID_RANKS`.
    pub fn new(suit: Suit, rank: u8) -> (c: Card)
        requires
            valid_rank(rank),
        ensures
            c.suit == suit,
            c.rank == rank,
    {
        Card { suit, rank }
    }

    /// The card's value for the sum of 15.
    pub fn value(&self) -> (v: u8)
        requires
            valid_card(*self),
        ensures
            v == card_value(*self),
            1 <= v <= 10,
    {
        match self.rank {
            10 => 8,
            11 => 9,
            12 => 10,
            _ => self.rank,
        }
    }

    /// The card's name, e.g. "As de Oros", "5 de Copas", "Rey de Bastos".
    pub fn display_name(&self) -> (s: String)
        requires
            valid_card(*self),
        ensures
            s@ == display_name_of(*self),
    {
        let mut s = String::from_str(rank_word(self.rank));
        s.append(" de ");
        s.append(suit_display(self.suit));
        s
    }
}

/// The value of each rank: 1 to 7 count as themselves, Sota (10) is 8, Caballo (11)
/// is 9 and Rey (12) is 10.
pub proof fn law_card_values(c: Card)
    requires
        valid_card(c),
    ensures
        1 <= c.rank <= 7 ==> card_value(c) == c.rank,
        c.rank == 10 ==> card_value(c) == 8,
        c.rank == 11 ==> card_value(c) == 9,
        c.rank == 12 ==> card_value(c) == 10,
{
}

/// The displayed name of a card numbered 2 to 7 is its digit, then " de ", then the
/// suit.
pub proof fn law_numbers_are_shown_as_digits(c: Card)
    requires
        2 <= c.rank <= 7,
    ensures
        display_name_of(c).len() >= 2,
        display_name_of(c)[0] as int == '0' as int + c.rank,
        display_name_of(c)[1] == ' ',
{
    reveal_strlit("2");
    reveal_strlit("3");
    reveal_strlit("4");
    reveal_strlit("5");
    reveal_strlit("6");
    reveal_strlit("7");
    reveal_strlit(" de ");
    let w = rank_word_es(c.rank);
    assert(w.len() == 1);
    assert((w + " de "@)[0] == w[0]);
    assert((w + " de "@)[1] == " de "@[0]);
    assert(display_name_of(c) == (w + " de "@) + suit_name(c.suit));
    assert(display_name_of(c)[0] == (w + " de "@)[0]);
    assert(display_name_of(c)[1] == (w + " de "@)[1]);
}

} // verus!

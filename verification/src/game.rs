use vstd::prelude::*;
use vstd::arithmetic::power2::{pow2, lemma_pow2_pos};

use crate::card::{Card, valid_card, all_valid, card_value};
use crate::deck::{Deck, standard_deck};
use crate::player::Player;
use crate::game_laws::{all_cards, lemma_only_deck_cards};
use crate::subsets::{
    makes_fifteen, combinations_of, nonempty_subsets, fifteen_with, mask_indices, indices_value,
    increasing_below, lemma_shift_is_pow2, lemma_mask_test, lemma_filter_take_step,
    lemma_combinations_sound,
};

verus! {

/// The phase a game is in.
#[derive(Debug, Clone, Copy, PartialEq, Eq, Structural)]
pub enum GameState {
    Dealing,
    Playing,
    RoundEnd,
    GameOver,
}

/// What a successful play did.
#[derive(Debug, Clone, PartialEq, Eq)]
pub enum PlayResult {
    Captured { cards: Vec<Card>, escoba: bool },
    Dropped,
}

/// Why a play was refused.
#[derive(Debug, Clone, PartialEq, Eq, Structural)]
pub enum GameError {
    InvalidCard,
    InvalidCombination,
    NotYourTurn,
    GameNotInPlay,
}

/// One hand card and every capture it can make.
#[derive(Debug, Clone, PartialEq, Eq)]
pub struct Play {
    pub hand_index: usize,
    pub hand_card: Card,
    pub captures: Vec<Capture>,
    pub can_drop: bool,
}

/// A set of table cards that a hand card can capture.
#[derive(Debug, Clone, PartialEq, Eq)]
pub struct Capture {
    pub table_indices: Vec<usize>,
    pub table_cards: Vec<Card>,
}

/// The positions are all below `n`.
pub open spec fn in_range(idx: Seq<usize>, n: nat) -> bool {
    forall|k: int| 0 <= k < idx.len() ==> #[trigger] idx[k] < n
}

/// A selection of table positions that the hand card may capture: positions on the
/// table, none twice, whose values with the hand card's add up to 15.
pub open spec fn valid_selection(hand: Card, table: Seq<Card>, idx: Seq<usize>) -> bool {
    &&& in_range(idx, table.len())
    &&& idx.no_duplicates()
    &&& makes_fifteen(hand, table, idx)
}

/// The cards at the selected positions from `j` on, highest position first.
pub open spec fn taken_from(table: Seq<Card>, idx: Seq<usize>, j: int) -> Seq<Card>
    decreases table.len() - j,
{
    if j < 0 || j >= table.len() {
        Seq::empty()
    } else {
        let rest = taken_from(table, idx, j + 1);
        if idx.contains(j as usize) {
            rest.push(table[j])
        } else {
            rest
        }
    }
}

/// The cards at the other positions from `j` on, in table order.
pub open spec fn kept_from(table: Seq<Card>, idx: Seq<usize>, j: int) -> Seq<Card>
    decreases table.len() - j,
{
    if j < 0 || j >= table.len() {
        Seq::empty()
    } else {
        let rest = kept_from(table, idx, j + 1);
        if idx.contains(j as usize) {
            rest
        } else {
            seq![table[j]] + rest
        }
    }
}

/// The table cards a capture takes, highest position first.
pub open spec fn taken_cards(table: Seq<Card>, idx: Seq<usize>) -> Seq<Card> {
    taken_from(table, idx, 0)
}

/// The table cards a capture leaves, in table order.
pub open spec fn kept_cards(table: Seq<Card>, idx: Seq<usize>) -> Seq<Card> {
    kept_from(table, idx, 0)
}

/// Whether `idx` holds position `j`.
fn holds_index(idx: &Vec<usize>, j: usize) -> (b: bool)
    ensures
        b <==> idx@.contains(j),
{
    let mut k: usize = 0;
    while k < idx.len()
        invariant
            k <= idx@.len(),
            forall|l: int| 0 <= l < k ==> idx@[l] != j,
        decreases idx@.len() - k,
    {
        if idx[k] == j {
            assert(idx@[k as int] == j);
            return true;
        }
        k = k + 1;
    }
    false
}

/// Removes the selected positions from the table and returns their cards,
/// highest position first.
fn take_selected(table: &mut Vec<Card>, idx: &Vec<usize>) -> (taken: Vec<Card>)
    ensures
        taken@ == taken_cards(old(table)@, idx@),
        final(table)@ == kept_cards(old(table)@, idx@),
{
    let ghost t = table@;
    let mut taken: Vec<Card> = Vec::new();
    let mut j: usize = table.len();
    while j > 0
        invariant
            j <= t.len(),
            table@ == t.take(j as int) + kept_from(t, idx@, j as int),
            taken@ == taken_from(t, idx@, j as int),
        decreases j,
    {
        j = j - 1;
        let ghost before = table@;
        assert(t.take(j + 1 as int) == t.take(j as int).push(t[j as int]));
        if holds_index(idx, j) {
            assert(before[j as int] == t[j as int]);
            let c = table.remove(j);
            taken.push(c);
            assert(table@ =~= t.take(j as int) + kept_from(t, idx@, j as int));
        } else {
            assert(table@ =~= t.take(j as int) + kept_from(t, idx@, j as int));
        }
    }
    assert(t.take(0) =~= Seq::<Card>::empty());
    assert(table@ =~= kept_from(t, idx@, 0));
    taken
}

/// A copy of a list of cards.
pub(crate) fn copy_cards(v: &Vec<Card>) -> (r: Vec<Card>)
    ensures
        r@ == v@,
{
    let mut r: Vec<Card> = Vec::new();
    let mut i: usize = 0;
    while i < v.len()
        invariant
            i <= v@.len(),
            r@ == v@.take(i as int),
        decreases v@.len() - i,
    {
        assert(v@.take(i + 1 as int) == v@.take(i as int).push(v@[i as int]));
        r.push(v[i]);
        i = i + 1;
    }
    assert(v@.take(v@.len() as int) =~= v@);
    r
}

/// A copy of a list of positions.
pub(crate) fn copy_indices(v: &Vec<usize>) -> (r: Vec<usize>)
    ensures
        r@ == v@,
{
    let mut r: Vec<usize> = Vec::new();
    let mut i: usize = 0;
    while i < v.len()
        invariant
            i <= v@.len(),
            r@ == v@.take(i as int),
        decreases v@.len() - i,
    {
        assert(v@.take(i + 1 as int) == v@.take(i as int).push(v@[i as int]));
        r.push(v[i]);
        i = i + 1;
    }
    assert(v@.take(v@.len() as int) =~= v@);
    r
}

/// Whether the selection is a valid capture for the hand card.
fn check_selection(hand: Card, table: &Vec<Card>, idx: &Vec<usize>) -> (b: bool)
    requires
        in_range(idx@, table@.len()) && idx@.no_duplicates() ==> valid_card(hand) && forall|k: int|
            0 <= k < idx@.len() ==> #[trigger] valid_card(table@[idx@[k] as int]),
    ensures
        b == valid_selection(hand, table@, idx@),
{
    let n = table.len();
    let mut k: usize = 0;
    while k < idx.len()
        invariant
            n == table@.len(),
            k <= idx@.len(),
            forall|l: int| 0 <= l < k ==> #[trigger] idx@[l] < n,
        decreases idx@.len() - k,
    {
        if idx[k] >= n {
            return false;
        }
        k = k + 1;
    }
    let mut a: usize = 0;
    while a < idx.len()
        invariant
            a <= idx@.len(),
            forall|x: int, y: int| 0 <= x < a && 0 <= y < idx@.len() && x != y ==> idx@[x] != idx@[y],
        decreases idx@.len() - a,
    {
        let mut b: usize = 0;
        while b < idx.len()
            invariant
                a < idx@.len(),
                b <= idx@.len(),
                forall|x: int, y: int| 0 <= x < a && 0 <= y < idx@.len() && x != y ==> idx@[x] != idx@[y],
                forall|y: int| 0 <= y < b && a != y ==> idx@[a as int] != idx@[y],
            decreases idx@.len() - b,
        {
            if a != b && idx[a] == idx[b] {
                assert(!idx@.no_duplicates());
                return false;
            }
            b = b + 1;
        }
        a = a + 1;
    }
    let hand_value = hand.value() as u32;
    let mut sum: u32 = 0;
    let mut k: usize = 0;
    while k < idx.len()
        invariant
            n == table@.len(),
            k <= idx@.len(),
            in_range(idx@, n as nat),
            forall|l: int| 0 <= l < idx@.len() ==> #[trigger] valid_card(table@[idx@[l] as int]),
            sum == indices_value(table@, idx@.take(k as int)),
            sum <= 15,
        decreases idx@.len() - k,
    {
        let ghost pre = idx@.take(k as int);
        assert(idx@.take(k + 1 as int).drop_last() == pre);
        assert(idx@[k as int] < n);
        let v = table[idx[k]].value() as u32;
        sum = sum + v;
        if sum > 15 {
            proof {
                lemma_prefix_value_le(table@, idx@, k + 1 as int);
                assert(idx@.take(k + 1 as int).last() == idx@[k as int]);
            }
            return false;
        }
        k = k + 1;
    }
    assert(idx@.take(idx@.len() as int) =~= idx@);
    hand_value + sum == 15
}

/// The value of a prefix of the positions is at most the value of all of them.
proof fn lemma_prefix_value_le(table: Seq<Card>, idx: Seq<usize>, k: int)
    requires
        0 <= k <= idx.len(),
    ensures
        indices_value(table, idx.take(k)) <= indices_value(table, idx),
    decreases idx.len() - k,
{
    if k < idx.len() {
        lemma_prefix_value_le(table, idx, k + 1);
        assert(idx.take(k + 1).drop_last() =~= idx.take(k));
    } else {
        assert(idx.take(k) =~= idx);
    }
}

/// A two-player game of Escoba del 15.
#[derive(Clone)]
pub struct Game {
    pub deck: Deck,
    pub players: [Player; 2],
    pub table: Vec<Card>,
    pub current_player: usize,
    pub state: GameState,
    pub last_capturer: Option<usize>,
    /// Whether the next deal also lays four cards on the table.
    pub first_deal: bool,
}

/// The top `n` cards of a pile (all of it when it holds fewer), bottom first.
pub open spec fn top_cards(pile: Seq<Card>, n: nat) -> Seq<Card> {
    if n <= pile.len() {
        pile.subrange(pile.len() - n, pile.len() as int)
    } else {
        pile
    }
}

/// The pile once its top `n` cards are taken.
pub open spec fn below_top(pile: Seq<Card>, n: nat) -> Seq<Card> {
    if n <= pile.len() {
        pile.take(pile.len() - n)
    } else {
        Seq::empty()
    }
}

/// Splitting a pile into what stays and its top `n` cards.
proof fn lemma_split_top(pile: Seq<Card>, n: nat, rest: Seq<Card>, top: Seq<Card>)
    requires
        rest + top == pile,
        top.len() == if n <= pile.len() { n as int } else { pile.len() as int },
    ensures
        rest == below_top(pile, n),
        top == top_cards(pile, n),
{
    assert(rest =~= below_top(pile, n)) by {
        assert forall|k: int| 0 <= k < rest.len() implies rest[k] == pile[k] by {
            assert((rest + top)[k] == rest[k]);
        }
    }
    assert(top =~= top_cards(pile, n)) by {
        assert forall|k: int| 0 <= k < top.len() implies top[k] == pile[rest.len() + k] by {
            assert((rest + top)[rest.len() + k] == top[k]);
        }
    }
}

/// The two players have the same name, captured pile and escobas.
pub open spec fn same_but_hand(a: Player, b: Player) -> bool {
    a.name == b.name && a.captured == b.captured && a.escobas == b.escobas
}

/// `g1` is `g0` after a deal: three cards from the top of the deck to each player in
/// turn, then, on the first deal of the round, four to the table; play begins.
pub open spec fn deal_result(g0: Game, g1: Game) -> bool {
    let d0 = g0.deck@;
    let d1 = below_top(d0, 3);
    let d2 = below_top(d1, 3);
    &&& g1.players[0].hand@ == g0.players[0].hand@ + top_cards(d0, 3)
    &&& g1.players[1].hand@ == g0.players[1].hand@ + top_cards(d1, 3)
    &&& same_but_hand(g1.players[0], g0.players[0])
    &&& same_but_hand(g1.players[1], g0.players[1])
    &&& if g0.first_deal {
        g1.table@ == g0.table@ + top_cards(d2, 4) && g1.deck@ == below_top(d2, 4)
    } else {
        g1.table@ == g0.table@ && g1.deck@ == d2
    }
    &&& !g1.first_deal
    &&& g1.state == GameState::Playing
    &&& g1.last_capturer == g0.last_capturer
}

/// The positions an optional selection names.
pub open spec fn selection_view(sel: Option<Vec<usize>>) -> Option<Seq<usize>> {
    match sel {
        Some(v) => Some(v@),
        None => None,
    }
}

/// Both players have played out their hands.
pub open spec fn hands_empty(g: Game) -> bool {
    g.players[0].hand@.len() == 0 && g.players[1].hand@.len() == 0
}

/// Both hands and the deck are exhausted: the round is over.
pub open spec fn round_closes(g: Game) -> bool {
    hands_empty(g) && g.deck@.len() == 0
}

/// `g1` is `g0` after the turn passes: the other player is to play; with both hands
/// empty the next deal is made, or, with the deck empty too, the round ends and the
/// table goes to the last player who captured, if anyone did.
pub open spec fn turn_passed(g0: Game, g1: Game) -> bool {
    &&& g1.current_player == 1 - g0.current_player
    &&& !hands_empty(g0) ==> {
        &&& g1.players == g0.players
        &&& g1.table == g0.table
        &&& g1.deck == g0.deck
        &&& g1.state == g0.state
        &&& g1.last_capturer == g0.last_capturer
        &&& g1.first_deal == g0.first_deal
    }
    &&& hands_empty(g0) && g0.deck@.len() > 0 ==> deal_result(g0, g1)
    &&& round_closes(g0) ==> {
        &&& g1.state == GameState::RoundEnd
        &&& g1.deck == g0.deck
        &&& g1.last_capturer == g0.last_capturer
        &&& g1.first_deal == g0.first_deal
        &&& if g0.table@.len() > 0 && g0.last_capturer is Some {
            let c = g0.last_capturer->0 as int;
            &&& g1.table@.len() == 0
            &&& g1.players[c].captured@ == g0.players[c].captured@ + g0.table@
            &&& g1.players[c].hand == g0.players[c].hand
            &&& g1.players[c].name == g0.players[c].name
            &&& g1.players[c].escobas == g0.players[c].escobas
            &&& g1.players[1 - c] == g0.players[1 - c]
        } else {
            g1.table == g0.table && g1.players == g0.players
        }
    }
}

/// Why a play would be refused, if it would: the game is not in play, the hand
/// index is out of range, or the selection is not a valid capture.
pub open spec fn play_refusal(g: Game, i: usize, sel: Option<Seq<usize>>) -> Option<GameError> {
    if g.state != GameState::Playing {
        Some(GameError::GameNotInPlay)
    } else if i >= g.players[g.current_player as int].hand@.len() {
        Some(GameError::InvalidCard)
    } else {
        match sel {
            None => None,
            Some(idx) => if valid_selection(
                g.players[g.current_player as int].hand@[i as int],
                g.table@,
                idx,
            ) {
                None
            } else {
                Some(GameError::InvalidCombination)
            },
        }
    }
}

/// The selection would be accepted and would take every card on the table.
pub open spec fn play_sweeps(g: Game, i: usize, sel: Option<Seq<usize>>) -> bool {
    &&& play_refusal(g, i, sel) is None
    &&& sel is Some
    &&& kept_cards(g.table@, sel->0).len() == 0
}

/// `g1` and `r` are what playing hand card `i` with selection `sel` makes of `g0`:
/// a refusal leaves the game as it was; a drop moves the card to the end of the
/// table; a capture moves the selected table cards, highest position first, and
/// then the hand card to the player's pile, counting an escoba when the table is
/// left empty.
pub open spec fn played(g0: Game, i: usize, sel: Option<Seq<usize>>, r: Result<PlayResult, GameError>, g1: Game) -> bool {
    let p = g0.current_player as int;
    let refusal = play_refusal(g0, i, sel);
    &&& r is Ok <==> refusal is None
    &&& r matches Err(e) ==> refusal == Some(e) && g1 == g0
    &&& r is Ok ==> {
        let card = g0.players[p].hand@[i as int];
        &&& g1.players[p].hand@ == g0.players[p].hand@.remove(i as int)
        &&& g1.players[p].name == g0.players[p].name
        &&& g1.players[1 - p] == g0.players[1 - p]
        &&& g1.deck == g0.deck
        &&& g1.current_player == g0.current_player
        &&& g1.state == g0.state
        &&& g1.first_deal == g0.first_deal
        &&& match sel {
            None => {
                &&& r == Ok::<PlayResult, GameError>(PlayResult::Dropped)
                &&& g1.table@ == g0.table@.push(card)
                &&& g1.players[p].captured == g0.players[p].captured
                &&& g1.players[p].escobas == g0.players[p].escobas
                &&& g1.last_capturer == g0.last_capturer
            },
            Some(idx) => {
                let won = taken_cards(g0.table@, idx).push(card);
                let escoba = kept_cards(g0.table@, idx).len() == 0;
                &&& r matches Ok(PlayResult::Captured { cards, escoba: e }) && cards@ == won && e == escoba
                &&& g1.table@ == kept_cards(g0.table@, idx)
                &&& g1.players[p].captured@ == g0.players[p].captured@ + won
                &&& g1.players[p].escobas == g0.players[p].escobas + if escoba { 1int } else { 0int }
                &&& g1.last_capturer == Some(g0.current_player)
            },
        }
    }
}

/// What `play_card` needs: a current player when the game is in play, valid values
/// for the cards whose values it adds, and room for one more escoba when it sweeps.
pub open spec fn play_requires(g: Game, i: usize, sel: Option<Seq<usize>>) -> bool {
    &&& g.state == GameState::Playing ==> g.current_player < 2
    &&& (g.state == GameState::Playing && i < g.players[g.current_player as int].hand@.len()
        && sel is Some && in_range(sel->0, g.table@.len()) && sel->0.no_duplicates()) ==> {
        &&& valid_card(g.players[g.current_player as int].hand@[i as int])
        &&& forall|k: int| 0 <= k < sel->0.len() ==> #[trigger] valid_card(g.table@[sel->0[k] as int])
    }
    &&& play_sweeps(g, i, sel) ==> g.players[g.current_player as int].escobas < u32::MAX
}

/// The play that lists, for hand card `i`, every capture it can make.
pub open spec fn play_lists(p: Play, i: int, hand: Seq<Card>, table: Seq<Card>) -> bool {
    let combos = combinations_of(hand[i], table);
    &&& p.hand_index == i
    &&& p.hand_card == hand[i]
    &&& p.can_drop
    &&& p.captures@.len() == combos.len()
    &&& forall|k: int| 0 <= k < combos.len() ==> {
        &&& (#[trigger] p.captures@[k]).table_indices@ == combos[k]
        &&& p.captures@[k].table_cards@ == combos[k].map_values(|x: usize| table[x as int])
    }
}

impl Game {
    /// A new game: a freshly shuffled deck, two players with the given names and
    /// nothing dealt yet; the first player starts.
    pub fn new(p1_name: &str, p2_name: &str) -> (g: Game)
        ensures
            g.deck@.len() == 40,
            g.deck@.to_multiset() == standard_deck().to_multiset(),
            g.players[0].name@ == p1_name@,
            g.players[1].name@ == p2_name@,
            forall|k: int| 0 <= k < 2 ==> (#[trigger] g.players[k]).hand@.len() == 0
                && g.players[k].captured@.len() == 0 && g.players[k].escobas == 0,
            g.table@.len() == 0,
            g.current_player == 0,
            g.state == GameState::Dealing,
            g.last_capturer is None,
            g.first_deal,
            all_cards(g) == standard_deck().to_multiset(),
    {
        let mut deck = Deck::new();
        deck.shuffle();
        let g = Game {
            deck,
            players: [Player::new(p1_name), Player::new(p2_name)],
            table: Vec::new(),
            current_player: 0,
            state: GameState::Dealing,
            last_capturer: None,
            first_deal: true,
        };
        proof {
            lemma_only_deck_cards(g);
        }
        g
    }

    /// Starts a new round: a freshly shuffled deck, empty hands, piles and table, no
    /// escobas; the next deal lays cards on the table.
    pub fn new_round(&mut self)
        ensures
            final(self).deck@.len() == 40,
            final(self).deck@.to_multiset() == standard_deck().to_multiset(),
            forall|k: int| 0 <= k < 2 ==> (#[trigger] final(self).players[k]).hand@.len() == 0
                && final(self).players[k].captured@.len() == 0 && final(self).players[k].escobas == 0
                && final(self).players[k].name == old(self).players[k].name,
            final(self).table@.len() == 0,
            final(self).current_player == old(self).current_player,
            final(self).state == GameState::Dealing,
            final(self).last_capturer is None,
            final(self).first_deal,
            all_cards(*final(self)) == standard_deck().to_multiset(),
    {
        self.deck = Deck::new();
        self.deck.shuffle();
        self.table.clear();
        self.players[0].hand.clear();
        self.players[0].captured.clear();
        self.players[0].escobas = 0;
        self.players[1].hand.clear();
        self.players[1].captured.clear();
        self.players[1].escobas = 0;
        self.first_deal = true;
        self.last_capturer = None;
        self.state = GameState::Dealing;
        proof {
            lemma_only_deck_cards(*self);
        }
    }

    /// Deals three cards to each player and, on the first deal of the round, four to
    /// the table; play begins.
    pub fn deal_round(&mut self)
        ensures
            deal_result(*old(self), *final(self)),
            final(self).current_player == old(self).current_player,
    {
        let ghost d0 = self.deck@;
        let cards = self.deck.draw_n(3);
        proof { lemma_split_top(d0, 3, self.deck@, cards@); }
        self.players[0].add_to_hand(cards);
        let ghost d1 = self.deck@;
        let cards = self.deck.draw_n(3);
        proof { lemma_split_top(d1, 3, self.deck@, cards@); }
        self.players[1].add_to_hand(cards);
        if self.first_deal {
            let ghost d2 = self.deck@;
            let mut table_cards = self.deck.draw_n(4);
            proof { lemma_split_top(d2, 4, self.deck@, table_cards@); }
            self.table.append(&mut table_cards);
            self.first_deal = false;
        }
        self.state = GameState::Playing;
    }

    /// Every non-empty subset of the table (as increasing positions) whose values,
    /// with the hand card's, add up to 15, in the order of their bitmasks.
    pub fn find_combinations(hand_card: &Card, table: &[Card]) -> (r: Vec<Vec<usize>>)
        requires
            valid_card(*hand_card),
            all_valid(table@),
            table@.len() < 32,
        ensures
            r@.len() == combinations_of(*hand_card, table@).len(),
            forall|i: int| 0 <= i < r@.len() ==> #[trigger] r@[i]@ == combinations_of(*hand_card, table@)[i],
    {
        let hand_value = hand_card.value() as u32;
        let n = table.len();
        let ghost subs = nonempty_subsets(n as nat);
        let ghost pred = fifteen_with(*hand_card, table@);
        let mut results: Vec<Vec<usize>> = Vec::new();
        let limit: u32 = 1u32 << (n as u32);
        proof {
            lemma_shift_is_pow2(n as u32);
            lemma_pow2_pos(n as nat);
        }
        let mut mask: u32 = 1;
        while mask < limit
            invariant
                n == table@.len(),
                n < 32,
                limit as nat == pow2(n as nat),
                1 <= mask <= limit,
                hand_value == card_value(*hand_card),
                all_valid(table@),
                subs == nonempty_subsets(n as nat),
                pred == fifteen_with(*hand_card, table@),
                results@.len() == subs.take(mask - 1).filter(pred).len(),
                forall|i: int| 0 <= i < results@.len() ==> #[trigger] results@[i]@ == subs.take(mask - 1).filter(pred)[i],
            decreases limit - mask,
        {
            let mut subset_sum: u32 = 0;
            let mut indices: Vec<usize> = Vec::new();
            let mut bit: usize = 0;
            while bit < n
                invariant
                    n == table@.len(),
                    n < 32,
                    bit <= n,
                    all_valid(table@),
                    indices@ == mask_indices(mask as nat, bit as nat),
                    subset_sum == indices_value(table@, indices@),
                    subset_sum <= 10 * bit,
                decreases n - bit,
            {
                proof {
                    lemma_mask_test(mask, bit as u32);
                }
                if mask & (1u32 << (bit as u32)) != 0 {
                    assert(valid_card(table@[bit as int]));
                    subset_sum = subset_sum + table[bit].value() as u32;
                    let ghost before = indices@;
                    indices.push(bit);
                    assert(indices@.drop_last() == before);
                }
                bit = bit + 1;
            }
            proof {
                let k = (mask - 1) as int;
                assert(subs[k] == mask_indices(mask as nat, n as nat));
                lemma_filter_take_step(subs, pred, k);
            }
            if hand_value + subset_sum == 15 {
                results.push(indices);
            }
            mask = mask + 1;
        }
        assert(subs.take(limit - 1) =~= subs);
        results
    }

    /// Plays hand card `hand_card_idx` of the current player: with `Some(indices)` it
    /// captures those table cards, which with the hand card must add up to 15; with
    /// `None` it drops the card on the table. A capture that empties the table is an
    /// escoba. A refused play changes nothing.
    pub fn play_card(&mut self, hand_card_idx: usize, table_card_indices: Option<Vec<usize>>) -> (r: Result<PlayResult, GameError>)
        requires
            play_requires(*old(self), hand_card_idx, selection_view(table_card_indices)),
        ensures
            played(*old(self), hand_card_idx, selection_view(table_card_indices), r, *final(self)),
    {
        if self.state != GameState::Playing {
            return Err(GameError::GameNotInPlay);
        }
        let cp = self.current_player;
        if hand_card_idx >= self.players[cp].hand.len() {
            return Err(GameError::InvalidCard);
        }
        let hand_card = self.players[cp].hand[hand_card_idx];
        match table_card_indices {
            Some(indices) => {
                if !check_selection(hand_card, &self.table, &indices) {
                    return Err(GameError::InvalidCombination);
                }
                self.players[cp].hand.remove(hand_card_idx);
                let mut captured_cards = take_selected(&mut self.table, &indices);
                captured_cards.push(hand_card);
                let escoba = self.table.is_empty();
                if escoba {
                    self.players[cp].record_escoba();
                }
                let result_cards = copy_cards(&captured_cards);
                self.players[cp].capture(captured_cards);
                self.last_capturer = Some(cp);
                Ok(PlayResult::Captured { cards: result_cards, escoba })
            },
            None => {
                self.players[cp].hand.remove(hand_card_idx);
                self.table.push(hand_card);
                Ok(PlayResult::Dropped)
            },
        }
    }

    /// For each card of the current player's hand, in hand order, the captures it can
    /// make; every card may also be dropped.
    pub fn valid_plays(&self) -> (r: Vec<Play>)
        requires
            self.current_player < 2,
            all_valid(self.players[self.current_player as int].hand@),
            self.players[self.current_player as int].hand@.len() > 0 ==> all_valid(self.table@)
                && self.table@.len() < 32,
        ensures
            r@.len() == self.players[self.current_player as int].hand@.len(),
            forall|i: int| 0 <= i < r@.len() ==> play_lists(#[trigger] r@[i], i,
                self.players[self.current_player as int].hand@, self.table@),
    {
        let hand = &self.players[self.current_player].hand;
        let mut plays: Vec<Play> = Vec::new();
        let mut i: usize = 0;
        while i < hand.len()
            invariant
                i <= hand@.len(),
                all_valid(hand@),
                hand@.len() > 0 ==> all_valid(self.table@) && self.table@.len() < 32,
                plays@.len() == i,
                forall|j: int| 0 <= j < i ==> play_lists(#[trigger] plays@[j], j, hand@, self.table@),
            decreases hand@.len() - i,
        {
            let hand_card = hand[i];
            let combos = Self::find_combinations(&hand_card, self.table.as_slice());
            let ghost expected = combinations_of(hand_card, self.table@);
            let mut captures: Vec<Capture> = Vec::new();
            let mut k: usize = 0;
            while k < combos.len()
                invariant
                    k <= combos@.len(),
                    combos@.len() == expected.len(),
                    forall|c: int| 0 <= c < combos@.len() ==> #[trigger] combos@[c]@ == expected[c],
                    expected == combinations_of(hand_card, self.table@),
                    self.table@.len() < 32,
                    captures@.len() == k,
                    forall|c: int| 0 <= c < k ==> {
                        &&& (#[trigger] captures@[c]).table_indices@ == expected[c]
                        &&& captures@[c].table_cards@ == expected[c].map_values(|x: usize| self.table@[x as int])
                    },
                decreases combos@.len() - k,
            {
                let indices = &combos[k];
                proof {
                    lemma_combinations_sound(hand_card, self.table@, k as int);
                }
                let mut cards: Vec<Card> = Vec::new();
                let mut m: usize = 0;
                while m < indices.len()
                    invariant
                        m <= indices@.len(),
                        indices@ == expected[k as int],
                        increasing_below(indices@, self.table@.len()),
                        cards@ == indices@.take(m as int).map_values(|x: usize| self.table@[x as int]),
                    decreases indices@.len() - m,
                {
                    assert(indices@[m as int] < self.table@.len());
                    let c = self.table[indices[m]];
                    assert(indices@.take(m + 1 as int) == indices@.take(m as int).push(indices@[m as int]));
                    cards.push(c);
                    assert(cards@ =~= indices@.take(m + 1 as int).map_values(|x: usize| self.table@[x as int]));
                    m = m + 1;
                }
                assert(indices@.take(indices@.len() as int) =~= indices@);
                let table_indices = copy_indices(indices);
                captures.push(Capture { table_indices, table_cards: cards });
                k = k + 1;
            }
            plays.push(Play { hand_index: i, hand_card, captures, can_drop: true });
            i = i + 1;
        }
        plays
    }

    /// Passes the turn to the other player. Once both hands are empty, deals again,
    /// or, when the deck is exhausted too, ends the round: the cards left on the
    /// table go to the last player who captured, if anyone did.
    pub fn next_turn(&mut self)
        requires
            old(self).current_player < 2,
            round_closes(*old(self)) && old(self).table@.len() > 0 && old(self).last_capturer is Some
                ==> old(self).last_capturer->0 < 2,
        ensures
            turn_passed(*old(self), *final(self)),
    {
        self.current_player = 1 - self.current_player;
        if self.players[0].hand_is_empty() && self.players[1].hand_is_empty() {
            if self.deck.is_empty() {
                if !self.table.is_empty() {
                    match self.last_capturer {
                        Some(capturer) => {
                            let mut remaining: Vec<Card> = Vec::new();
                            std::mem::swap(&mut remaining, &mut self.table);
                            self.players[capturer].capture(remaining);
                        },
                        None => {},
                    }
                }
                self.state = GameState::RoundEnd;
            } else {
                self.deal_round();
            }
        }
    }
}

} // verus!
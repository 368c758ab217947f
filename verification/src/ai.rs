use vstd::prelude::*;
use rand::seq::SliceRandom;

use crate::card::{Card, all_valid};
use crate::deck::{Deck, shuffle_cards};
use crate::player::Player;
use crate::scoring::{calculate_score, score_total, ScoreBreakdown, breakdown_matches};
use crate::game_laws::{all_cards, law_play_keeps_cards, law_turn_keeps_cards};
use crate::game::{
    Game, GameState, GameError, Play, PlayResult, Capture, play_lists, selection_view, copy_indices,
    copy_cards, played, turn_passed, hands_empty, round_closes, kept_from, below_top, top_cards,
    valid_selection,
};
use vstd::arithmetic::power2::{pow2, lemma_pow2_pos};
use crate::subsets::{nonempty_subsets, fifteen_with, combinations_of, lemma_combinations_sound, lemma_combinations_complete, increasing_below, makes_fifteen};

verus! {

/// A move: which hand card to play and, for a capture, which table positions.
#[derive(Debug, Clone, PartialEq, Eq)]
pub struct AiMove {
    pub hand_index: usize,
    pub table_indices: Option<Vec<usize>>,
}

impl View for AiMove {
    type V = (usize, Option<Seq<usize>>);

    open spec fn view(&self) -> (usize, Option<Seq<usize>>) {
        (self.hand_index, selection_view(self.table_indices))
    }
}

/// How hard the computer player thinks.
#[derive(Debug, Clone, Copy, PartialEq, Eq, Structural)]
pub enum Difficulty {
    Easy,
    Medium,
    Hard,
}

/// The number of simulated rounds each difficulty affords.
pub open spec fn simulations_of(d: Difficulty) -> u32 {
    match d {
        Difficulty::Easy => 100,
        Difficulty::Medium => 1000,
        Difficulty::Hard => 10000,
    }
}

impl Difficulty {
    /// The number of simulated rounds: 100, 1000 or 10000.
    pub fn simulations(self) -> (n: u32)
        ensures
            n == simulations_of(self),
    {
        match self {
            Difficulty::Easy => 100,
            Difficulty::Medium => 1000,
            Difficulty::Hard => 10000,
        }
    }
}

/// The moves of hand card `i`: each of its captures, then dropping it.
pub open spec fn moves_of_card(hand: Seq<Card>, table: Seq<Card>, i: int) -> Seq<(usize, Option<Seq<usize>>)> {
    combinations_of(hand[i], table).map_values(|c: Seq<usize>| (i as usize, Some(c))).push(
        (i as usize, None),
    )
}

/// The moves of the first `k` hand cards, card by card.
pub open spec fn moves_upto(hand: Seq<Card>, table: Seq<Card>, k: int) -> Seq<(usize, Option<Seq<usize>>)>
    decreases k,
{
    if k <= 0 {
        Seq::empty()
    } else {
        moves_upto(hand, table, k - 1) + moves_of_card(hand, table, k - 1)
    }
}

/// Every legal move of the current player, hand card by hand card.
pub open spec fn legal_moves(g: Game) -> Seq<(usize, Option<Seq<usize>>)> {
    let hand = g.players[g.current_player as int].hand@;
    moves_upto(hand, g.table@, hand.len() as int)
}

/// The moves of one play, captures first, then the drop.
fn moves_of_play(play: &Play, moves: &mut Vec<AiMove>, Ghost(hand): Ghost<Seq<Card>>, Ghost(table): Ghost<Seq<Card>>, Ghost(i): Ghost<int>)
    requires
        0 <= i < hand.len(),
        play_lists(*play, i, hand, table),
    ensures
        final(moves)@.len() == old(moves)@.len() + moves_of_card(hand, table, i).len(),
        forall|k: int| 0 <= k < old(moves)@.len() ==> #[trigger] final(moves)@[k] == old(moves)@[k],
        forall|k: int| 0 <= k < moves_of_card(hand, table, i).len() ==>
            #[trigger] final(moves)@[old(moves)@.len() + k]@ == moves_of_card(hand, table, i)[k],
{
    let ghost start = moves@.len();
    let ghost combos = combinations_of(hand[i], table);
    let mut c: usize = 0;
    while c < play.captures.len()
        invariant
            c <= play.captures@.len(),
            play_lists(*play, i, hand, table),
            combos == combinations_of(hand[i], table),
            moves@.len() == start + c,
            forall|k: int| 0 <= k < start ==> #[trigger] moves@[k] == old(moves)@[k],
            forall|k: int| 0 <= k < c ==> #[trigger] moves@[start + k]@ == (i as usize, Some(combos[k])),
        decreases play.captures@.len() - c,
    {
        let capture: &Capture = &play.captures[c];
        let indices = copy_indices(&capture.table_indices);
        moves.push(AiMove { hand_index: play.hand_index, table_indices: Some(indices) });
        c = c + 1;
    }
    moves.push(AiMove { hand_index: play.hand_index, table_indices: None });
    assert forall|k: int| 0 <= k < moves_of_card(hand, table, i).len() implies
        #[trigger] moves@[start + k]@ == moves_of_card(hand, table, i)[k] by {
        if k < combos.len() {
            assert(moves_of_card(hand, table, i)[k] == (i as usize, Some(combos[k])));
        }
    }
}

/// Every legal move of the current player: for each hand card, each capture it
/// can make and then dropping it.
pub fn enumerate_moves(game: &Game) -> (r: Vec<AiMove>)
    requires
        game.current_player < 2,
        all_valid(game.players[game.current_player as int].hand@),
        game.players[game.current_player as int].hand@.len() > 0 ==> all_valid(game.table@)
            && game.table@.len() < 32,
    ensures
        r@.len() == legal_moves(*game).len(),
        forall|k: int| 0 <= k < r@.len() ==> #[trigger] r@[k]@ == legal_moves(*game)[k],
{
    let ghost hand = game.players[game.current_player as int].hand@;
    let ghost table = game.table@;
    let plays = game.valid_plays();
    let mut moves: Vec<AiMove> = Vec::new();
    let mut i: usize = 0;
    while i < plays.len()
        invariant
            plays@.len() == hand.len(),
            hand == game.players[game.current_player as int].hand@,
            table == game.table@,
            forall|j: int| 0 <= j < plays@.len() ==> play_lists(#[trigger] plays@[j], j, hand, table),
            i <= plays@.len(),
            moves@.len() == moves_upto(hand, table, i as int).len(),
            forall|k: int| 0 <= k < moves@.len() ==> #[trigger] moves@[k]@ == moves_upto(hand, table, i as int)[k],
        decreases plays@.len() - i,
    {
        let ghost before = moves@;
        moves_of_play(&plays[i], &mut moves, Ghost(hand), Ghost(table), Ghost(i as int));
        proof {
            let upto = moves_upto(hand, table, i as int);
            let next = moves_upto(hand, table, i + 1 as int);
            assert(next == upto + moves_of_card(hand, table, i as int));
            assert forall|k: int| 0 <= k < moves@.len() implies #[trigger] moves@[k]@ == next[k] by {
                if k < before.len() {
                    assert(moves@[k] == before[k]);
                } else {
                    assert(moves@[before.len() + (k - before.len())]@ == moves_of_card(hand, table, i as int)[k - before.len()]);
                }
            }
        }
        i = i + 1;
    }
    moves
}


/// The cards still to be played: both hands and the deck.
pub open spec fn in_play(g: Game) -> nat {
    g.players[0].hand@.len() + g.players[1].hand@.len() + g.deck@.len()
}

/// A game a simulation can run on: a current player, a last capturer who is a
/// player, every card still to be played or on the table valid, and room in each
/// escoba count for every capture still possible and the round's other points.
pub open spec fn sim_ready(g: Game) -> bool {
    &&& g.current_player < 2
    &&& g.last_capturer matches Some(c) ==> c < 2
    &&& all_valid(g.deck@)
    &&& all_valid(g.players[0].hand@)
    &&& all_valid(g.players[1].hand@)
    &&& all_valid(g.table@)
    &&& g.players[0].escobas + in_play(g) + 4 <= u32::MAX
    &&& g.players[1].escobas + in_play(g) + 4 <= u32::MAX
}

/// What a capture leaves on the table comes from the table.
proof fn lemma_kept_valid(t: Seq<Card>, idx: Seq<usize>, j: int)
    requires
        all_valid(t),
    ensures
        all_valid(kept_from(t, idx, j)),
    decreases t.len() - j,
{
    if 0 <= j < t.len() {
        lemma_kept_valid(t, idx, j + 1);
        let rest = kept_from(t, idx, j + 1);
        if !idx.contains(j as usize) {
            assert forall|k: int| 0 <= k < (seq![t[j]] + rest).len() implies
                #[trigger] crate::card::valid_card((seq![t[j]] + rest)[k]) by {
                if k > 0 {
                    assert((seq![t[j]] + rest)[k] == rest[k - 1]);
                }
            }
        }
    }
}

/// The top and the rest of a valid pile are valid, and together as long as the pile.
proof fn lemma_top_valid(pile: Seq<Card>, n: nat)
    requires
        all_valid(pile),
    ensures
        all_valid(top_cards(pile, n)),
        all_valid(below_top(pile, n)),
        top_cards(pile, n).len() + below_top(pile, n).len() == pile.len(),
{
    if n <= pile.len() {
        assert forall|k: int| 0 <= k < top_cards(pile, n).len() implies
            #[trigger] crate::card::valid_card(top_cards(pile, n)[k]) by {
            assert(top_cards(pile, n)[k] == pile[pile.len() - n + k]);
        }
        assert forall|k: int| 0 <= k < below_top(pile, n).len() implies
            #[trigger] crate::card::valid_card(below_top(pile, n)[k]) by {
            assert(below_top(pile, n)[k] == pile[k]);
        }
    }
}

/// Appending valid cards to valid cards.
proof fn lemma_concat_valid(a: Seq<Card>, b: Seq<Card>)
    requires
        all_valid(a),
        all_valid(b),
    ensures
        all_valid(a + b),
{
    assert forall|k: int| 0 <= k < (a + b).len() implies #[trigger] crate::card::valid_card((a + b)[k]) by {
        if k < a.len() {
            assert((a + b)[k] == a[k]);
        } else {
            assert((a + b)[k] == b[k - a.len()]);
        }
    }
}

/// A play keeps a game ready for simulation; an accepted one uses up one card.
pub proof fn lemma_play_keeps_ready(g0: Game, i: usize, sel: Option<Seq<usize>>, r: Result<PlayResult, GameError>, g1: Game)
    requires
        sim_ready(g0),
        played(g0, i, sel, r, g1),
    ensures
        sim_ready(g1),
        r is Ok ==> in_play(g1) + 1 == in_play(g0),
        r is Err ==> in_play(g1) == in_play(g0),
{
    if r is Ok {
        let p = g0.current_player as int;
        let h = g0.players[p].hand@;
        assert(all_valid(h.remove(i as int))) by {
            assert forall|k: int| 0 <= k < h.remove(i as int).len() implies
                #[trigger] crate::card::valid_card(h.remove(i as int)[k]) by {
                if k < i {
                    assert(h.remove(i as int)[k] == h[k]);
                } else {
                    assert(h.remove(i as int)[k] == h[k + 1]);
                }
            }
        }
        match sel {
            None => {
                lemma_concat_valid(g0.table@, seq![h[i as int]]);
                assert(g0.table@.push(h[i as int]) == g0.table@ + seq![h[i as int]]);
            },
            Some(idx) => {
                lemma_kept_valid(g0.table@, idx, 0);
            },
        }
        if p == 0 {
            assert(sim_ready(g1));
        } else {
            assert(sim_ready(g1));
        }
    }
}

/// Passing the turn keeps a game ready for simulation and uses up no card to play
/// that it does not move to a hand or the table.
pub proof fn lemma_turn_keeps_ready(g0: Game, g1: Game)
    requires
        sim_ready(g0),
        turn_passed(g0, g1),
    ensures
        sim_ready(g1),
        in_play(g1) <= in_play(g0),
{
    if hands_empty(g0) && g0.deck@.len() > 0 {
        let d0 = g0.deck@;
        let d1 = below_top(d0, 3);
        let d2 = below_top(d1, 3);
        lemma_top_valid(d0, 3);
        lemma_top_valid(d1, 3);
        lemma_top_valid(d2, 4);
        lemma_concat_valid(g0.players[0].hand@, top_cards(d0, 3));
        lemma_concat_valid(g0.players[1].hand@, top_cards(d1, 3));
        lemma_concat_valid(g0.table@, top_cards(d2, 4));
    } else if round_closes(g0) {
        if g0.table@.len() > 0 && g0.last_capturer is Some {
            let c = g0.last_capturer->0 as int;
            if c == 0 {
                assert(sim_ready(g1));
            } else {
                assert(sim_ready(g1));
            }
        }
    }
}

/// Every legal move names a card of the hand, and a capture among that card's
/// captures.
proof fn lemma_moves_upto_members(hand: Seq<Card>, table: Seq<Card>, k: int, m: int)
    requires
        0 <= k <= hand.len(),
        0 <= m < moves_upto(hand, table, k).len(),
        hand.len() <= usize::MAX,
    ensures
        moves_upto(hand, table, k)[m].0 < k,
        moves_upto(hand, table, k)[m].1 matches Some(c) ==> combinations_of(
            hand[moves_upto(hand, table, k)[m].0 as int],
            table,
        ).contains(c),
    decreases k,
{
    if k > 0 {
        let before = moves_upto(hand, table, k - 1);
        let card_moves = moves_of_card(hand, table, k - 1);
        if m < before.len() {
            lemma_moves_upto_members(hand, table, k - 1, m);
            assert(moves_upto(hand, table, k)[m] == before[m]);
        } else {
            let j = m - before.len();
            assert(moves_upto(hand, table, k)[m] == card_moves[j]);
            let combos = combinations_of(hand[k - 1], table);
            if j < combos.len() {
                assert(card_moves[j] == ((k - 1) as usize, Some(combos[j])));
                assert(combos.contains(combos[j]));
            }
        }
    }
}

/// Each hand card has at least one move, so there are moves exactly when the hand
/// holds a card.
proof fn lemma_moves_upto_len(hand: Seq<Card>, table: Seq<Card>, k: int)
    requires
        0 <= k,
    ensures
        moves_upto(hand, table, k).len() >= k,
    decreases k,
{
    if k > 0 {
        lemma_moves_upto_len(hand, table, k - 1);
    }
}

/// Every legal move the engine lists is accepted by `play_card` while the game is
/// in play.
pub proof fn law_legal_moves_accepted(g: Game, m: int)
    requires
        g.current_player < 2,
        g.state == GameState::Playing,
        g.table@.len() <= usize::MAX,
        g.players[g.current_player as int].hand@.len() <= usize::MAX,
        0 <= m < legal_moves(g).len(),
    ensures
        crate::game::play_refusal(g, legal_moves(g)[m].0, legal_moves(g)[m].1) is None,
{
    let hand = g.players[g.current_player as int].hand@;
    let mv = legal_moves(g)[m];
    lemma_moves_upto_members(hand, g.table@, hand.len() as int, m);
    if mv.1 is Some {
        let c = mv.1->0;
        let combos = combinations_of(hand[mv.0 as int], g.table@);
        let j = choose|j: int| 0 <= j < combos.len() && combos[j] == c;
        lemma_combinations_sound(hand[mv.0 as int], g.table@, j);
        assert(c.no_duplicates()) by {
            assert forall|a: int, b: int| 0 <= a < c.len() && 0 <= b < c.len() && a != b implies c[a] != c[b] by {
                if a < b {
                    assert(c[a] < c[b]);
                } else {
                    assert(c[b] < c[a]);
                }
            }
        }
        assert(valid_selection(hand[mv.0 as int], g.table@, c));
    }
}

/// Picks one of the moves at random with the thread-local generator.
///
/// Calls `rand::seq::SliceRandom::choose` on the slice with `rand::thread_rng()`.
/// Claimed: `None` exactly for an empty slice, otherwise one of its elements (the
/// crate's source indexes the slice with an index drawn below its length). Which
/// element is left unsaid: it rests on chance.
#[verifier::external_body]
fn choose_move(moves: &[AiMove]) -> (r: Option<&AiMove>)
    ensures
        r is None <==> moves@.len() == 0,
        r matches Some(m) ==> moves@.contains(*m),
{
    moves.choose(&mut rand::thread_rng())
}

/// A copy of an optional selection.
fn copy_selection(sel: &Option<Vec<usize>>) -> (r: Option<Vec<usize>>)
    ensures
        selection_view(r) == selection_view(*sel),
{
    match sel {
        Some(v) => Some(copy_indices(v)),
        None => None,
    }
}

/// A copy of a move.
fn copy_move(m: &AiMove) -> (r: AiMove)
    ensures
        r@ == m@,
{
    AiMove { hand_index: m.hand_index, table_indices: copy_selection(&m.table_indices) }
}

/// A copy of a player.
fn copy_player(p: &Player) -> (r: Player)
    ensures
        r.name == p.name,
        r.hand@ == p.hand@,
        r.captured@ == p.captured@,
        r.escobas == p.escobas,
{
    Player {
        name: p.name.clone(),
        hand: copy_cards(&p.hand),
        captured: copy_cards(&p.captured),
        escobas: p.escobas,
    }
}

/// A random playout may go on from `g`: the round is in play, the current player
/// holds a card and the table holds fewer than 32 cards.
pub open spec fn playout_continues(g: Game) -> bool {
    &&& g.state == GameState::Playing
    &&& g.table@.len() < 32
    &&& g.players[g.current_player as int].hand@.len() > 0
}

/// `g2` follows from `g0` by playing its `m`-th legal move, with result `r` giving
/// `g1`, then passing the turn.
pub open spec fn step_via(g0: Game, m: int, r: Result<PlayResult, GameError>, g1: Game, g2: Game) -> bool {
    &&& 0 <= m < legal_moves(g0).len()
    &&& played(g0, legal_moves(g0)[m].0, legal_moves(g0)[m].1, r, g1)
    &&& turn_passed(g1, g2)
}

/// `g2` follows from `g0` by one legal move and the passing of the turn.
pub open spec fn legal_step(g0: Game, g2: Game) -> bool {
    exists|m: int, r: Result<PlayResult, GameError>, g1: Game| #[trigger] step_via(g0, m, r, g1, g2)
}

/// The games of `path` follow one another by legal steps, each taken while the
/// playout may go on; the path runs from `start` to `end`, where it must stop.
pub open spec fn playout_path(start: Game, end: Game, path: Seq<Game>) -> bool {
    &&& path.len() >= 1
    &&& path[0] == start
    &&& path.last() == end
    &&& forall|i: int| 0 <= i < path.len() - 1 ==> playout_continues(#[trigger] path[i])
        && legal_step(path[i], path[i + 1])
    &&& !playout_continues(end)
}

/// `end` is reached from `start` by a random playout: legal moves, each followed by
/// the passing of the turn, until the playout must stop.
pub open spec fn playout_reaches(start: Game, end: Game) -> bool {
    exists|path: Seq<Game>| #[trigger] playout_path(start, end, path)
}

/// Plays the rest of the round with random legal moves, passing the turn after each.
/// Stops when the round is no longer in play, when the current player has no card,
/// or when the table holds 32 cards or more (the capture search covers fewer).
/// Whatever moves are drawn, no card is lost or created.
pub fn playout_round(game: &mut Game)
    requires
        sim_ready(*old(game)),
    ensures
        playout_reaches(*old(game), *final(game)),
        sim_ready(*final(game)),
        all_cards(*final(game)) == all_cards(*old(game)),
        in_play(*final(game)) <= in_play(*old(game)),
{
    let ghost mut path: Seq<Game> = seq![*game];
    while game.state == GameState::Playing
        invariant
            sim_ready(*game),
            all_cards(*game) == all_cards(*old(game)),
            in_play(*game) <= in_play(*old(game)),
            path.len() >= 1,
            path[0] == *old(game),
            path.last() == *game,
            forall|i: int| 0 <= i < path.len() - 1 ==> playout_continues(#[trigger] path[i])
                && legal_step(path[i], path[i + 1]),
        ensures
            sim_ready(*game),
            all_cards(*game) == all_cards(*old(game)),
            in_play(*game) <= in_play(*old(game)),
            playout_path(*old(game), *game, path),
        decreases in_play(*game),
    {
        if game.table.len() >= 32 {
            break;
        }
        let moves = enumerate_moves(game);
        proof {
            let hand = game.players[game.current_player as int].hand@;
            lemma_moves_upto_len(hand, game.table@, hand.len() as int);
        }
        if moves.len() == 0 {
            break;
        }
        match choose_move(moves.as_slice()) {
            Some(chosen) => {
                let ghost g0 = *game;
                let ghost k = choose|k: int| 0 <= k < moves@.len() && moves@[k] == *chosen;
                proof {
                    law_legal_moves_accepted(g0, k);
                    assert(moves@[k]@ == legal_moves(g0)[k]);
                }
                let sel = copy_selection(&chosen.table_indices);
                let r = game.play_card(chosen.hand_index, sel);
                let ghost g1 = *game;
                proof {
                    assert(r is Ok);
                    lemma_play_keeps_ready(g0, chosen.hand_index, selection_view(sel), r, g1);
                    law_play_keeps_cards(g0, chosen.hand_index, selection_view(sel), r, g1);
                }
                game.next_turn();
                proof {
                    lemma_turn_keeps_ready(g1, *game);
                    law_turn_keeps_cards(g1, *game);
                    assert(step_via(g0, k, r, g1, *game));
                    assert(legal_step(g0, *game));
                    assert(playout_continues(g0));
                    let old_path = path;
                    path = path.push(*game);
                    assert forall|i: int| 0 <= i < path.len() - 1 implies playout_continues(#[trigger] path[i])
                        && legal_step(path[i], path[i + 1]) by {
                        if i < old_path.len() - 1 {
                            assert(path[i] == old_path[i] && path[i + 1] == old_path[i + 1]);
                        } else {
                            assert(path[i] == g0);
                        }
                    }
                }
            },
            None => {
                break;
            },
        }
    }
    assert(playout_path(*old(game), *game, path));
}

/// `sim` is a copy of `game` as player `ai` imagines it: its own hand, the table and
/// every pile and count as they are, while the opponent's hand (of the same size)
/// and the deck are some redistribution of the cards it cannot see.
pub open spec fn determinized(game: Game, ai: int, sim: Game) -> bool {
    let opp = 1 - ai;
    &&& sim.players[ai].name == game.players[ai].name
    &&& sim.players[ai].hand@ == game.players[ai].hand@
    &&& sim.players[ai].captured@ == game.players[ai].captured@
    &&& sim.players[ai].escobas == game.players[ai].escobas
    &&& sim.players[opp].name == game.players[opp].name
    &&& sim.players[opp].captured@ == game.players[opp].captured@
    &&& sim.players[opp].escobas == game.players[opp].escobas
    &&& sim.players[opp].hand@.len() == game.players[opp].hand@.len()
    &&& sim.deck@.len() == game.deck@.len()
    &&& (sim.players[opp].hand@ + sim.deck@).to_multiset()
        == (game.players[opp].hand@ + game.deck@).to_multiset()
    &&& sim.table@ == game.table@
    &&& sim.current_player == game.current_player
    &&& sim.state == game.state
    &&& sim.last_capturer == game.last_capturer
    &&& sim.first_deal == game.first_deal
    &&& all_cards(sim) == all_cards(game)
}

/// A copy of the game in which the opponent of `ai_player` holds a random hand of
/// the same size, drawn together with the deck from the cards that player cannot
/// see (the opponent's hand and the deck); the rest become the deck.
pub fn determinize(game: &Game, ai_player: usize) -> (sim: Game)
    requires
        ai_player < 2,
    ensures
        determinized(*game, ai_player as int, sim),
{
    let opp = 1 - ai_player;
    let mut hidden = copy_cards(&game.players[opp].hand);
    let deck_cards = game.deck.cards();
    let mut i: usize = 0;
    while i < deck_cards.len()
        invariant
            i <= deck_cards@.len(),
            deck_cards@ == game.deck@,
            hidden@ == game.players[opp as int].hand@ + deck_cards@.take(i as int),
        decreases deck_cards@.len() - i,
    {
        assert(deck_cards@.take(i + 1 as int) == deck_cards@.take(i as int).push(deck_cards@[i as int]));
        hidden.push(deck_cards[i]);
        i = i + 1;
    }
    assert(deck_cards@.take(deck_cards@.len() as int) =~= deck_cards@);
    let ghost all_hidden = hidden@;
    shuffle_cards(&mut hidden);
    let ghost mixed = hidden@;
    let k = game.players[opp].hand.len();
    let rest = hidden.split_off(k);
    assert(hidden@ + rest@ =~= mixed);
    let opp_player = Player {
        name: game.players[opp].name.clone(),
        hand: hidden,
        captured: copy_cards(&game.players[opp].captured),
        escobas: game.players[opp].escobas,
    };
    let ai_copy = copy_player(&game.players[ai_player]);
    let players = if ai_player == 0 {
        [ai_copy, opp_player]
    } else {
        [opp_player, ai_copy]
    };
    let sim = Game {
        deck: Deck::from_cards(rest),
        players,
        table: copy_cards(&game.table),
        current_player: game.current_player,
        state: game.state,
        last_capturer: game.last_capturer,
        first_deal: game.first_deal,
    };
    proof {
        broadcast use {vstd::seq_lib::group_to_multiset_ensures, vstd::multiset::group_multiset_axioms};
        let o = opp as int;
        vstd::seq_lib::lemma_multiset_commutative(sim.players[o].hand@, sim.deck@);
        vstd::seq_lib::lemma_multiset_commutative(game.players[o].hand@, game.deck@);
        let ms = (sim.players[o].hand@ + sim.deck@).to_multiset();
        let mg = (game.players[o].hand@ + game.deck@).to_multiset();
        assert forall|x: Card| #[trigger] all_cards(sim).count(x) == all_cards(*game).count(x) by {
            assert(ms.count(x) == mg.count(x));
        }
        if ai_player == 0 {
            assert(all_cards(sim) =~= all_cards(*game));
        } else {
            assert(all_cards(sim) =~= all_cards(*game));
        }
    }
    sim
}

/// Cards with the same multiset as valid cards are valid.
proof fn lemma_permuted_valid(a: Seq<Card>, b: Seq<Card>)
    requires
        all_valid(b),
        a.to_multiset() == b.to_multiset(),
    ensures
        all_valid(a),
{
    broadcast use vstd::seq_lib::group_to_multiset_ensures;
    assert forall|k: int| 0 <= k < a.len() implies #[trigger] crate::card::valid_card(a[k]) by {
        assert(a.contains(a[k]));
        assert(a.to_multiset().count(a[k]) > 0);
        assert(b.contains(a[k]));
    }
}

/// A determinized copy of a ready game is ready, with as many cards to play.
proof fn lemma_determinize_ready(g: Game, ai_player: usize, sim: Game)
    requires
        sim_ready(g),
        ai_player < 2,
        ({
            let opp = 1 - ai_player;
            &&& sim.players[ai_player as int].hand@ == g.players[ai_player as int].hand@
            &&& sim.players[ai_player as int].escobas == g.players[ai_player as int].escobas
            &&& sim.players[opp].escobas == g.players[opp].escobas
            &&& sim.players[opp].hand@.len() == g.players[opp].hand@.len()
            &&& sim.deck@.len() == g.deck@.len()
            &&& (sim.players[opp].hand@ + sim.deck@).to_multiset() == (g.players[opp].hand@ + g.deck@).to_multiset()
            &&& sim.table@ == g.table@
            &&& sim.current_player == g.current_player
            &&& sim.last_capturer == g.last_capturer
        }),
    ensures
        sim_ready(sim),
        in_play(sim) == in_play(g),
{
    let opp = 1 - ai_player;
    let mixed = sim.players[opp].hand@ + sim.deck@;
    lemma_concat_valid(g.players[opp].hand@, g.deck@);
    lemma_permuted_valid(mixed, g.players[opp].hand@ + g.deck@);
    assert(all_valid(sim.players[opp].hand@)) by {
        assert forall|k: int| 0 <= k < sim.players[opp].hand@.len() implies
            #[trigger] crate::card::valid_card(sim.players[opp].hand@[k]) by {
            assert(mixed[k] == sim.players[opp].hand@[k]);
        }
    }
    assert(all_valid(sim.deck@)) by {
        assert forall|k: int| 0 <= k < sim.deck@.len() implies #[trigger] crate::card::valid_card(sim.deck@[k]) by {
            assert(mixed[sim.players[opp].hand@.len() + k] == sim.deck@[k]);
        }
    }
    if ai_player == 0 {
        assert(sim_ready(sim));
    } else {
        assert(sim_ready(sim));
    }
}

/// Half-points of a simulated round: 2 for a win, 1 for a draw, 0 for a loss.
pub open spec fn outcome_points_of(ours: u32, theirs: u32) -> u32 {
    if ours > theirs {
        2
    } else if ours == theirs {
        1
    } else {
        0
    }
}

/// Half-points of a simulated round from its two totals.
pub fn outcome_points(ours: u32, theirs: u32) -> (p: u32)
    ensures
        p == outcome_points_of(ours, theirs),
{
    if ours > theirs {
        2
    } else if ours == theirs {
        1
    } else {
        0
    }
}

/// Half-points of player `p` in a finished simulation: 2 when the round's total
/// beats the opponent's, 1 when they tie, 0 when it loses.
pub open spec fn round_outcome(end: Game, p: int) -> u32 {
    let ours = score_total(end.players[p].captured@, end.players[p].escobas, end.players[1 - p].captured@);
    let theirs = score_total(end.players[1 - p].captured@, end.players[1 - p].escobas, end.players[p].captured@);
    if ours > theirs {
        2
    } else if ours == theirs {
        1
    } else {
        0
    }
}

/// `end` is one simulated round of move `mv` for player `ai` from `game`: `d`
/// determinizes `game`, playing `mv` in `d` gives `r` and `g1`, passing the turn
/// gives `g2`, and a random playout from `g2` reaches `end`.
pub open spec fn simulation_chain(
    game: Game,
    ai: int,
    mv: (usize, Option<Seq<usize>>),
    d: Game,
    r: Result<PlayResult, GameError>,
    g1: Game,
    g2: Game,
    end: Game,
) -> bool {
    &&& determinized(game, ai, d)
    &&& played(d, mv.0, mv.1, r, g1)
    &&& turn_passed(g1, g2)
    &&& playout_reaches(g2, end)
}

/// `end` is the end of some simulated round of move `mv` for player `ai` from `game`.
pub open spec fn simulates(game: Game, ai: int, mv: (usize, Option<Seq<usize>>), end: Game) -> bool {
    exists|d: Game, r: Result<PlayResult, GameError>, g1: Game, g2: Game|
        #[trigger] simulation_chain(game, ai, mv, d, r, g1, g2, end)
}

/// `pts` is what player `ai` earns in some simulated round of move `mv` from `game`.
pub open spec fn simulated_outcome(game: Game, ai: int, mv: (usize, Option<Seq<usize>>), pts: u32) -> bool {
    exists|end: Game| #[trigger] simulates(game, ai, mv, end) && pts == round_outcome(end, ai)
}

/// Simulates one round in which `ai_player` makes move `mv` now: the hidden cards
/// are dealt at random, the move is played, the round is played out at random, and
/// the round's scores are compared. Returns the half-points the move earned: those
/// of the round reached from a determinization of `game` by playing `mv`, passing
/// the turn and playing out at random, whichever cards and moves chance gave.
pub fn simulate_move(game: &Game, ai_player: usize, mv: &AiMove) -> (pts: u32)
    requires
        sim_ready(*game),
        ai_player == game.current_player,
    ensures
        pts <= 2,
        simulated_outcome(*game, ai_player as int, mv@, pts),
{
    let mut sim = determinize(game, ai_player);
    proof {
        lemma_determinize_ready(*game, ai_player, sim);
    }
    let sel = copy_selection(&mv.table_indices);
    let ghost g0 = sim;
    // The table's length fits in a usize, which the card-keeping law asks for.
    let _table_len = sim.table.len();
    let r = sim.play_card(mv.hand_index, sel);
    let ghost g1 = sim;
    proof {
        lemma_play_keeps_ready(g0, mv.hand_index, selection_view(sel), r, g1);
        law_play_keeps_cards(g0, mv.hand_index, selection_view(sel), r, g1);
    }
    sim.next_turn();
    proof {
        lemma_turn_keeps_ready(g1, sim);
        law_turn_keeps_cards(g1, sim);
    }
    let ghost g2 = sim;
    playout_round(&mut sim);
    proof {
        assert(simulation_chain(*game, ai_player as int, mv@, g0, r, g1, g2, sim));
        assert(simulates(*game, ai_player as int, mv@, sim));
    }
    let opponent = 1 - ai_player;
    let our_score = calculate_score(
        sim.players[ai_player].captured.as_slice(),
        sim.players[ai_player].escobas,
        sim.players[opponent].captured.as_slice(),
    );
    let their_score = calculate_score(
        sim.players[opponent].captured.as_slice(),
        sim.players[opponent].escobas,
        sim.players[ai_player].captured.as_slice(),
    );
    let pts = outcome_points(our_score.total, their_score.total);
    assert(pts == round_outcome(sim, ai_player as int));
    pts
}

/// Position `k` holds the highest score, and no earlier position ties it.
pub open spec fn first_best(scores: Seq<u32>, k: int) -> bool {
    &&& 0 <= k < scores.len()
    &&& forall|j: int| 0 <= j < scores.len() ==> #[trigger] scores[j] <= scores[k]
    &&& forall|j: int| 0 <= j < k ==> #[trigger] scores[j] < scores[k]
}

/// The move with the highest score; among equal scores, the earliest.
pub fn best_move(moves: &Vec<AiMove>, scores: &Vec<u32>) -> (r: AiMove)
    requires
        moves@.len() == scores@.len(),
        moves@.len() > 0,
    ensures
        exists|k: int| first_best(scores@, k) && r@ == moves@[k]@,
{
    let mut best: usize = 0;
    let mut i: usize = 1;
    while i < scores.len()
        invariant
            1 <= i <= scores@.len(),
            best < i,
            forall|j: int| 0 <= j < i ==> #[trigger] scores@[j] <= scores@[best as int],
            forall|j: int| 0 <= j < best ==> #[trigger] scores@[j] < scores@[best as int],
        decreases scores@.len() - i,
    {
        if scores[i] > scores[best] {
            best = i;
        }
        i = i + 1;
    }
    assert(first_best(scores@, best as int));
    copy_move(&moves[best])
}

/// The first best position is unique.
pub proof fn lemma_first_best_unique(scores: Seq<u32>, k: int, l: int)
    requires
        first_best(scores, k),
        first_best(scores, l),
    ensures
        k == l,
{
    if k < l {
        assert(scores[k] < scores[l]);
        assert(scores[l] <= scores[k]);
    } else if l < k {
        assert(scores[l] < scores[k]);
        assert(scores[k] <= scores[l]);
    }
}

/// The sum of the numbers.
pub open spec fn sum_of(s: Seq<u32>) -> int
    decreases s.len(),
{
    if s.len() == 0 {
        0
    } else {
        sum_of(s.drop_last()) + s.last()
    }
}

/// Each of `outcomes` is what player `ai` earns in some simulated round of `mv`.
pub open spec fn outcomes_of(game: Game, ai: int, mv: (usize, Option<Seq<usize>>), outcomes: Seq<u32>) -> bool {
    forall|t: int| 0 <= t < outcomes.len() ==> simulated_outcome(game, ai, mv, #[trigger] outcomes[t])
}

/// `score` is the sum of `n` simulated rounds of move `mv` for player `ai`.
pub open spec fn move_scored(game: Game, ai: int, mv: (usize, Option<Seq<usize>>), n: nat, score: u32) -> bool {
    exists|outcomes: Seq<u32>| #[trigger] outcomes_of(game, ai, mv, outcomes) && outcomes.len() == n
        && sum_of(outcomes) == score
}

/// The number of simulated rounds each of `count` moves gets: an equal share of the
/// difficulty's rounds, at least one.
pub open spec fn rounds_per_move(d: Difficulty, count: nat) -> nat {
    let share = simulations_of(d) / (count as u32);
    if share > 1 {
        share as nat
    } else {
        1
    }
}

/// `choice` is the legal move whose score is highest (the earliest on a tie), where
/// `scores` holds, for each legal move in order, the sum of its share of simulated
/// rounds for the current player.
pub open spec fn scored_choice(game: Game, d: Difficulty, scores: Seq<u32>, choice: (usize, Option<Seq<usize>>)) -> bool {
    let moves = legal_moves(game);
    &&& scores.len() == moves.len()
    &&& forall|j: int| 0 <= j < moves.len() ==> move_scored(
        game,
        game.current_player as int,
        moves[j],
        rounds_per_move(d, moves.len()),
        #[trigger] scores[j],
    )
    &&& exists|k: int| first_best(scores, k) && choice == moves[k]
}

/// Suggests a move for the current player by simulation: each legal move is tried
/// in an equal share of the difficulty's simulated rounds (at least one), with the
/// hidden cards dealt at random and the round played out at random, and the move
/// that earns the most wins (a draw counting half) is chosen, the earliest on a tie.
/// With a single legal move, that move is returned without simulating.
pub fn suggest_play(game: &Game, difficulty: Difficulty) -> (r: AiMove)
    requires
        sim_ready(*game),
        game.players[game.current_player as int].hand@.len() > 0,
        game.table@.len() < 32,
        legal_moves(*game).len() >= 2 ==> (legal_moves(*game).len() as u32) != 0,
    ensures
        legal_moves(*game).contains(r@),
        legal_moves(*game).len() == 1 ==> r@ == legal_moves(*game)[0],
        legal_moves(*game).len() >= 2 ==> exists|scores: Seq<u32>| #[trigger] scored_choice(*game, difficulty, scores, r@),
{
    let ai_player = game.current_player;
    let moves = enumerate_moves(game);
    proof {
        let hand = game.players[game.current_player as int].hand@;
        lemma_moves_upto_len(hand, game.table@, hand.len() as int);
    }
    if moves.len() == 1 {
        let m = copy_move(&moves[0]);
        assert(m@ == legal_moves(*game)[0]);
        return m;
    }
    let simulations = difficulty.simulations();
    let count: u32 = #[verifier::truncate] (moves.len() as u32);
    let sims_per_move = simulations / count;
    let total: u32 = if sims_per_move > 1 { sims_per_move } else { 1 };
    let ghost legal = legal_moves(*game);
    let ghost n = rounds_per_move(difficulty, legal.len());
    assert(total as nat == n);
    let mut scores: Vec<u32> = Vec::new();
    let mut j: usize = 0;
    while j < moves.len()
        invariant
            j <= moves@.len(),
            scores@.len() == j,
            total <= 10000,
            total as nat == n,
            sim_ready(*game),
            ai_player == game.current_player,
            legal == legal_moves(*game),
            moves@.len() == legal.len(),
            forall|q: int| 0 <= q < moves@.len() ==> #[trigger] moves@[q]@ == legal[q],
            forall|q: int| 0 <= q < j ==> move_scored(*game, ai_player as int, legal[q], n, #[trigger] scores@[q]),
        decreases moves@.len() - j,
    {
        let mut wins: u32 = 0;
        let mut t: u32 = 0;
        let ghost mut outcomes: Seq<u32> = Seq::empty();
        while t < total
            invariant
                t <= total,
                total <= 10000,
                wins <= 2 * t,
                sim_ready(*game),
                ai_player == game.current_player,
                j < moves@.len(),
                outcomes.len() == t,
                sum_of(outcomes) == wins,
                outcomes_of(*game, ai_player as int, moves@[j as int]@, outcomes),
            decreases total - t,
        {
            let pts = simulate_move(game, ai_player, &moves[j]);
            proof {
                let before = outcomes;
                outcomes = outcomes.push(pts);
                assert(outcomes.drop_last() == before);
                assert forall|x: int| 0 <= x < outcomes.len() implies simulated_outcome(
                    *game,
                    ai_player as int,
                    moves@[j as int]@,
                    #[trigger] outcomes[x],
                ) by {
                    if x < before.len() {
                        assert(outcomes[x] == before[x]);
                    }
                }
            }
            wins = wins + pts;
            t = t + 1;
        }
        proof {
            assert(moves@[j as int]@ == legal[j as int]);
            assert(outcomes_of(*game, ai_player as int, legal[j as int], outcomes));
            assert(move_scored(*game, ai_player as int, legal[j as int], n, wins));
        }
        let ghost before = scores@;
        scores.push(wins);
        proof {
            assert forall|q: int| 0 <= q < j + 1 implies move_scored(*game, ai_player as int, legal[q], n, #[trigger] scores@[q]) by {
                if q < j {
                    assert(scores@[q] == before[q]);
                }
            }
        }
        j = j + 1;
    }
    let r = best_move(&moves, &scores);
    proof {
        let k = choose|k: int| first_best(scores@, k) && r@ == moves@[k]@;
        assert(moves@[k]@ == legal_moves(*game)[k]);
        assert(scored_choice(*game, difficulty, scores@, r@));
    }
    r
}

/// The moves of the first `k` hand cards include those of each of them.
proof fn lemma_moves_upto_includes(hand: Seq<Card>, table: Seq<Card>, k: int, i: int, j: int)
    requires
        0 <= i < k,
        0 <= j < moves_of_card(hand, table, i).len(),
    ensures
        moves_upto(hand, table, k).contains(moves_of_card(hand, table, i)[j]),
    decreases k,
{
    let before = moves_upto(hand, table, k - 1);
    let whole = moves_upto(hand, table, k);
    assert(whole == before + moves_of_card(hand, table, k - 1));
    if i == k - 1 {
        assert(whole[before.len() + j] == moves_of_card(hand, table, i)[j]);
    } else {
        lemma_moves_upto_includes(hand, table, k - 1, i, j);
        let p = choose|p: int| 0 <= p < before.len() && before[p] == moves_of_card(hand, table, i)[j];
        assert(whole[p] == before[p]);
    }
}

/// Every capture the rules allow, written as its table positions in increasing
/// order, is among the legal moves; so is dropping any hand card.
pub proof fn law_every_play_is_listed(g: Game, i: usize, s: Seq<usize>)
    requires
        g.current_player < 2,
        i < g.players[g.current_player as int].hand@.len(),
        g.table@.len() <= usize::MAX,
        s.len() > 0 ==> increasing_below(s, g.table@.len()) && makes_fifteen(
            g.players[g.current_player as int].hand@[i as int],
            g.table@,
            s,
        ),
    ensures
        legal_moves(g).contains((i, None::<Seq<usize>>)),
        s.len() > 0 ==> legal_moves(g).contains((i, Some(s))),
{
    let hand = g.players[g.current_player as int].hand@;
    let t = g.table@;
    let combos = combinations_of(hand[i as int], t);
    let card_moves = moves_of_card(hand, t, i as int);
    assert(card_moves[combos.len() as int] == (i, None::<Seq<usize>>));
    lemma_moves_upto_includes(hand, t, hand.len() as int, i as int, combos.len() as int);
    if s.len() > 0 {
        lemma_combinations_complete(hand[i as int], t, s);
        let j = choose|j: int| 0 <= j < combos.len() && combos[j] == s;
        assert(card_moves[j] == (i, Some(s)));
        lemma_moves_upto_includes(hand, t, hand.len() as int, i as int, j);
    }
}

/// The moves of one listed play: each of its captures, then its drop.
pub open spec fn moves_of_listed_play(p: Play) -> Seq<(usize, Option<Seq<usize>>)> {
    p.captures@.map_values(|c: Capture| (p.hand_index, Some(c.table_indices@))).push((p.hand_index, None))
}

/// The moves of the first `k` listed plays, play by play.
pub open spec fn moves_of_plays(plays: Seq<Play>, k: int) -> Seq<(usize, Option<Seq<usize>>)>
    decreases k,
{
    if k <= 0 {
        Seq::empty()
    } else {
        moves_of_plays(plays, k - 1) + moves_of_listed_play(plays[k - 1])
    }
}

/// The legal moves are the valid plays unrolled: for each play in hand order, one
/// move per listed capture, then its drop.
pub proof fn law_moves_follow_plays(g: Game, plays: Seq<Play>)
    requires
        plays.len() == g.players[g.current_player as int].hand@.len(),
        forall|i: int| 0 <= i < plays.len() ==> play_lists(#[trigger] plays[i], i,
            g.players[g.current_player as int].hand@, g.table@),
    ensures
        legal_moves(g) == moves_of_plays(plays, plays.len() as int),
{
    let hand = g.players[g.current_player as int].hand@;
    lemma_moves_follow_plays(hand, g.table@, plays, plays.len() as int);
}

proof fn lemma_moves_follow_plays(hand: Seq<Card>, table: Seq<Card>, plays: Seq<Play>, k: int)
    requires
        0 <= k <= plays.len(),
        plays.len() == hand.len(),
        forall|i: int| 0 <= i < plays.len() ==> play_lists(#[trigger] plays[i], i, hand, table),
    ensures
        moves_upto(hand, table, k) == moves_of_plays(plays, k),
    decreases k,
{
    if k > 0 {
        lemma_moves_follow_plays(hand, table, plays, k - 1);
        let i = k - 1;
        let p = plays[i];
        assert(play_lists(p, i, hand, table));
        let a = moves_of_card(hand, table, i);
        let b = moves_of_listed_play(p);
        let combos = combinations_of(hand[i], table);
        assert forall|j: int| 0 <= j < a.len() implies a[j] == b[j] by {
            if j < combos.len() {
                assert(p.captures@[j].table_indices@ == combos[j]);
            }
        }
        assert(a =~= b);
    }
}

/// A hand card has at most `2^n` moves on a table of `n` cards, so the current
/// player has at most the hand's size times `2^n`.
pub proof fn law_legal_moves_bound(g: Game)
    ensures
        legal_moves(g).len() <= g.players[g.current_player as int].hand@.len() * pow2(g.table@.len()),
{
    let hand = g.players[g.current_player as int].hand@;
    lemma_moves_upto_bound(hand, g.table@, hand.len() as int);
}

proof fn lemma_moves_upto_bound(hand: Seq<Card>, table: Seq<Card>, k: int)
    requires
        0 <= k,
    ensures
        moves_upto(hand, table, k).len() <= k * pow2(table.len()),
    decreases k,
{
    if k > 0 {
        lemma_moves_upto_bound(hand, table, k - 1);
        let subs = nonempty_subsets(table.len());
        subs.lemma_filter_len(fifteen_with(hand[k - 1], table));
        lemma_pow2_pos(table.len());
        let p = pow2(table.len());
        let prev = moves_upto(hand, table, k - 1).len();
        assert(prev + p <= k * p) by (nonlinear_arith)
            requires
                prev <= (k - 1) * p,
        ;
    }
}

/// The half-points of a simulated round compare the two players' round totals as
/// `calculate_score` gives them, escobas included: 2 when the player's total is
/// higher, 1 when they are equal, 0 when it is lower.
pub proof fn law_outcome_compares_totals(end: Game, p: int, ours: ScoreBreakdown, theirs: ScoreBreakdown)
    requires
        0 <= p < 2,
        breakdown_matches(ours, end.players[p].captured@, end.players[p].escobas, end.players[1 - p].captured@),
        breakdown_matches(theirs, end.players[1 - p].captured@, end.players[1 - p].escobas, end.players[p].captured@),
    ensures
        ours.total > theirs.total <==> round_outcome(end, p) == 2,
        ours.total == theirs.total <==> round_outcome(end, p) == 1,
        ours.total < theirs.total <==> round_outcome(end, p) == 0,
{
}

/// One more escoba, with the same piles on both sides and the same escobas for the
/// opponent, never lowers what a simulated round earns, and turns a draw into a win.
pub proof fn law_escoba_counts_in_outcome(end1: Game, end2: Game, p: int)
    requires
        0 <= p < 2,
        end1.players[p].captured@ == end2.players[p].captured@,
        end1.players[1 - p].captured@ == end2.players[1 - p].captured@,
        end1.players[1 - p].escobas == end2.players[1 - p].escobas,
        end1.players[p].escobas == end2.players[p].escobas + 1,
    ensures
        round_outcome(end1, p) >= round_outcome(end2, p),
        round_outcome(end2, p) == 1 ==> round_outcome(end1, p) == 2,
{
}

} // verus!

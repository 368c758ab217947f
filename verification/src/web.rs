use vstd::prelude::*;
use vstd::string::*;

use crate::ai::Difficulty;
use crate::game::{Game, GameError, PlayResult, played, play_requires, selection_view, turn_passed};
use crate::lang::Lang;
use crate::scoring::{ScoreBreakdown, breakdown_matches, calculate_score, is_game_over, score_total, winner_at};
use crate::text::{
    lowercase_of, trimmed, json_indices, json_scores, to_lower, trim_text, indices_from_json,
    scores_from_json, text_is,
};

verus! {

/// The language a code names: "en" in any case is English, anything else Spanish.
pub open spec fn lang_named(code: Seq<char>) -> Lang {
    if lowercase_of(code) == "en"@ {
        Lang::En
    } else {
        Lang::Es
    }
}

/// Reads a language code; anything but "en" (in any case) means Spanish.
pub fn parse_lang(s: &str) -> (l: Lang)
    ensures
        l == lang_named(s@),
{
    let lower = to_lower(s);
    if text_is(&lower, "en") {
        Lang::En
    } else {
        Lang::Es
    }
}

/// The difficulty a word names: "easy" or "hard" in any case, anything else Medium.
pub open spec fn difficulty_named(word: Seq<char>) -> Difficulty {
    if lowercase_of(word) == "easy"@ {
        Difficulty::Easy
    } else if lowercase_of(word) == "hard"@ {
        Difficulty::Hard
    } else {
        Difficulty::Medium
    }
}

/// Reads a difficulty word; anything but "easy" or "hard" (in any case) means Medium.
pub fn parse_difficulty(s: &str) -> (d: Difficulty)
    ensures
        d == difficulty_named(s@),
{
    let lower = to_lower(s);
    if text_is(&lower, "easy") {
        Difficulty::Easy
    } else if text_is(&lower, "hard") {
        Difficulty::Hard
    } else {
        Difficulty::Medium
    }
}

/// Reads the table selection of a play: "null" or nothing (around white space) is a
/// drop, anything else must be a JSON array of indices.
pub fn parse_selection(text: &str) -> (r: Result<Option<Vec<usize>>, serde_json::Error>)
    ensures
        ({
            let t = trimmed(text@);
            &&& (t == "null"@ || t.len() == 0) ==> (r matches Ok(None))
            &&& !(t == "null"@ || t.len() == 0) ==> {
                &&& r is Ok <==> json_indices(t) is Some
                &&& r matches Ok(sel) ==> sel is Some && json_indices(t) == Some(sel->0@)
            }
        }),
{
    let t = trim_text(text);
    let owned = String::from_str(t);
    proof {
        reveal_strlit("");
        if owned@.len() == 0 {
            assert(owned@ =~= ""@);
        }
    }
    if text_is(&owned, "null") || text_is(&owned, "") {
        return Ok(None);
    }
    match indices_from_json(t) {
        Ok(indices) => Ok(Some(indices)),
        Err(e) => Err(e),
    }
}

/// Reads (name, score) pairs as JSON and tells whether the game is over and who won.
pub fn game_over_from_json(text: &str) -> (r: Result<Option<String>, serde_json::Error>)
    ensures
        r is Ok <==> json_scores(text@) is Some,
        r matches Ok(w) ==> {
            let scores = json_scores(text@)->0;
            &&& w is Some <==> exists|i: int| 0 <= i < scores.len() && scores[i].1 >= 15 && (forall|j: int|
                0 <= j < scores.len() && j != i ==> #[trigger] scores[j].1 < scores[i].1)
            &&& w matches Some(name) ==> exists|i: int| 0 <= i < scores.len() && scores[i].1 >= 15 && (forall|j: int|
                0 <= j < scores.len() && j != i ==> #[trigger] scores[j].1 < scores[i].1) && name@ == scores[i].0
        },
{
    match scores_from_json(text) {
        Ok(scores) => {
            let w = is_game_over(scores.as_slice());
            proof {
                let s = scores@;
                let named = json_scores(text@)->0;
                assert(named.len() == s.len());
                assert forall|i: int| 0 <= i < s.len() implies #[trigger] named[i] == (s[i].0@, s[i].1) by {}
                if w is Some {
                    let i = choose|i: int| winner_at(s, i) && w->0@ == s[i].0@;
                    assert(named[i] == (s[i].0@, s[i].1));
                    assert forall|j: int| 0 <= j < named.len() && j != i implies #[trigger] named[j].1 < named[i].1 by {
                        assert(named[j] == (s[j].0@, s[j].1));
                        assert(s[j].1 < s[i].1);
                    }
                } else {
                    assert forall|i: int| !(0 <= i < named.len() && named[i].1 >= 15 && (forall|j: int|
                        0 <= j < named.len() && j != i ==> #[trigger] named[j].1 < named[i].1)) by {
                        if 0 <= i < named.len() && named[i].1 >= 15 && (forall|j: int|
                            0 <= j < named.len() && j != i ==> #[trigger] named[j].1 < named[i].1) {
                            assert(named[i] == (s[i].0@, s[i].1));
                            assert forall|j: int| 0 <= j < s.len() && j != i implies #[trigger] s[j].1 < s[i].1 by {
                                assert(named[j] == (s[j].0@, s[j].1));
                                assert(named[j].1 < named[i].1);
                            }
                            assert(winner_at(s, i));
                        }
                    }
                }
            }
            Ok(w)
        },
        Err(e) => Err(e),
    }
}

/// Plays a card and, when the play is accepted, passes the turn (dealing or ending
/// the round when due); a refused play changes nothing.
pub fn play_and_pass(game: &mut Game, hand_card_idx: usize, table_card_indices: Option<Vec<usize>>) -> (r: Result<PlayResult, GameError>)
    requires
        play_requires(*old(game), hand_card_idx, selection_view(table_card_indices)),
        old(game).last_capturer matches Some(c) ==> c < 2,
    ensures
        r is Err ==> played(*old(game), hand_card_idx, selection_view(table_card_indices), r, *final(game)),
        r is Ok ==> exists|mid: Game|
            played(*old(game), hand_card_idx, selection_view(table_card_indices), r, mid)
                && turn_passed(mid, *final(game)),
{
    let ghost sel = selection_view(table_card_indices);
    let r = game.play_card(hand_card_idx, table_card_indices);
    if r.is_ok() {
        let ghost mid = *game;
        game.next_turn();
        assert(played(*old(game), hand_card_idx, sel, r, mid) && turn_passed(mid, *game));
    }
    r
}

/// The round's score breakdown of each player against the other.
pub fn round_scores(game: &Game) -> (r: (ScoreBreakdown, ScoreBreakdown))
    requires
        score_total(game.players[0].captured@, game.players[0].escobas, game.players[1].captured@) <= u32::MAX,
        score_total(game.players[1].captured@, game.players[1].escobas, game.players[0].captured@) <= u32::MAX,
    ensures
        breakdown_matches(r.0, game.players[0].captured@, game.players[0].escobas, game.players[1].captured@),
        breakdown_matches(r.1, game.players[1].captured@, game.players[1].escobas, game.players[0].captured@),
{
    let p0 = &game.players[0];
    let p1 = &game.players[1];
    let s0 = calculate_score(p0.captured.as_slice(), p0.escobas, p1.captured.as_slice());
    let s1 = calculate_score(p1.captured.as_slice(), p1.escobas, p0.captured.as_slice());
    (s0, s1)
}

} // verus!

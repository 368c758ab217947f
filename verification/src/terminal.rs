use vstd::prelude::*;
use vstd::string::*;

use crate::ai::Difficulty;
use crate::game::{Play, copy_indices, selection_view};
use crate::lang::Lang;
use crate::text::{lowercase_of, usize_text, to_lower, parse_usize, text_is};

verus! {

/// What a line typed at an action prompt means.
#[derive(Debug, Clone, Copy, PartialEq, Eq, Structural)]
pub enum Input {
    Number(usize),
    Back,
    Invalid,
}

/// What a player chose to do with a card that can capture.
#[derive(Debug, Clone, Copy, PartialEq, Eq, Structural)]
pub enum Action {
    Back,
    Drop,
    Capture(usize),
}

/// Who plays: two people, or a person against the computer.
#[derive(Debug, Clone, Copy, PartialEq, Eq, Structural)]
pub enum GameMode {
    HumanVsHuman,
    HumanVsAi(Difficulty),
}

/// A lower-cased line that asks to leave the game.
pub open spec fn quit_word(lower: Seq<char>) -> bool {
    lower == "q"@ || lower == "quit"@ || lower == "exit"@ || lower == "salir"@
}

/// A lower-cased line that asks to leave before a language is chosen.
pub open spec fn early_quit_word(lower: Seq<char>) -> bool {
    lower == "q"@ || lower == "quit"@ || lower == "exit"@
}

/// A lower-cased line that asks to go back.
pub open spec fn back_word(lower: Seq<char>) -> bool {
    lower == "b"@ || lower == "back"@ || lower == "volver"@
}

/// Whether the line asks to leave: "q", "quit", "exit" or "salir", in any case.
pub fn is_quit(input: &str) -> (b: bool)
    ensures
        b == quit_word(lowercase_of(input@)),
{
    let lower = to_lower(input);
    text_is(&lower, "q") || text_is(&lower, "quit") || text_is(&lower, "exit") || text_is(&lower, "salir")
}

/// Whether the line asks to leave before a language is chosen: "q", "quit" or
/// "exit", in any case.
pub fn is_early_quit(input: &str) -> (b: bool)
    ensures
        b == early_quit_word(lowercase_of(input@)),
{
    let lower = to_lower(input);
    text_is(&lower, "q") || text_is(&lower, "quit") || text_is(&lower, "exit")
}

/// The number a line spells, if it spells one.
pub fn parse_number(input: &str) -> (r: Option<usize>)
    ensures
        r == usize_text(input@),
{
    parse_usize(input)
}

/// Reads an action prompt: "b", "back" or "volver" (any case) goes back, a number
/// is a number, anything else is invalid.
pub fn classify_input(input: &str) -> (r: Input)
    ensures
        back_word(lowercase_of(input@)) ==> r == Input::Back,
        !back_word(lowercase_of(input@)) ==> r == match usize_text(input@) {
            Some(n) => Input::Number(n),
            None => Input::Invalid,
        },
{
    let lower = to_lower(input);
    if text_is(&lower, "b") || text_is(&lower, "back") || text_is(&lower, "volver") {
        return Input::Back;
    }
    match parse_usize(input) {
        Some(n) => Input::Number(n),
        None => Input::Invalid,
    }
}

/// The name typed, or the default when nothing was typed.
pub fn name_or_default(input: &str, default: &str) -> (r: String)
    ensures
        input@.len() == 0 ==> r@ == default@,
        input@.len() > 0 ==> r@ == input@,
{
    if input.is_empty() {
        String::from_str(default)
    } else {
        String::from_str(input)
    }
}

/// The language of a menu choice: 1 Spanish, 2 English.
pub fn language_for_choice(choice: usize) -> (r: Option<Lang>)
    ensures
        r == if choice == 1 {
            Some(Lang::Es)
        } else if choice == 2 {
            Some(Lang::En)
        } else {
            None::<Lang>
        },
{
    if choice == 1 {
        Some(Lang::Es)
    } else if choice == 2 {
        Some(Lang::En)
    } else {
        None
    }
}

/// The game mode of a menu choice: 1 two players, 2-4 against the computer at
/// easy, medium or hard.
pub fn mode_for_choice(choice: usize) -> (r: Option<GameMode>)
    ensures
        r == if choice == 1 {
            Some(GameMode::HumanVsHuman)
        } else if choice == 2 {
            Some(GameMode::HumanVsAi(Difficulty::Easy))
        } else if choice == 3 {
            Some(GameMode::HumanVsAi(Difficulty::Medium))
        } else if choice == 4 {
            Some(GameMode::HumanVsAi(Difficulty::Hard))
        } else {
            None::<GameMode>
        },
{
    if choice == 1 {
        Some(GameMode::HumanVsHuman)
    } else if choice == 2 {
        Some(GameMode::HumanVsAi(Difficulty::Easy))
    } else if choice == 3 {
        Some(GameMode::HumanVsAi(Difficulty::Medium))
    } else if choice == 4 {
        Some(GameMode::HumanVsAi(Difficulty::Hard))
    } else {
        None
    }
}

/// The play a 1-based menu choice picks among `count` plays, as an index.
pub fn hand_choice(choice: usize, count: usize) -> (r: Option<usize>)
    ensures
        1 <= choice <= count ==> r == Some((choice - 1) as usize),
        !(1 <= choice <= count) ==> r is None,
{
    if choice >= 1 && choice <= count {
        Some(choice - 1)
    } else {
        None
    }
}

/// The action an input picks for a card with `num_captures` captures: 0 drops,
/// 1 to `num_captures` captures, "back" goes back; anything else is refused.
pub fn choose_action(input: Input, num_captures: usize) -> (r: Option<Action>)
    ensures
        r == match input {
            Input::Number(0) => Some(Action::Drop),
            Input::Number(n) => if 1 <= n <= num_captures {
                Some(Action::Capture(n))
            } else {
                None::<Action>
            },
            Input::Back => Some(Action::Back),
            Input::Invalid => None::<Action>,
        },
{
    match input {
        Input::Number(0) => Some(Action::Drop),
        Input::Number(n) => {
            if n >= 1 && n <= num_captures {
                Some(Action::Capture(n))
            } else {
                None
            }
        },
        Input::Back => Some(Action::Back),
        Input::Invalid => None,
    }
}

/// The table selection an action makes for a play: none to drop, the chosen
/// capture's positions (counted from 1) to capture; going back makes no play.
pub fn selection_for(play: &Play, action: Action) -> (r: Option<Option<Vec<usize>>>)
    requires
        action matches Action::Capture(n) ==> 1 <= n <= play.captures@.len(),
    ensures
        action == Action::Back ==> r is None,
        action == Action::Drop ==> r matches Some(None),
        action matches Action::Capture(n) ==> r is Some && selection_view(r->0) == Some(
            play.captures@[n - 1].table_indices@,
        ),
{
    match action {
        Action::Back => None,
        Action::Drop => Some(None),
        Action::Capture(n) => Some(Some(copy_indices(&play.captures[n - 1].table_indices))),
    }
}

/// Whether the computer plays the current turn: against the computer, it is the
/// second player.
pub fn is_computer_turn(mode: GameMode, current_player: usize) -> (b: bool)
    ensures
        b == (mode is HumanVsAi && current_player == 1),
{
    match mode {
        GameMode::HumanVsAi(_) => current_player == 1,
        GameMode::HumanVsHuman => false,
    }
}

/// Adds each player's round total to the running scores across rounds.
pub fn add_round_totals(totals: &mut [(String, u32); 2], first: u32, second: u32)
    requires
        old(totals)[0].1 + first <= u32::MAX,
        old(totals)[1].1 + second <= u32::MAX,
    ensures
        final(totals)[0].0 == old(totals)[0].0,
        final(totals)[1].0 == old(totals)[1].0,
        final(totals)[0].1 == old(totals)[0].1 + first,
        final(totals)[1].1 == old(totals)[1].1 + second,
{
    totals[0].1 = totals[0].1 + first;
    totals[1].1 = totals[1].1 + second;
}

} // verus!

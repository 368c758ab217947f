use escoba15_engine::ai::Difficulty;
use escoba15_engine::card::{Card, Suit};
use escoba15_engine::game::{Capture, Game, GameError, GameState, Play, PlayResult};
use escoba15_engine::lang::Lang;
use escoba15_engine::terminal::{
    add_round_totals, is_computer_turn,
    choose_action, classify_input, hand_choice, is_early_quit, is_quit, language_for_choice, mode_for_choice,
    name_or_default, parse_number, selection_for, Action, GameMode, Input,
};
use escoba15_engine::web::{
    game_over_from_json, parse_difficulty, parse_lang, parse_selection, play_and_pass, round_scores,
};

fn card(suit: Suit, rank: u8) -> Card {
    Card::new(suit, rank)
}

#[test]
fn languages_and_difficulties_from_words() {
    assert_eq!(parse_lang("EN"), Lang::En);
    assert_eq!(parse_lang("en"), Lang::En);
    assert_eq!(parse_lang("es"), Lang::Es);
    assert_eq!(parse_lang("fr"), Lang::Es);
    assert_eq!(parse_difficulty("Easy"), Difficulty::Easy);
    assert_eq!(parse_difficulty("HARD"), Difficulty::Hard);
    assert_eq!(parse_difficulty("whatever"), Difficulty::Medium);
}

#[test]
fn selections_from_json() {
    assert!(matches!(parse_selection("  null  "), Ok(None)));
    assert!(matches!(parse_selection(""), Ok(None)));
    assert_eq!(parse_selection(" [0, 2] ").unwrap(), Some(vec![0, 2]));
    assert!(parse_selection("[0,").is_err());
    assert!(parse_selection("[-1]").is_err());
}

#[test]
fn game_over_from_json_scores() {
    assert_eq!(game_over_from_json(r#"[["Alice", 16], ["Bob", 12]]"#).unwrap(), Some("Alice".to_string()));
    assert_eq!(game_over_from_json(r#"[["Alice", 15], ["Bob", 15]]"#).unwrap(), None);
    assert!(game_over_from_json("not json").is_err());
}

#[test]
fn play_and_pass_moves_turn_only_on_success() {
    let mut game = Game::new("A", "B");
    game.deal_round();
    let before = game.current_player;
    let err = play_and_pass(&mut game, 10, None).unwrap_err();
    assert_eq!(err, GameError::InvalidCard);
    assert_eq!(game.current_player, before);
    assert_eq!(play_and_pass(&mut game, 0, None).unwrap(), PlayResult::Dropped);
    assert_eq!(game.current_player, 1 - before);
    assert_eq!(game.table.len(), 5);
    assert_eq!(game.state, GameState::Playing);
}

#[test]
fn round_scores_for_both_players() {
    let mut game = Game::new("A", "B");
    game.players[0].captured = vec![card(Suit::Oros, 7), card(Suit::Copas, 7)];
    game.players[1].captured = vec![card(Suit::Bastos, 1)];
    game.players[1].escobas = 2;
    let (a, b) = round_scores(&game);
    assert_eq!(a.total, 4);
    assert_eq!(b.total, 2);
}

#[test]
fn terminal_words() {
    assert!(is_quit("Salir"));
    assert!(is_quit("QUIT"));
    assert!(!is_quit("quitar"));
    assert!(is_early_quit("exit"));
    assert!(!is_early_quit("salir"));
    assert_eq!(classify_input("VOLVER"), Input::Back);
    assert_eq!(classify_input("3"), Input::Number(3));
    assert_eq!(classify_input("+7"), Input::Number(7));
    assert_eq!(classify_input(" 3"), Input::Invalid);
    assert_eq!(classify_input("x"), Input::Invalid);
    assert_eq!(parse_number("42"), Some(42));
    assert_eq!(parse_number("-1"), None);
    assert_eq!(parse_number("99999999999999999999999"), None);
    assert_eq!(name_or_default("", "Jugador"), "Jugador");
    assert_eq!(name_or_default("Ana", "Jugador"), "Ana");
}

#[test]
fn terminal_choices() {
    assert_eq!(language_for_choice(2), Some(Lang::En));
    assert_eq!(language_for_choice(3), None);
    assert_eq!(mode_for_choice(1), Some(GameMode::HumanVsHuman));
    assert_eq!(mode_for_choice(4), Some(GameMode::HumanVsAi(Difficulty::Hard)));
    assert_eq!(mode_for_choice(0), None);
    assert_eq!(hand_choice(1, 3), Some(0));
    assert_eq!(hand_choice(4, 3), None);
    assert_eq!(hand_choice(0, 3), None);
    assert_eq!(choose_action(Input::Number(0), 2), Some(Action::Drop));
    assert_eq!(choose_action(Input::Number(2), 2), Some(Action::Capture(2)));
    assert_eq!(choose_action(Input::Number(3), 2), None);
    assert_eq!(choose_action(Input::Back, 2), Some(Action::Back));
    assert_eq!(choose_action(Input::Invalid, 2), None);
}

#[test]
fn selection_for_actions() {
    let play = Play {
        hand_index: 1,
        hand_card: card(Suit::Oros, 5),
        captures: vec![
            Capture { table_indices: vec![0], table_cards: vec![card(Suit::Copas, 12)] },
            Capture { table_indices: vec![1, 2], table_cards: vec![card(Suit::Copas, 3), card(Suit::Oros, 7)] },
        ],
        can_drop: true,
    };
    assert_eq!(selection_for(&play, Action::Back), None);
    assert_eq!(selection_for(&play, Action::Drop), Some(None));
    assert_eq!(selection_for(&play, Action::Capture(2)), Some(Some(vec![1, 2])));
}

#[test]
fn computer_turn_and_round_totals() {
    assert!(is_computer_turn(GameMode::HumanVsAi(Difficulty::Easy), 1));
    assert!(!is_computer_turn(GameMode::HumanVsAi(Difficulty::Easy), 0));
    assert!(!is_computer_turn(GameMode::HumanVsHuman, 1));
    let mut totals = [("A".to_string(), 10), ("B".to_string(), 3)];
    add_round_totals(&mut totals, 4, 2);
    assert_eq!(totals, [("A".to_string(), 14), ("B".to_string(), 5)]);
}

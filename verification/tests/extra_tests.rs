use escoba15_engine::ai::{
    best_move, determinize, enumerate_moves, outcome_points, playout_round, simulate_move, suggest_play,
    AiMove, Difficulty,
};
use escoba15_engine::card::{Card, Suit, VALID_RANKS};
use escoba15_engine::deck::Deck;
use escoba15_engine::game::{Game, GameError, GameState, PlayResult};
use escoba15_engine::lang::Lang;
use escoba15_engine::player::Player;
use escoba15_engine::scoring::{calculate_score, is_game_over};

fn card(suit: Suit, rank: u8) -> Card {
    Card::new(suit, rank)
}

fn total_cards(game: &Game) -> usize {
    game.deck.remaining()
        + game.players[0].hand.len()
        + game.players[1].hand.len()
        + game.table.len()
        + game.players[0].captured.len()
        + game.players[1].captured.len()
}

fn sorted_cards(cards: &[Card]) -> Vec<(u8, u8)> {
    let mut v: Vec<(u8, u8)> = cards
        .iter()
        .map(|c| {
            let s = match c.suit {
                Suit::Oros => 0,
                Suit::Copas => 1,
                Suit::Espadas => 2,
                Suit::Bastos => 3,
            };
            (s, c.rank)
        })
        .collect();
    v.sort();
    v
}

#[test]
fn display_names_in_spanish() {
    assert_eq!(card(Suit::Oros, 1).display_name(), "As de Oros");
    assert_eq!(card(Suit::Copas, 5).display_name(), "5 de Copas");
    assert_eq!(card(Suit::Espadas, 10).display_name(), "Sota de Espadas");
    assert_eq!(card(Suit::Bastos, 11).display_name(), "Caballo de Bastos");
    assert_eq!(card(Suit::Oros, 12).display_name(), "Rey de Oros");
}

#[test]
fn localized_names_in_both_languages() {
    assert_eq!(card(Suit::Oros, 12).localized_name(Lang::Es), "Rey de Oros");
    assert_eq!(card(Suit::Oros, 12).localized_name(Lang::En), "King of Coins");
    assert_eq!(card(Suit::Copas, 1).localized_name(Lang::En), "Ace of Cups");
    assert_eq!(card(Suit::Espadas, 10).localized_name(Lang::En), "Jack of Swords");
    assert_eq!(card(Suit::Bastos, 11).localized_name(Lang::En), "Knight of Clubs");
    assert_eq!(card(Suit::Bastos, 7).localized_name(Lang::En), "7 of Clubs");
    assert_eq!(card(Suit::Bastos, 7).localized_name(Lang::Es), "7 de Bastos");
}

#[test]
fn spanish_name_equals_display_name_for_every_card() {
    for suit in Suit::ALL {
        for &rank in &VALID_RANKS {
            let c = card(suit, rank);
            assert_eq!(c.localized_name(Lang::Es), c.display_name());
        }
    }
}

#[test]
fn suit_names_localized() {
    assert_eq!(Suit::Oros.localized(Lang::Es), "Oros");
    assert_eq!(Suit::Oros.localized(Lang::En), "Coins");
    assert_eq!(Suit::Copas.localized(Lang::En), "Cups");
    assert_eq!(Suit::Espadas.localized(Lang::En), "Swords");
    assert_eq!(Suit::Bastos.localized(Lang::En), "Clubs");
}

#[test]
fn fresh_deck_order() {
    let deck = Deck::new();
    let cards = deck.cards();
    assert_eq!(cards[0], card(Suit::Oros, 1));
    assert_eq!(cards[7], card(Suit::Oros, 10));
    assert_eq!(cards[10], card(Suit::Copas, 1));
    assert_eq!(cards[39], card(Suit::Bastos, 12));
}

#[test]
fn draw_takes_from_top_and_draw_n_keeps_order() {
    let mut deck = Deck::from_cards(vec![card(Suit::Oros, 1), card(Suit::Oros, 2), card(Suit::Oros, 3)]);
    assert_eq!(deck.draw(), Some(card(Suit::Oros, 3)));
    let drawn = deck.draw_n(5);
    assert_eq!(drawn, vec![card(Suit::Oros, 1), card(Suit::Oros, 2)]);
    assert!(deck.is_empty());
}

#[test]
fn shuffle_permutes_the_deck() {
    let mut deck = Deck::new();
    deck.shuffle();
    let fresh = Deck::new();
    assert_eq!(sorted_cards(deck.cards()), sorted_cards(fresh.cards()));
    // 40! orders: the shuffled deck is, with overwhelming probability, not in fresh order.
    assert_ne!(deck.cards(), fresh.cards());
}

#[test]
fn remove_from_hand_takes_first_match_only() {
    let mut p = Player::new("P");
    let a = card(Suit::Oros, 3);
    let b = card(Suit::Copas, 4);
    p.add_to_hand(vec![a, b, a]);
    assert_eq!(p.remove_from_hand(&a), Some(a));
    assert_eq!(p.hand, vec![b, a]);
    assert_eq!(p.remove_from_hand(&card(Suit::Bastos, 1)), None);
    assert_eq!(p.hand, vec![b, a]);
}

#[test]
fn combinations_listed_in_mask_order() {
    // hand 5; table: 10 (Rey), 3, 7, 5+5 needs 5... table [Rey, 3, 7, 5]
    let hand = card(Suit::Oros, 5);
    let table = vec![card(Suit::Copas, 12), card(Suit::Espadas, 3), card(Suit::Bastos, 7), card(Suit::Copas, 5)];
    let combos = Game::find_combinations(&hand, &table);
    // masks: [0] (1), [1,2] (6), [3]? 5+5=10 no; [0]... only masks summing to 10
    assert_eq!(combos, vec![vec![0], vec![1, 2]]);
}

#[test]
fn combinations_every_subset_found() {
    // hand As (1): table of five 2s and a 4 -> 1+2+2+2+2+... need 14 from table.
    let hand = card(Suit::Oros, 1);
    let table = vec![card(Suit::Oros, 2), card(Suit::Copas, 2), card(Suit::Espadas, 2), card(Suit::Bastos, 2), card(Suit::Oros, 6)];
    let combos = Game::find_combinations(&hand, &table);
    // 14 = 2+2+6+... : {2,2,2,2,6} = 14 -> one subset of all five; {2,6} combos give 8 no.
    assert_eq!(combos, vec![vec![0, 1, 2, 3, 4]]);
}

#[test]
fn capture_order_is_highest_index_first_then_hand_card() {
    let mut game = Game::new("A", "B");
    game.state = GameState::Playing;
    game.current_player = 0;
    game.players[0].hand = vec![card(Suit::Oros, 5), card(Suit::Copas, 1)];
    game.table = vec![card(Suit::Espadas, 3), card(Suit::Bastos, 2), card(Suit::Copas, 7), card(Suit::Oros, 2)];
    let r = game.play_card(0, Some(vec![0, 2])).unwrap();
    assert_eq!(
        r,
        PlayResult::Captured {
            cards: vec![card(Suit::Copas, 7), card(Suit::Espadas, 3), card(Suit::Oros, 5)],
            escoba: false
        }
    );
    assert_eq!(game.table, vec![card(Suit::Bastos, 2), card(Suit::Oros, 2)]);
    assert_eq!(game.players[0].hand, vec![card(Suit::Copas, 1)]);
    assert_eq!(game.last_capturer, Some(0));
    assert_eq!(game.players[0].escobas, 0);
}

#[test]
fn refused_plays_change_nothing() {
    let mut game = Game::new("A", "B");
    game.state = GameState::Playing;
    game.players[0].hand = vec![card(Suit::Oros, 5)];
    game.table = vec![card(Suit::Copas, 12), card(Suit::Espadas, 3)];
    // duplicate index
    assert_eq!(game.play_card(0, Some(vec![0, 0])).unwrap_err(), GameError::InvalidCombination);
    // out of range
    assert_eq!(game.play_card(0, Some(vec![5])).unwrap_err(), GameError::InvalidCombination);
    // empty selection
    assert_eq!(game.play_card(0, Some(vec![])).unwrap_err(), GameError::InvalidCombination);
    // wrong sum
    assert_eq!(game.play_card(0, Some(vec![1])).unwrap_err(), GameError::InvalidCombination);
    assert_eq!(game.players[0].hand.len(), 1);
    assert_eq!(game.table.len(), 2);
    assert_eq!(game.last_capturer, None);
}

#[test]
fn escoba_counts_and_round_end_gives_table_to_last_capturer() {
    let mut game = Game::new("A", "B");
    game.deck = Deck::from_cards(vec![]);
    game.state = GameState::Playing;
    game.current_player = 0;
    game.players[0].hand = vec![card(Suit::Oros, 7)];
    game.players[1].hand = vec![card(Suit::Copas, 2)];
    game.table = vec![card(Suit::Copas, 10)];
    let r = game.play_card(0, Some(vec![0])).unwrap();
    assert_eq!(r, PlayResult::Captured { cards: vec![card(Suit::Copas, 10), card(Suit::Oros, 7)], escoba: true });
    assert_eq!(game.players[0].escobas, 1);
    game.next_turn();
    assert_eq!(game.current_player, 1);
    assert_eq!(game.state, GameState::Playing);
    assert_eq!(game.play_card(0, None).unwrap(), PlayResult::Dropped);
    assert_eq!(game.table, vec![card(Suit::Copas, 2)]);
    game.next_turn();
    assert_eq!(game.state, GameState::RoundEnd);
    assert!(game.table.is_empty());
    assert_eq!(game.players[0].captured.len(), 3);
}

#[test]
fn next_turn_deals_when_hands_are_empty() {
    let mut game = Game::new("A", "B");
    game.deal_round();
    game.players[0].hand.clear();
    game.players[1].hand.clear();
    game.current_player = 1;
    game.next_turn();
    assert_eq!(game.current_player, 0);
    assert_eq!(game.players[0].hand.len(), 3);
    assert_eq!(game.players[1].hand.len(), 3);
    assert_eq!(game.table.len(), 4);
    assert_eq!(game.deck.remaining(), 24);
}

#[test]
fn new_round_resets_piles() {
    let mut game = Game::new("A", "B");
    game.deal_round();
    game.players[0].escobas = 3;
    game.players[1].captured.push(card(Suit::Oros, 1));
    game.new_round();
    assert_eq!(game.deck.remaining(), 40);
    assert!(game.table.is_empty());
    assert_eq!(game.players[0].escobas, 0);
    assert!(game.players[1].captured.is_empty());
    assert_eq!(game.state, GameState::Dealing);
    assert_eq!(game.players[0].name, "A");
    game.deal_round();
    assert_eq!(game.table.len(), 4);
}

#[test]
fn plays_keep_all_forty_cards() {
    let mut game = Game::new("A", "B");
    game.deal_round();
    assert_eq!(total_cards(&game), 40);
    while game.state == GameState::Playing {
        let moves = enumerate_moves(&game);
        let m = &moves[0];
        game.play_card(m.hand_index, m.table_indices.clone()).unwrap();
        game.next_turn();
        assert_eq!(total_cards(&game), 40);
    }
    assert_eq!(game.state, GameState::RoundEnd);
}

#[test]
fn valid_plays_list_captures_with_cards() {
    let mut game = Game::new("A", "B");
    game.state = GameState::Playing;
    game.players[0].hand = vec![card(Suit::Oros, 5), card(Suit::Oros, 1)];
    game.table = vec![card(Suit::Copas, 12), card(Suit::Espadas, 3), card(Suit::Bastos, 7)];
    let plays = game.valid_plays();
    assert_eq!(plays.len(), 2);
    assert_eq!(plays[0].hand_index, 0);
    assert_eq!(plays[0].captures.len(), 2);
    assert_eq!(plays[0].captures[1].table_indices, vec![1, 2]);
    assert_eq!(plays[0].captures[1].table_cards, vec![card(Suit::Espadas, 3), card(Suit::Bastos, 7)]);
    assert!(plays[1].captures.is_empty());
    assert!(plays[1].can_drop);
}

#[test]
fn enumerate_moves_order() {
    let mut game = Game::new("A", "B");
    game.state = GameState::Playing;
    game.players[0].hand = vec![card(Suit::Oros, 1), card(Suit::Oros, 5)];
    game.table = vec![card(Suit::Copas, 12)];
    let moves = enumerate_moves(&game);
    assert_eq!(
        moves,
        vec![
            AiMove { hand_index: 0, table_indices: None },
            AiMove { hand_index: 1, table_indices: Some(vec![0]) },
            AiMove { hand_index: 1, table_indices: None },
        ]
    );
}

#[test]
fn best_move_takes_first_highest() {
    let moves = vec![
        AiMove { hand_index: 0, table_indices: None },
        AiMove { hand_index: 1, table_indices: Some(vec![2]) },
        AiMove { hand_index: 2, table_indices: None },
    ];
    assert_eq!(best_move(&moves, &vec![3, 7, 7]), moves[1]);
    assert_eq!(best_move(&moves, &vec![0, 0, 0]), moves[0]);
}

#[test]
fn outcome_points_half_for_draw() {
    assert_eq!(outcome_points(5, 3), 2);
    assert_eq!(outcome_points(3, 3), 1);
    assert_eq!(outcome_points(2, 3), 0);
}

#[test]
fn simulations_per_difficulty() {
    assert_eq!(Difficulty::Easy.simulations(), 100);
    assert_eq!(Difficulty::Medium.simulations(), 1000);
    assert_eq!(Difficulty::Hard.simulations(), 10000);
}

#[test]
fn suggest_play_single_move_is_the_drop() {
    let mut game = Game::new("A", "B");
    game.state = GameState::Playing;
    game.current_player = 0;
    game.players[0].hand = vec![card(Suit::Oros, 1)];
    game.table = vec![card(Suit::Copas, 2)];
    let m = suggest_play(&game, Difficulty::Hard);
    assert_eq!(m, AiMove { hand_index: 0, table_indices: None });
}

#[test]
fn determinize_keeps_hidden_cards() {
    let mut game = Game::new("A", "B");
    game.deal_round();
    let mut before: Vec<Card> = game.players[0].hand.clone();
    before.extend_from_slice(game.deck.cards());
    let sim = determinize(&game, 1);
    let mut after: Vec<Card> = sim.players[0].hand.clone();
    after.extend_from_slice(sim.deck.cards());
    assert_eq!(sorted_cards(&before), sorted_cards(&after));
    assert_eq!(sim.players[0].hand.len(), 3);
    assert_eq!(sim.current_player, game.current_player);
}

#[test]
fn playout_and_simulation_run_a_round() {
    let mut game = Game::new("A", "B");
    game.deal_round();
    let m = enumerate_moves(&game).remove(0);
    let pts = simulate_move(&game, 0, &m);
    assert!(pts <= 2);
    playout_round(&mut game);
    assert_eq!(game.state, GameState::RoundEnd);
    assert_eq!(total_cards(&game), 40);
    assert!(game.deck.is_empty());
}

#[test]
fn scoring_velo_and_totals() {
    let mine = vec![card(Suit::Oros, 7), card(Suit::Oros, 2)];
    let theirs = vec![card(Suit::Copas, 7), card(Suit::Espadas, 7), card(Suit::Bastos, 1)];
    let s = calculate_score(&mine, 1, &theirs);
    assert_eq!((s.cards_point, s.oros_point, s.siete_velo_point, s.sevens_point, s.escobas_points, s.total), (0, 1, 1, 0, 1, 3));
    let t = calculate_score(&theirs, 0, &mine);
    assert_eq!((t.cards_point, t.oros_point, t.siete_velo_point, t.sevens_point, t.total), (1, 0, 0, 1, 2));
}

#[test]
fn game_over_edge_cases() {
    let empty: Vec<(String, u32)> = vec![];
    assert_eq!(is_game_over(&empty), None);
    let three = vec![("A".to_string(), 20), ("B".to_string(), 15), ("C".to_string(), 20)];
    assert_eq!(is_game_over(&three), None);
    let three = vec![("A".to_string(), 20), ("B".to_string(), 21), ("C".to_string(), 3)];
    assert_eq!(is_game_over(&three), Some("B".to_string()));
    let low_tie = vec![("A".to_string(), 14), ("B".to_string(), 14)];
    assert_eq!(is_game_over(&low_tie), None);
}

#[test]
fn suit_display_names() {
    assert_eq!(Suit::Oros.display_name(), "Oros");
    assert_eq!(Suit::Copas.display_name(), "Copas");
    assert_eq!(Suit::Espadas.display_name(), "Espadas");
    assert_eq!(Suit::Bastos.display_name(), "Bastos");
}

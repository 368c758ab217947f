# escoba15-engine

A verified engine for Escoba del 15, the Spanish card game: two players take turns
playing a card from their hand, capturing table cards whose values, with the card
played, add up to 15. Emptying the table with a capture is an *escoba*. Points per
round go to the player with more cards, more Oros, the seven of Oros (*siete de
velo*), more sevens, and one per escoba; the first to 15 points across rounds wins.

The library is written in Verus. Every function in `src/` carries a contract, and
Verus proves every body but those of the small wrappers around std, rand and
serde_json: `deck::shuffle_cards`, `ai::choose_move`, and `to_lower`, `trim_text`,
`parse_usize`, `indices_from_json` and `scores_from_json` in `text.rs`, whose
contracts are taken on trust.

## Layout

- `src/card.rs`: suits, cards, ranks and values, card names.
- `src/lang.rs`: Spanish and English names of suits and cards.
- `src/deck.rs`: the 40-card deck, drawing, shuffling.
- `src/player.rs`: a player's hand, captured pile and escobas.
- `src/subsets.rs`: the bitmask enumeration of table subsets, and the proofs that
  the captures found are exactly the subsets worth 15 with the hand card.
- `src/game.rs`: dealing, playing (capture or drop), valid plays, passing the turn.
- `src/game_laws.rs`: laws of the game: no card is ever lost or created, and every
  capture is worth 15.
- `src/scoring.rs`: round scores and the end of the game.
- `src/ai.rs`: the computer player, which simulates random rounds per legal move.
- `src/text.rs`, `src/web.rs`, `src/terminal.rs`: reading languages, difficulties,
  selections, scores and typed answers for the web page and the terminal game.
- `app/`: the terminal game (`main.rs`), the checks it makes before calling the
  library (`guards.rs`), and the JSON bridge for a web page (`web.rs`), built here
  as a plain module, without the `wasm-bindgen` export attributes.
- `tests/`: the tests.

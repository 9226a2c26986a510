# poker

A five-card poker table as a verified library: cards and decks, the
classification and ordering of hands, players' chips, and the betting rules
of a table. Every function in `src/` carries a contract that Verus proves.

Layout:

- `src/card.rs`, `src/card/` — cards, suits and values.
- `src/deck.rs` — the 52-card deck, shuffled with `rand`.
- `src/hand.rs`, `src/hand/` — hands: sorting (`sorting.rs`), classification
  (`ranking.rs`) and the hand categories with their order (`hand_type.rs`).
- `src/player.rs` — a player's hand, chips and bet.
- `src/table.rs`, `src/table/` — the table: dealing, seats, betting actions,
  the showdown, and the stages of a hand.
- `app/` — the program that reads the table's settings, deals and prints the
  players, and the betting loop that asks players for their actions.

# flash-tui

A terminal flash-card trainer with SM-2 spaced repetition. Decks are JSON files in one
directory per language (sub-directories and file names make the groups); progress is
kept in one `progress_<language>.json` file per language in the user's data directory.

Layout:

- `src/` — the verified library (Verus):
  - `card.rs` — cards, card identifiers, deck loading helpers, cram selections, menus;
  - `date.rs` — day numbers and calendar arithmetic through chrono;
  - `progress.rs` — a card's progress and the integer half of the SM-2 step;
  - `review.rs` — which cards are due;
  - `store.rs` — the progress store, how it is saved per language and loaded back;
  - `files.rs` — identifiers' languages and progress file names;
  - `order.rs` — string order and sorted insertion;
  - `session.rs` — the screens and what every key does;
  - `stats.rs` — the answer counts of a session.
- `app/main.rs` — the program: files, JSON, drawing, keys, and the floating-point
  half of SM-2 (the ease factor).
- `tests/` — tests of the library.

Two collections of the program are held differently in the library. The progress
store is a vector of entries with distinct identifiers and a ghost map as its model,
not a `HashMap<String, Progress>`: vstd states no key model for `String` keys of
`std::collections::HashMap`, and its `StringHashMap` cannot be walked, which saving
needs. The language and group menus are built by sorted insertion into a vector
instead of collecting into a `HashSet` and sorting, for the same lack of a `String`
key model and because `sort` on `String`s has no specification in vstd.

# the-bug

A small crafting and exploration game: walk a growing map, search and hunt,
carry finds in a bag of limited room, experiment and craft at the village,
and work through a chain of quests. The rules live in a library whose
behaviour is stated in contracts and proved with Verus.

## Layout

- `src/game/` — the domain model: items, recipes, quests, the player's
  storage and bag, the map and how it grows with the player's level, and
  the game itself with its event log.
- `src/mapgen/` — the terrain generator (exact composition, clustering by
  affinity), its connected-region count, and the generator tool's
  command-line pieces.
- `src/save.rs` — the save-file records, the one-character map codes, and
  capturing a game into them and restoring it back.
- `src/viewmodel/` — what a front end shows: listings, panels, crafting and
  disassembly options, the recent-events list, map views.
- `src/i18n/` — choosing the player's language at startup.
- `src/tui/` — the terminal front end's tab order.
- `app/` — the program: command line, JSON save files, start-up.
- `tests/` — behaviour tests of the library.

The clock and the random draws come from `std`, `web-time` and `rand`; the
library states what it relies on from each of them where it calls them.

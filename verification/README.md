# amar — verified rules library for the Amar RPG companion

The rules, calendar, combat bookkeeping, adventure indexing and wiki-text
handling of the Amar RPG companion, written in Verus: each public function
carries a contract and Verus proves the code against it.

Layout:

- `src/dice.rs` — the O6 open-ended d6, checks against a DR, the critical
  and fumble tables.
- `src/calendar.rs` — the 13-month Amar calendar, date arithmetic and
  parsing "month day" input.
- `src/clock.rs` — Unix timestamps as UTC calendar dates.
- `src/combat.rs` — combat state: lighting, movement, statuses, the roll
  log, encumbrance and endurance drain, the net Status of a participant,
  the tag pool and the two-band card grid.
- `src/adventure.rs`, `src/scenes.rs` — importing an adventure directory
  (from what was read of it), markdown sections, asset lists, and binding
  scene images to sections.
- `src/canon.rs`, `src/wiki.rs`, `src/keyed.rs` — the wiki rule data: URLs,
  percent-encoding, infobox and markup handling, parsing a page into an
  entry, category listings, and the sorted string maps they are kept in.
- `src/campaign.rs` — the Campaign tab's tree against its expanded keys,
  node titles, cursor and expand-key navigation, and the `/` search over
  everything the campaign names (with the path that opens to a hit).
- `src/search.rs`, `src/ui.rs`, `src/text.rs` — closest-name search,
  screen-layout rules, the combat card bands, inline markdown spans and
  string helpers.
- `app/` — the scraper program (HTTP, TOML, files) and the filesystem side
  of adventures, around the library.
- `tests/` — the test suite.

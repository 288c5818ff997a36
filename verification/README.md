# Incantation

A roguelike spell-battler for the terminal. You climb a branching map, and
every fight is won or lost on how you combine spells: each turn you add
components to an incantation, and the bag of components resolves to a single
spell.

## Layout

- `src/` is the game as a verified library: every function carries a
  contract that Verus proves.
  - `game/combat/` — the incantation resolver (order never matters inside a
    bag), the rule table, damage, and the fight's turn state machine.
  - `game/map/` — map generation, with the map invariant and the
    reachability laws proved from it.
  - `game/encounter.rs`, `reward.rs`, `shop.rs`, `event.rs`, `run.rs` — the
    roguelike layer above fights.
  - `game/chance.rs` — the only place that calls `rand`; what each draw
    promises holds of every outcome.
  - `app.rs`, `input.rs`, `action.rs` — the shell's state machine and key
    bindings.
- `tests/` exercises the library on concrete values.
- `app/` is the terminal program: content loading, drawing with `ratatui`,
  and the event loop.

Content is read at startup from `res/spells.ron`, `res/rules.ron`,
`res/enemies.ron` and `res/events.ron`.

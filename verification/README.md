# rpg

A small turn-based battle game. The rules of the game live in a library whose
behaviour is stated in Verus contracts and proved; a thin `ggez` program around
it reads the configuration files, the keyboard and draws the screen.

## Layout

- `src/` — the verified library:
  - `characters.rs`: characters, their stats and buffs, and parties (an
    `ordermap::OrderMap` kept behind the wrappers of `roster.rs`);
  - `ability.rs`, `action.rs`: abilities, the action being chosen, and how an
    action is carried out on the two parties;
  - `menu.rs`, `ui.rs`: the menu tree, the cursor on it, and the dialogue box;
  - `state.rs`: the game state and one frame of it, from the keys pressed to
    the next state;
  - `unused.rs`: a second menu kept in a `slotmap::SlotMap`, with its cursor;
  - `chance.rs`: the random choice of a target;
  - `text.rs`: names compared and placeholders filled in.
- `tests/` — tests of the library.
- `app/` — the program: loading the JSON files, the window, drawing and the
  event loop.

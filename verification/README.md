# practice_apps

Five small programs whose logic lives in a Verus-verified library (`src/`), with a thin
executable around it (`app/`):

- `calculator` — tokenizer and shunting-yard conversion to reverse Polish notation, keypad
  handling. Floating-point evaluation stays in `app/calculator_gui.rs`.
- `numbers` — maximum, sums, membership, doubling and filters over `Vec<i32>`.
- `game` — rock-paper-scissors input, judging, random draw and score.
- `timer` — menu, number input, stopwatch and countdown displays, countdown state machine.
- `board` — message-board request logic: content validation, replies after database writes,
  the paginated listing query.
- `text` — trimming, unsigned decimal parsing and zero-padded decimal formatting shared by the
  others.

`app/main.rs` runs one program, chosen by its first argument.

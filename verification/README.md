# ttyskk

A Japanese input engine of the SKK family that lives inside a terminal, with its behaviour
stated in contracts and proved by Verus.

A program runs in a terminal of its own making. What is typed is read on the way, and only
text that was confirmed reaches the program. What is not confirmed yet is drawn over the
screen, and taken away again without a trace.

## Layout

| Where | What |
|---|---|
| `src/machine.rs`, `src/display.rs` | what a key does to the engine, and what is shown then |
| `src/skk.rs`, `src/filling.rs` | the engine itself |
| `src/soundness.rs`, `src/waiting.rs`, `src/manners.rs` | what holds of every state, and how the engine behaves |
| `src/romaji.rs`, `src/spelling.rs` | letters to kana |
| `src/num.rs` | numbers in readings |
| `src/jisyo.rs`, `src/dict.rs` | lines of dictionaries, and the dictionaries |
| `src/learning.rs`, `src/roundtrip.rs`, `src/surviving.rs`, `src/writers.rs` | what is learned comes back, what is saved is read again, and two writers keep each other's words |
| `src/snippet.rs`, `src/jsonc.rs`, `src/appending.rs` | snippets, and a new one in a file of them |
| `src/context.rs` | what the screen tells of candidates |
| `src/config.rs`, `src/key.rs` | the setup, and keys |
| `src/input.rs` | bytes of the terminal to keys |
| `src/screen.rs`, `src/sgr.rs` | a copy of the screen |
| `src/render.rs`, `src/steps.rs`, `src/undo.rs` | drawing over the screen, and taking it away |
| `src/session.rs`, `src/launch.rs` | one run between a terminal and a program |
| `src/desktop.rs` | the engine for the input method of a desktop |
| `src/migemo.rs`, `src/index.rs`, `src/answers.rs` | finding Japanese text by its spelling, with a table or without |
| `src/text.rs`, `src/order.rs`, `src/table.rs`, `src/names.rs`, `src/width.rs` | what the others are made of |
| `tests/` | the same on concrete values |
| `app/` | files, the terminal, threads, and the functions for C |

The functions whose names begin with `law_` state what holds across several functions.

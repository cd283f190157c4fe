# qlover

A stenography engine. It reads key states from a Plover HID keyboard, detects chords,
turns them into strokes of a steno system, looks outlines up in dictionaries, and plans the
key events that type the result.

- `src/` is the library, written and proved with Verus:
  - `model::stroke`: keys (`LetterWithSide`), steno systems and strokes, with their notations;
  - `model::dictionary`: outlines, dictionaries and their reverse index;
  - `model::translation`: the translator;
  - `input::plover_hid`: the Plover HID protocol: reports and chord detection;
  - `lib.rs`: the key chart of Plover HID keyboards, the English system and the engine;
  - `output`, `output::x11`, `platform`: output keys and modifiers, the X11 keymap and the
    planning of key events.
- `app/` is the program around it: HID devices and the reader thread, the X11 connection,
  serialization of dictionaries, and `main`.
- `tests/` holds the tests.

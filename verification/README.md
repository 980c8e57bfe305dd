# honse_hotkeys

Global hotkey chords for game-overlay plugins, with their behaviour stated in
Verus contracts and proved.

- `src/chord.rs`: `Mods` (a set of Ctrl, Shift, Alt) and `Chord` (modifiers plus a
  virtual-key code): reading the modifiers and a chord from key state, parsing
  `"ctrl+shift+p"`, and describing a chord in the same vocabulary. The proof that
  describing and parsing round-trip lives here.
- `src/keys.rs`: the key vocabulary, `key_code` and `key_name`, and the proof that
  a name reads back as its key.
- `src/text.rs`: characters: Unicode whitespace as `str::trim` strips it, ASCII
  case, splitting on `+`, decimal and hexadecimal digits.
- `src/hotkeys.rs`: `Hotkeys`, the registry. A poll ticks every binding with its
  key reading and hands back the callbacks that fired; the edge-trigger, repeat
  and foreground-gate rules are proved as laws over its model.
- `app/`: the Win32 key and foreground readers, `extern "C"` callbacks and the
  process-wide registry, none of which Verus sees.
- `tests/`: the behaviour on concrete inputs.

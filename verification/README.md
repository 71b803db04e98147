# soul_symphony_ling

The asset tools and launcher of Soul Symphony Ling, with their logic verified
in Verus.

- `src/coverage.rs` — glyph coverage bitmaps: maximal runs of ink per row, and
  the greedy merge of identical runs into rectangles, with the laws that the
  rectangles cover exactly the inked pixels, never overlap, and are determined
  by the bitmap.
- `src/midi.rs` — song events from MIDI tracks (absolute ticks, percussion
  skipped, ordered as a stable sort by tick and position), note pairing, and
  the sampling of collectible lanes.
- `src/midi_file.rs` — reading a Standard MIDI File with `midly`.
- `src/shaping.rs` — shaping a phrase with `rustybuzz`.
- `src/font.rs` — loading a font with `fontdue`.
- `src/names.rs` — song names, the game's source files and their joining.
- `app/` — the launcher and the `glyphgen`, `midiconv` and `phrasebake`
  tools: file I/O, rasterising, and the floating-point layout and text output.

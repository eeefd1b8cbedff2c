# mw3rando

A randomizer for the Mega Drive ROM of *Wonder Boy in Monster World*, written
in Verus. The library under `src/` is verified:

- `endian` — big-endian reads and writes through the `byteorder` crate.
- `patch` — placing an assembled routine in the ROM, filling its `fe ed ed k`
  placeholders with big-endian arguments.
- `words` — the ROM's word table and the dictionary (`WordList`) built from it.
- `text` — the dialogue builder (`Dialogue`) and the byte code it produces,
  including the dictionary compression of text.
- `script` — a decoder of dialogue byte code, for inspecting the ROM.
- `rando` — the randomizer: routines, item placement and rewritten texts.

`app/main.rs` reads the ROM and the assembled routines from disk, runs the
randomizer and writes the result. The routines are assembled from `asm/` with
vasm (Motorola 68000, Motorola syntax).

# ootr

Verified core of the Ocarina of Time randomizer's Rust tooling, written in Verus.

- `src/patch.rs`: patches as changed segments over a base rom, and reading the patched rom.
- `src/zpf.rs`: the ZPF patch stream (header, DMA table updates, XOR-encoded blocks), how its
  DMA records read back, and how its XOR blocks decode back to the patched ROM.
- `src/big_stream.rs`: a big-endian byte stream with a cursor, and buffer views.
- `src/generator.rs`: the steps of seed generation as a state machine.
- `src/gui.rs`: the decisions of the graphical interface (windows, unsaved seeds, the preset
  store, the settings a seed is generated from).
- `src/presets.rs`: presets kept in the order of names, and their settings set by name.
- `src/settings.rs`: setting values, which values disable other settings, and choosing in a
  multiple-choice setting.
- `src/lang.rs`, `src/translate.rs`: interface languages and translated texts.
- `src/rom_build.rs`, `src/symbols.rs`: the build step that reads the assembler's symbols and
  lists the words the assembled code changes in the base rom.
- `src/base_rom.rs`: recognizing base roms by their checksum.
- `src/n64.rs`: code that runs on the console.
- `app/main.rs`: command-line tools (patch files, the build step) around the library.

`tests/` holds the library's tests.

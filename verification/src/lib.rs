//! Verified core logic of the Ocarina of Time randomizer tooling.

pub mod lang;
pub mod patch;
pub mod zpf;
pub mod big_stream;
pub mod generator;
pub mod gui;
pub mod presets;
pub mod settings;
pub mod n64;
pub mod rom_build;
pub mod symbols;
pub mod translate;
pub mod base_rom;

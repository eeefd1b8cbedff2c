//! Verified core of a ROM randomizer for *Wonder Boy in Monster World*:
//! in-place patching of assembled routines into the ROM image, the word
//! dictionary stored in the ROM, the dialogue byte-code builder and a decoder
//! for dialogue scripts.

pub mod endian;
pub mod patch;
pub mod words;
pub mod text;
pub mod script;
pub mod rando;

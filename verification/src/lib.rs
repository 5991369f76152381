//! A small toolchain for a character-based esoteric language: a translator
//! that compresses runs and resolves bracket pairs into jump addresses, two
//! codecs (textual and binary) that persist the intermediate representation,
//! and a tape machine that executes it.

pub mod codec;
pub mod compiler;
pub mod interpreter;
pub mod ir;
pub mod utils;

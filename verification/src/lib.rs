//! Cleans ZIP archives: composed UTF-8 names, the UTF-8 flag, and no left-over junk.

pub mod cli;
pub mod text;
pub mod wasm;
pub mod zip;

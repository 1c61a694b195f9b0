//! Recolouring of pre-rendered ASCII art along a gradient colour profile.
//!
//! The art carries placeholder tokens `${c1}` … `${c6}` that mark colour
//! slots. The engine normalises the art, measures it in display columns,
//! carries the active slot from line to line, and rewrites the placeholders
//! into colour escape sequences by one of three alignment strategies.
//!
//! Text is modelled as its UTF-8 bytes: every contract speaks of
//! `Seq<u8>`, because placeholders are byte patterns and all offsets are
//! byte offsets.

pub mod alignment;
pub mod canvas;
pub mod distro;
pub mod error;
pub mod fetch;
pub mod laws;
pub mod placeholder;
pub mod prompt;
pub mod recolor;
pub mod text;

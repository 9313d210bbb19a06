//! A compiler for a small notation of rhythmic bars.
//!
//! `lexer` turns source text into tokens, `parser` reads the tokens into a
//! tree of blocks, and `render` walks that tree into a plan of the bar: its
//! length in samples and, for every note, where it starts, its frequency
//! and the effects to apply. Turning a plan into samples is floating-point
//! work left to the synthesizer that calls this library. `pretty` writes
//! tokens back as text.

pub mod lexer;
pub mod parser;
pub mod pitch;
pub mod pretty;
pub mod render;

//! Library for converting between a game engine's icon-sheet images and a
//! human-editable textual form: a parser for the embedded metadata grammar,
//! a canvas layout engine, and the frame codec shared by both directions.

pub mod canvas;
pub mod cmdline;
pub mod codec;
pub mod compile;
pub mod constant;
pub mod decompile;
pub mod dmi;
pub mod error;
pub mod layout;
pub mod parser;
pub mod text;

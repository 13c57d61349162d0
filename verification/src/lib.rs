//! Flattens a JSON document into a sequence of `name=value` pairs, one per
//! scalar leaf, with the leaf's structural path encoded into the name.
//!
//! The heart of the crate is the streaming engine in [`shell`]: a push-down
//! state machine that walks a token stream and emits `(path, scalar)` pairs
//! in document order, keeping only a stack of open containers and one
//! reusable path buffer. The [`lexer`] turns source text into that token
//! stream.

pub mod lexer;
pub mod shell;
pub mod laws;

//! Reader and writer for adventure-game data files in the classic
//! "Scott Adams" textual format: a sequence of whitespace-delimited ASCII
//! integers and quote-delimited strings encoding a game's header, action
//! table, vocabulary, rooms, messages, items, and footer.
//!
//! The decoder and the encoder are exact structural inverses: re-encoding a
//! decoded game reproduces the original bytes, a law stated and proved in
//! `game::writer`.
#![verifier::loop_isolation(false)]

pub mod arith;
pub mod game;
pub mod tokenizer;

//! Dictionary-driven pinyin segmentation.
//!
//! The crate turns raw dictionary source lines into validated
//! `(key, pronunciation)` records, builds a multi-pattern automaton over the
//! record keys, and segments arbitrary text into alternating
//! dictionary-hit / literal-passthrough tokens with leftmost-longest match
//! semantics.

pub mod corpus;
pub mod entry;
pub mod matcher;
pub mod segment;
pub mod text;

pub use corpus::{compile, compile_heteronyms, Category, CompileError};
pub use entry::{parse, ParseError};
pub use matcher::{BuildError, CompiledMatcher};
pub use segment::{convert, match_word_pinyin, segment, sort_by_key_length_desc};

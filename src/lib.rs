//! A TeX-style macro-expansion engine: a category-code driven tokenizer, a
//! scope stack with local and global definitions, user macros with delimited
//! parameters, and a UTF-8 decoder for raw input bytes.
pub mod assoc;
pub mod engine;
pub mod errors;
pub mod group;
pub mod macros;
pub mod parser;
pub mod parsing;
pub mod text;

pub use engine::{TexState, EXPANSION_LIMIT};
pub use group::TexGroupState;

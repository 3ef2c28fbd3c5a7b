//! The template parser, from character-level combinators up to whole templates.

pub mod combinators;
pub mod key;
pub mod tag;

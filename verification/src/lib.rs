//! Core lexing layer for copybook source text.
//!
//! The crate turns raw copybook text (fixed-format card images or
//! free-format source) into logical lines and then into cooked tokens,
//! accumulating every error instead of stopping at the first one.
pub mod error;
pub mod lexer;
pub mod span;
pub mod text;

//! Brace-aware text handling for line-oriented protocol messages.
//!
//! [`clean_message`] normalizes a raw line: outside pass-through runs it drops
//! line breaks and folds to lowercase. [`parse_arguments`] cuts an argument
//! list at the commas that stand outside every brace pair and trims the pieces.
//! Both are total and work on the characters of the text alone.

pub mod error;
pub mod normalize;
pub mod normalize_laws;
pub mod text;
pub mod tokenize;
pub mod tokenize_laws;

pub use error::IllegalArgumentException;
pub use error::IllegalStateException;
pub use normalize::clean_message;
pub use tokenize::parse_arguments;

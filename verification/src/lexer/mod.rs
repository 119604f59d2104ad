//! The lexer's vocabulary: tokens and their spans, what it refuses, and the side tables
//! the formatter needs.

pub mod error;
pub mod token;
pub mod trivia;

pub use error::{LexError, LexErrorKind};
pub use token::{Span, Spanned, Token};
pub use trivia::{Lexed, Trivia, TriviaKind};

//! Conversion of text to snake_case.
pub mod ascii;
pub mod laws;
pub mod text;
pub mod unicode;

pub use ascii::to_snakecase_ascii;
pub use unicode::to_snakecase;

//! A recursive, gitignore-aware text search library.
pub mod text;
pub mod patterns;
pub mod matcher;
pub mod display;
pub mod grep;
pub mod lines;
pub mod writer;
pub mod walk;
pub mod filters;

pub use text::find_in_string;

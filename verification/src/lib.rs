//! A layout engine for rendering pretty-printed source text.
//!
//! The crate is built around three components: a document model (`ir`)
//! describing what to print independently of the page width, a printer
//! (`printer`) that renders a document under a width budget, and a lexical
//! comment scanner (`comment`) that recovers comments from raw source text.

pub mod comment;
pub mod config;
pub mod error;
pub mod format;
pub mod ir;
pub mod laws;
pub mod printer;
mod text;

pub use config::FormatConfig;
pub use error::FormatError;

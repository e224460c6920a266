//! A small line-search library: argument parsing into a configuration and a
//! case-sensitive, order-preserving filter of the lines of a text.
pub mod config;
pub mod lessons;
pub mod search;
pub mod text;

pub use config::{ArgumentError, Config};
pub use search::search;

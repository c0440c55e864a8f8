//! A small line-oriented text search: split a text into lines and keep the
//! lines in which a query occurs, with or without regard to letter case.

pub mod config;
pub mod encoding;
pub mod lines;
pub mod lowercase;
pub mod runner;
pub mod search;
pub mod subsequence;
pub mod substring;

pub use config::{Config, ConfigError};
pub use runner::run;
pub use search::{search, search_case_insensitive};

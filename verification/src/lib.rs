//! A line-oriented literal text search: pattern matching, context windows
//! around matches, candidate selection for directory walks and output
//! rendering, all as functions over lines held in memory.

pub mod config;
pub mod laws;
pub mod matcher;
pub mod render;
pub mod search;
pub mod walker;
pub mod window;

pub use config::Config;
pub use search::grep;

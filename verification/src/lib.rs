//! Freeze GraphQL query results into JSON files, next to the queries.
//!
//! This library is the engine: it says what to ask the endpoint, what to make of the answers
//! and what to write. Reading, sending and writing is left to the program around it.

pub mod cli;
pub mod config;
pub mod connections;
pub mod defaults;
pub mod discover;
pub mod edit;
pub mod engine;
pub mod errors;
pub mod fetch;
pub mod fragments;
pub mod graph;
pub mod json;
pub mod logger;
pub mod options;
pub mod output;
pub mod paginate;
pub mod path;
pub mod query;
pub mod rewriting;
pub mod sort;
pub mod syntax;
pub mod text;

pub use engine::{FileResult, Outcome};
pub use errors::Error;
pub use logger::{Level, Logger};
pub use options::Options;

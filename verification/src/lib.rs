//! Row-generation engine for synthetic tabular datasets.
//!
//! A dataset schema is an ordered list of typed columns, each carrying a
//! natural-language rule.  The engine orders columns by their `@name`
//! cross-references, assembles a per-cell prompt, drives a token-sampling
//! loop, coerces the raw model output to the column's type, and streams
//! finished rows to a progress sink under cooperative cancellation.

pub mod cache;
pub mod cancel;
pub mod chars;
pub mod coerce;
pub mod database;
pub mod dataset;
pub mod decode;
pub mod error;
pub mod export;
pub mod generation;
pub mod hardware;
pub mod jsonfix;
pub mod model;
pub mod numbers;
pub mod prompt;
pub mod response;
pub mod rules;
pub mod sorter;
pub mod text;

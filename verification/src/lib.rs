//! A small in-memory fuzzy autocomplete engine.
//!
//! The engine builds two immutable inverted indexes over a fixed corpus of
//! short text items (an exact-word index and a trigram index) and answers
//! substring/near-match queries with a bounded, deterministic amount of work.

pub mod config;
pub mod engine;
pub mod fxmap;
pub mod index;
pub mod laws;
pub mod model;
pub mod pool;
pub mod rank;
pub mod schedule;
pub mod text;

pub use config::QuickMatchConfig;
pub use engine::QuickMatch;


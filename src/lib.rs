//! Query language, record projection and predicate evaluation for a
//! searchable collection of trading-card records.
pub mod text;
pub mod pattern;
pub mod parser;
pub mod data;
pub mod filter;
pub mod search;

//! Normalizing OpenAPI / Swagger parser, dependency graph, structural diff
//! and cache-freshness rules.

pub mod cache;
pub mod diff;
pub mod error;
pub mod graph;
pub mod json;
pub mod listing;
pub mod model;
pub mod parser;
pub mod text;

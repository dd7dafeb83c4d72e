//! Templated code generation with incremental chunk injection.

pub mod classify;
pub mod config;
pub mod edit;
pub mod engine;
pub mod error;
pub mod inject;
pub mod lines;
pub mod marker;
pub mod paths;
pub mod render;
pub mod text;

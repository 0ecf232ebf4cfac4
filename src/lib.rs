//! Structural metrics over Rust sources and their dependency closure.

pub mod stats;
pub mod tree;
pub mod parser;
pub mod metrics;
pub mod concurrency;
pub mod operators;
pub mod cache;
pub mod walk;
pub mod dependency;
pub mod lockfile;

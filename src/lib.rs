//! A breadth-first web crawler core: URL canonicalization, the frontier and
//! visited set, the crawl engine's admission and termination decisions, and
//! page extraction.
pub mod canon;
pub mod engine;
pub mod frontier;
pub mod parser;
pub mod store;

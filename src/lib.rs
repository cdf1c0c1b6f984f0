//! Orchestration core of a small web-crawling indexer: a frontier of domains,
//! per-domain crawl results folded into a page store and a domain link graph.

pub mod error;
pub mod models;
pub mod text;
pub mod urls;
pub mod store;
pub mod crawl;
pub mod config;

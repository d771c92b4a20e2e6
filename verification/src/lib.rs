//! A small price-lookup library: it decides when a cached price snapshot is
//! fresh enough to serve, collects per-symbol fetch results into a new
//! snapshot when it is not, encodes and decodes the snapshot's on-disk JSON
//! document, and projects a snapshot into display-ready match entries.

pub mod codec;
pub mod config;
pub mod model;
pub mod project;
pub mod refresh;
pub mod select;

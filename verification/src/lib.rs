//! A verified core for a syndication-feed aggregator.
//!
//! The library turns a set of fetched feeds into one chronologically
//! merged, per-day deduplicated, annotated view: lenient timestamp
//! parsing, URL normalisation, heuristic summary extraction from
//! loosely structured markup, cross-feed merge and sort, per-day
//! deduplication with occurrence counts, highlighting of items from
//! under-represented domains, and rendering of the final document.
//! Transport, concurrency and the HTTP listener live outside it and
//! hand it plain values.

pub mod chars;
pub mod err;
pub mod extract;
pub mod feed;
pub mod html;
pub mod pipeline;
pub mod render;
pub mod time;
pub mod url;

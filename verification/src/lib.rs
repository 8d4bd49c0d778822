//! A small verified link store: a collection of (title, url) records keyed by
//! title, together with a snapshot codec that serializes the collection to a
//! JSON object of the shape `{"<title>": {"title": "<title>", "url": "<url>"}}`
//! and parses such snapshots back.

pub mod codec;
pub mod store;

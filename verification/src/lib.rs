//! A live registry of vehicles heard on a local position-report feed.
//!
//! The library is the verified core of a small tracking service: it parses
//! transponder identifiers, strips and hex-decodes feed lines, merges
//! fragmentary reports into per-vehicle records, derives each record's
//! distance from a fixed observer, evicts records that stop reporting, and
//! answers the nearest / farthest / lookup queries. Connecting to the feed,
//! decoding binary frames, and serving the query results over HTTP are left
//! to the surrounding application.

pub mod geo;
pub mod ident;
pub mod ingest;
pub mod registry;
pub mod track;

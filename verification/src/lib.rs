//! A reader for chunked, indexed, compressible recordings of timestamped
//! messages on named topics.
//!
//! A recording is opened from bytes, either lazily ([`bag::Bag`], which
//! decompresses one chunk at a time) or materialized
//! ([`bag::DecompressedBag`], which decompresses everything up front). Both
//! expose the same metadata ([`metadata::BagMetadata`]) and the same
//! messages, filtered by a [`query::Query`].
//!
//! The modules, from the bytes up: [`bytes`], [`text`] and [`time`] read
//! integers, text and timestamps; [`record`] decodes records;
//! [`compression`] and [`chunk`] decompress chunk payloads; [`catalog`],
//! [`index`] and [`scan`] build the catalog of connections and chunks;
//! [`message`] and [`bag`] yield messages; [`summary`], [`totals`],
//! [`metadata`], [`names`], [`report`] and [`sizes`] sum the catalog up.
//! [`counting`], [`laws`], [`agreement`] and [`scanned`] state and prove
//! what holds of every recording.

pub mod agreement;
pub mod bag;
pub mod bytes;
pub mod catalog;
pub mod chunk;
pub mod compression;
pub mod counting;
pub mod errors;
pub mod index;
pub mod laws;
pub mod message;
pub mod metadata;
pub mod names;
pub mod query;
pub mod record;
pub mod report;
pub mod scan;
pub mod scanned;
pub mod sizes;
pub mod summary;
pub mod text;
pub mod time;
pub mod totals;

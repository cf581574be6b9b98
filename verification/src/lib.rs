//! Core coordination fabric of a networked image-transformation service:
//! deterministic request fingerprints, a bounded in-memory LRU cache, the
//! on-disk cache file format and its eviction accounting, a single-flight
//! deduplicator, a signed-URL verifier, and the request pipeline that ties
//! them together.

pub mod diskcodec;
pub mod diskstate;
pub mod exifdata;
pub mod fingerprint;
pub mod hexcodec;
pub mod image_types;
pub mod jsontext;
pub mod memcache;
pub mod outside;
pub mod pipeline;
pub mod process;
pub mod query;
pub mod signature;
pub mod singleflight;

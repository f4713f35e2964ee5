//! A reverse-geocoding index keyed by geohash prefixes.
//!
//! The library assembles closed multi-polygons from raw OSM relation, way and
//! node records, decomposes each polygon into the set of geohash cells it
//! fully contains plus the clipped partial cells at the maximum depth, merges
//! the per-polygon contributions into a prefix-keyed map, encodes the stored
//! values through a length-prefixed binary codec, and resolves point queries
//! by walking the encoded geohash from the shortest prefix upward.
//!
//! Geometry itself (containment, intersection, clipping, geohash encoding of
//! a point) is delegated to the `geo`, `geohash` and `bitcode` crates behind
//! a small set of trusted wrappers; every shape travels through the library
//! as its serialized byte form, so all decisions made on top of those calls
//! are verified.

pub mod cells;
pub mod codec;
pub mod extract;
pub mod fill;
pub mod geoshape;
pub mod laws;
pub mod merge;
pub mod resolver;
pub mod types;

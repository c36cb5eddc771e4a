//! A schema-driven codec that maps a structured record (a fixed set of named
//! fields) onto a compact wire form keyed by small signed integers, and back.
//!
//! A record's fields are classified by a key policy: `keyed(N)` fields travel
//! under integer key `N`, a single `catchall` field absorbs every key no keyed
//! field claims, `phantom` fields carry no wire data and are rebuilt from a
//! marker, and `ignore` fields never reach the codec at all. The resolver
//! validates the declared policies into an immutable [`schema::RecordSchema`];
//! the encoder emits an ordered pair sequence with an upfront cardinality
//! count; the decoder consumes an unordered, possibly repeating pair stream,
//! enforcing key uniqueness and required-field completeness. Both are
//! generic over the catch-all container through the
//! [`bucket::UnknownKeyHandler`] capability; [`bucket::KeyMap`] is the
//! built-in container.

pub mod bucket;
pub mod decode;
pub mod encode;
pub mod laws;
pub mod record;
pub mod schema;

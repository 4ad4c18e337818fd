//! Protocol-agnostic intermediate representation for OSC-style messages and
//! bundles, with two verified, mutually independent codecs: a human-readable
//! tree format and a compact binary format. Both preserve value identity
//! across a round trip, which is stated and proved as lemmas beside the
//! codecs.

pub mod ir;
pub mod strings;
pub mod b64;
pub mod json;
pub mod msgpack;
pub mod adapter;
pub mod handle;

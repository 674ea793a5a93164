//! Compiler core for fixed-layout binary record schemas.
//!
//! Given a declarative record schema (named fields, each tied to a bit- or
//! byte-range of a container) this crate resolves and validates the layout and
//! provides the accessor logic behind the generated code: decoding a raw
//! container into field values, encoding field values as a lazy,
//! position-ordered unit sequence with implicit zero padding, and classifying
//! raw scalars against per-variant allow-lists with a first-match policy.
//!
//! The front end that turns source annotations into the schema model, and the
//! backend that prints accessor code in a host syntax, are deliberately out of
//! scope: the core starts from an already-built schema and only parses the
//! position and allow-list expressions embedded in it.

pub mod bit_codec;
pub mod byte_codec;
pub mod classify;
pub mod layout;
pub mod range;
pub mod schema;

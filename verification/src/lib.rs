//! A strongly typed model of a browser bookmark export: a recursive tree of
//! folders, link entries and separators, decoded from and encoded to a JSON
//! document so that a decode followed by an encode reproduces the document
//! under structural JSON equality.
//!
//! The pieces: [`json`] models documents, [`model`] the node shapes,
//! [`timestamp`] and [`tags`] the two scalar codecs, [`codec`] the decode
//! and encode with their contracts, [`laws`] the round-trip and suppression
//! laws, and [`explore`] the depth-first traversal capability.

pub mod codec;
pub mod explore;
pub mod json;
pub mod laws;
pub mod model;
pub mod tags;
pub mod timestamp;

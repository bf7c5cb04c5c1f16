//! A small address-book library around a vCard-like card format: a verified
//! parser and serializer for cards, an index-line synthesizer, and the pure
//! parts of the index query engine.

pub mod bytes;
pub mod config;
pub mod contact;
pub mod escape;
pub mod folding;
pub mod index;
pub mod item;
pub mod mail;
pub mod parse;
pub mod roundtrip;
pub mod serialize;

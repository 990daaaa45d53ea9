//! A dialect compiler's core: the closed type system of message fields, the
//! model of messages and enums, the filters and the structural parser over a
//! dialect document's events, the wire layout with its one-byte fingerprint,
//! and a reference codec for the wire behaviour of generated messages.
use vstd::prelude::*;

pub mod text;
pub mod types;
pub mod element;
pub mod error;
pub mod model;
pub mod layout;
pub mod filter;
pub mod parser;
pub mod codec;

verus! {

} // verus!

//! Fatal errors of dialect compilation: each one means the document is
//! malformed or unsupported, and the whole build stops.
use vstd::prelude::*;

verus! {

#[derive(Debug, Clone, PartialEq, Eq)]
pub enum BindGenError {
    /// A tag that the format does not have.
    UnexpectedElement(String),
    /// An element opened where the nesting table does not allow it.
    InvalidParent(String),
    /// Text inside an element that carries no text.
    UnexpectedText(String),
    /// Two different definitions of the message with this name.
    MessageRedefined(String),
    /// An enum entry whose name and value both repeat an existing entry.
    DuplicateEnumEntry(String),
    /// A field type name that denotes no type.
    InvalidType(String),
    /// A numeric attribute that is no number.
    InvalidNumber(String),
}

} // verus!

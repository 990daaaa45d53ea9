//! Element kinds of a dialect document and the table of which kind may
//! stand directly inside which.
use vstd::prelude::*;

use crate::text::str_eq;

verus! {

#[derive(Debug, PartialEq, Eq, Structural, Clone, Copy)]
pub enum MavXmlElement {
    Version,
    Mavlink,
    Dialect,
    Include,
    Enums,
    Enum,
    Entry,
    Description,
    Param,
    Messages,
    Message,
    Field,
    Deprecated,
    Wip,
    Extensions,
}

/// The element kind a tag name denotes.
pub open spec fn element_of_tag(s: Seq<char>) -> Option<MavXmlElement> {
    if s == "version"@ { Some(MavXmlElement::Version) }
    else if s == "mavlink"@ { Some(MavXmlElement::Mavlink) }
    else if s == "dialect"@ { Some(MavXmlElement::Dialect) }
    else if s == "include"@ { Some(MavXmlElement::Include) }
    else if s == "enums"@ { Some(MavXmlElement::Enums) }
    else if s == "enum"@ { Some(MavXmlElement::Enum) }
    else if s == "entry"@ { Some(MavXmlElement::Entry) }
    else if s == "description"@ { Some(MavXmlElement::Description) }
    else if s == "param"@ { Some(MavXmlElement::Param) }
    else if s == "messages"@ { Some(MavXmlElement::Messages) }
    else if s == "message"@ { Some(MavXmlElement::Message) }
    else if s == "field"@ { Some(MavXmlElement::Field) }
    else if s == "deprecated"@ { Some(MavXmlElement::Deprecated) }
    else if s == "wip"@ { Some(MavXmlElement::Wip) }
    else if s == "extensions"@ { Some(MavXmlElement::Extensions) }
    else { None }
}

/// The nesting table: whether an element of kind `s` may stand directly
/// inside `p` (`None` for the document root).
pub open spec fn parent_allowed(p: Option<MavXmlElement>, s: MavXmlElement) -> bool {
    match s {
        MavXmlElement::Mavlink => p is None,
        MavXmlElement::Version | MavXmlElement::Dialect | MavXmlElement::Include
        | MavXmlElement::Enums | MavXmlElement::Messages => p == Some(MavXmlElement::Mavlink),
        MavXmlElement::Enum => p == Some(MavXmlElement::Enums),
        MavXmlElement::Entry => p == Some(MavXmlElement::Enum),
        MavXmlElement::Param => p == Some(MavXmlElement::Entry),
        MavXmlElement::Message => p == Some(MavXmlElement::Messages),
        MavXmlElement::Field | MavXmlElement::Extensions => p == Some(MavXmlElement::Message),
        MavXmlElement::Description | MavXmlElement::Deprecated | MavXmlElement::Wip =>
            p == Some(MavXmlElement::Entry) || p == Some(MavXmlElement::Message)
                || p == Some(MavXmlElement::Enum),
    }
}

/// The element kind of a tag name; `None` for a tag the format does not have.
pub fn identify_element(s: &str) -> (r: Option<MavXmlElement>)
    ensures
        r == element_of_tag(s@),
{
    if str_eq(s, "version") { Some(MavXmlElement::Version) }
    else if str_eq(s, "mavlink") { Some(MavXmlElement::Mavlink) }
    else if str_eq(s, "dialect") { Some(MavXmlElement::Dialect) }
    else if str_eq(s, "include") { Some(MavXmlElement::Include) }
    else if str_eq(s, "enums") { Some(MavXmlElement::Enums) }
    else if str_eq(s, "enum") { Some(MavXmlElement::Enum) }
    else if str_eq(s, "entry") { Some(MavXmlElement::Entry) }
    else if str_eq(s, "description") { Some(MavXmlElement::Description) }
    else if str_eq(s, "param") { Some(MavXmlElement::Param) }
    else if str_eq(s, "messages") { Some(MavXmlElement::Messages) }
    else if str_eq(s, "message") { Some(MavXmlElement::Message) }
    else if str_eq(s, "field") { Some(MavXmlElement::Field) }
    else if str_eq(s, "deprecated") { Some(MavXmlElement::Deprecated) }
    else if str_eq(s, "wip") { Some(MavXmlElement::Wip) }
    else if str_eq(s, "extensions") { Some(MavXmlElement::Extensions) }
    else { None }
}

/// Whether an element of kind `s` may open directly inside `p`.
pub fn is_valid_parent(p: Option<MavXmlElement>, s: MavXmlElement) -> (r: bool)
    ensures
        r == parent_allowed(p, s),
{
    match s {
        MavXmlElement::Mavlink => p.is_none(),
        MavXmlElement::Version | MavXmlElement::Dialect | MavXmlElement::Include
        | MavXmlElement::Enums | MavXmlElement::Messages => p == Some(MavXmlElement::Mavlink),
        MavXmlElement::Enum => p == Some(MavXmlElement::Enums),
        MavXmlElement::Entry => p == Some(MavXmlElement::Enum),
        MavXmlElement::Param => p == Some(MavXmlElement::Entry),
        MavXmlElement::Message => p == Some(MavXmlElement::Messages),
        MavXmlElement::Field | MavXmlElement::Extensions => p == Some(MavXmlElement::Message),
        MavXmlElement::Description | MavXmlElement::Deprecated | MavXmlElement::Wip =>
            p == Some(MavXmlElement::Entry) || p == Some(MavXmlElement::Message)
                || p == Some(MavXmlElement::Enum),
    }
}

} // verus!

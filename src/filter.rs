//! Document events and the filters that drop whole regions of the event
//! stream before the structural parser sees it.
use vstd::prelude::*;
use vstd::string::*;

use crate::element::{element_of_tag, identify_element, MavXmlElement};
use crate::error::BindGenError;
use crate::text::str_eq;

verus! {

#[derive(Debug, Clone, PartialEq, Eq)]
pub struct XmlAttribute {
    pub key: String,
    pub value: String,
}

/// One event of a document read as a stream.
#[derive(Debug, Clone, PartialEq, Eq)]
pub enum XmlEvent {
    /// An opening tag.
    Start { name: String, attributes: Vec<XmlAttribute> },
    /// A self-closing tag.
    Empty { name: String, attributes: Vec<XmlAttribute> },
    /// Text between tags, trimmed.
    Text(String),
    /// A closing tag.
    End(String),
    /// The end of the document.
    Eof,
    /// Anything else the reader reports (a comment, a declaration).
    Other,
    /// A place where the document could not be read, with the reader's message.
    Invalid(String),
}

pub struct ExtensionFilter {
    pub is_in: bool,
}

pub struct MessageFilter {
    pub is_in: bool,
    pub messages: Vec<String>,
}

/// The two filters, applied one after the other.
pub struct MavXmlFilter {
    /// Whether extension fields are kept; where they are not, every event
    /// from an extension marker to the end of its message is dropped.
    pub emit_extensions: bool,
    pub extension_filter: ExtensionFilter,
    pub message_filter: MessageFilter,
}

/// The names of the message filter's list.
pub open spec fn name_views(v: Seq<String>) -> Seq<Seq<char>> {
    v.map_values(|s: String| s@)
}

/// Whether one of the attributes is a `name` whose value is in `names`.
pub open spec fn names_listed(attrs: Seq<XmlAttribute>, names: Seq<Seq<char>>) -> bool {
    exists|i: int| 0 <= i < attrs.len() && #[trigger] attrs[i].key@ == "name"@ && names.contains(attrs[i].value@)
}

/// One step of the extension filter from state `is_in`: the new state, or
/// `None` where the event is an error.
pub open spec fn extension_step(is_in: bool, e: XmlEvent) -> Option<bool> {
    match e {
        XmlEvent::Start { name, .. } | XmlEvent::Empty { name, .. } => match element_of_tag(name@) {
            None => None,
            Some(k) => Some(if k == MavXmlElement::Extensions { true } else { is_in }),
        },
        XmlEvent::End(name) => match element_of_tag(name@) {
            None => None,
            Some(k) => Some(if k == MavXmlElement::Message { false } else { is_in }),
        },
        XmlEvent::Invalid(_) => None,
        _ => Some(is_in),
    }
}

/// One step of the message filter from state `is_in`: the new state and
/// whether the event is kept, or `None` where the event is an error.
pub open spec fn message_step(names: Seq<Seq<char>>, is_in: bool, e: XmlEvent) -> Option<(bool, bool)> {
    match e {
        XmlEvent::Start { name, attributes } | XmlEvent::Empty { name, attributes } => match element_of_tag(name@) {
            None => None,
            Some(k) => if k == MavXmlElement::Message && names_listed(attributes@, names) {
                Some((true, false))
            } else {
                Some((is_in, !is_in))
            },
        },
        XmlEvent::End(name) => match element_of_tag(name@) {
            None => None,
            Some(k) => if k == MavXmlElement::Message && is_in {
                Some((false, false))
            } else {
                Some((is_in, !is_in))
            },
        },
        XmlEvent::Invalid(_) => None,
        _ => Some((is_in, !is_in)),
    }
}

/// The events the extension filter keeps from `es`, starting in state
/// `is_in`, with the state it ends in; `None` where an event is an error.
pub open spec fn run_extension(emit: bool, is_in: bool, es: Seq<XmlEvent>) -> Option<(Seq<XmlEvent>, bool)>
    decreases es.len(),
{
    if es.len() == 0 || emit {
        Some((es, is_in))
    } else {
        match extension_step(is_in, es[0]) {
            None => None,
            Some(s) => match run_extension(emit, s, es.drop_first()) {
                None => None,
                Some((rest, last)) => Some((if s { rest } else { seq![es[0]] + rest }, last)),
            },
        }
    }
}

/// The events the message filter keeps from `es`, starting in state
/// `is_in`, with the state it ends in; `None` where an event is an error.
pub open spec fn run_messages(names: Seq<Seq<char>>, is_in: bool, es: Seq<XmlEvent>) -> Option<(Seq<XmlEvent>, bool)>
    decreases es.len(),
{
    if es.len() == 0 {
        Some((es, is_in))
    } else {
        match message_step(names, is_in, es[0]) {
            None => None,
            Some((s, keep)) => match run_messages(names, s, es.drop_first()) {
                None => None,
                Some((rest, last)) => Some((if keep { seq![es[0]] + rest } else { rest }, last)),
            },
        }
    }
}

fn element_of_event_name(name: &String) -> (r: Result<MavXmlElement, BindGenError>)
    ensures
        r matches Ok(k) ==> element_of_tag(name@) == Some(k),
        r is Err <==> element_of_tag(name@) is None,
{
    match identify_element(name.as_str()) {
        Some(k) => Ok(k),
        None => Err(BindGenError::UnexpectedElement(name.clone())),
    }
}

fn list_contains(names: &Vec<String>, s: &String) -> (r: bool)
    ensures
        r == name_views(names@).contains(s@),
{
    let mut i: usize = 0;
    while i < names.len()
        invariant
            0 <= i <= names@.len(),
            forall|k: int| 0 <= k < i ==> names@[k]@ != s@,
        decreases names@.len() - i,
    {
        if str_eq(names[i].as_str(), s.as_str()) {
            assert(name_views(names@)[i as int] == s@);
            return true;
        }
        i = i + 1;
    }
    proof {
        if name_views(names@).contains(s@) {
            let k = choose|k: int| 0 <= k < name_views(names@).len() && name_views(names@)[k] == s@;
            assert(names@[k]@ == s@);
        }
    }
    false
}

fn any_name_listed(attrs: &Vec<XmlAttribute>, names: &Vec<String>) -> (r: bool)
    ensures
        r == names_listed(attrs@, name_views(names@)),
{
    let mut i: usize = 0;
    while i < attrs.len()
        invariant
            0 <= i <= attrs@.len(),
            forall|k: int| 0 <= k < i ==> !(#[trigger] attrs@[k].key@ == "name"@ && name_views(names@).contains(attrs@[k].value@)),
        decreases attrs@.len() - i,
    {
        if str_eq(attrs[i].key.as_str(), "name") && list_contains(names, &attrs[i].value) {
            return true;
        }
        i = i + 1;
    }
    false
}

impl MessageFilter {
    /// The message filter with its fixed list of messages the type system
    /// cannot represent yet.
    pub fn new() -> (r: Self)
        ensures
            !r.is_in,
            name_views(r.messages@) == seq!["STORM32_GIMBAL_MANAGER_INFORMATION"@],
    {
        let mut messages: Vec<String> = Vec::new();
        // device_cap_flags is u32 where its enum is u16, which the parser does not handle yet
        messages.push(String::from_str("STORM32_GIMBAL_MANAGER_INFORMATION"));
        let r = MessageFilter { is_in: false, messages };
        assert(name_views(r.messages@) =~= seq!["STORM32_GIMBAL_MANAGER_INFORMATION"@]);
        r
    }
}

impl Default for MavXmlFilter {
    /// Both filters in their initial state, extension fields left out.
    fn default() -> (r: Self)
        ensures
            !r.emit_extensions,
            !r.extension_filter.is_in,
            !r.message_filter.is_in,
            name_views(r.message_filter.messages@) == seq!["STORM32_GIMBAL_MANAGER_INFORMATION"@],
    {
        MavXmlFilter::new(false)
    }
}

impl MavXmlFilter {
    /// Both filters in their initial state; `emit_extensions` switches the
    /// extension filter off.
    pub fn new(emit_extensions: bool) -> (r: Self)
        ensures
            r.emit_extensions == emit_extensions,
            !r.extension_filter.is_in,
            !r.message_filter.is_in,
            name_views(r.message_filter.messages@) == seq!["STORM32_GIMBAL_MANAGER_INFORMATION"@],
    {
        MavXmlFilter {
            emit_extensions,
            extension_filter: ExtensionFilter { is_in: false },
            message_filter: MessageFilter::new(),
        }
    }

    /// Applies the extension filter, then the message filter, to the events,
    /// keeping the order of the events that survive.
    pub fn filter(&mut self, elements: &mut Vec<XmlEvent>) -> (r: Result<(), BindGenError>)
        ensures
            final(self).emit_extensions == old(self).emit_extensions,
            final(self).message_filter.messages == old(self).message_filter.messages,
            match run_extension(old(self).emit_extensions, old(self).extension_filter.is_in, old(elements)@) {
                None => r is Err,
                Some((mid, s1)) => match run_messages(name_views(old(self).message_filter.messages@), old(self).message_filter.is_in, mid) {
                    None => r is Err,
                    Some((kept, s2)) => r is Ok && final(elements)@ == kept
                        && final(self).extension_filter.is_in == s1 && final(self).message_filter.is_in == s2,
                },
            },
    {
        let ghost names = name_views(self.message_filter.messages@);
        let ghost emit = self.emit_extensions;
        let ghost all = elements@;
        let mut rest: Vec<XmlEvent> = Vec::new();
        std::mem::swap(elements, &mut rest);
        let mut mid: Vec<XmlEvent> = Vec::new();
        while rest.len() > 0
            invariant
                emit == old(self).emit_extensions,
                all == old(elements)@,
                names == name_views(old(self).message_filter.messages@),
                self.emit_extensions == emit,
                self.message_filter == old(self).message_filter,
                names == name_views(self.message_filter.messages@),
                run_extension(emit, old(self).extension_filter.is_in, all) == match run_extension(emit, self.extension_filter.is_in, rest@) {
                    None => None,
                    Some((t, last)) => Some((mid@ + t, last)),
                },
            decreases rest@.len(),
        {
            let ghost before = rest@;
            let e = rest.remove(0);
            proof {
                assert(before[0] == e);
                assert(before.drop_first() =~= rest@);
            }
            let ghost s0 = self.extension_filter.is_in;
            let keep = match self.filter_extension(&e) {
                Ok(k) => k,
                Err(err) => {
                    assert(run_extension(emit, s0, before) is None);
                    return Err(err);
                },
            };
            let ghost mid0 = mid@;
            if keep {
                mid.push(e);
            }
            proof {
                match run_extension(emit, self.extension_filter.is_in, rest@) {
                    None => {},
                    Some((t, last)) => {
                        if keep {
                            assert(mid0 + (seq![e] + t) =~= mid@ + t);
                        }
                    },
                }
            }
        }
        assert(mid@ + Seq::<XmlEvent>::empty() =~= mid@);
        let ghost mid_all = mid@;
        let mut out: Vec<XmlEvent> = Vec::new();
        while mid.len() > 0
            invariant
                emit == old(self).emit_extensions,
                all == old(elements)@,
                names == name_views(old(self).message_filter.messages@),
                self.emit_extensions == emit,
                names == name_views(self.message_filter.messages@),
                self.message_filter.messages == old(self).message_filter.messages,
                self.extension_filter.is_in == run_extension(emit, old(self).extension_filter.is_in, all).unwrap().1,
                run_extension(emit, old(self).extension_filter.is_in, all) == Some((mid_all, self.extension_filter.is_in)),
                run_messages(names, old(self).message_filter.is_in, mid_all) == match run_messages(names, self.message_filter.is_in, mid@) {
                    None => None,
                    Some((t, last)) => Some((out@ + t, last)),
                },
            decreases mid@.len(),
        {
            let ghost before = mid@;
            let e = mid.remove(0);
            proof {
                assert(before[0] == e);
                assert(before.drop_first() =~= mid@);
            }
            let ghost s0 = self.message_filter.is_in;
            let keep = match self.filter_messages(&e) {
                Ok(k) => k,
                Err(err) => {
                    assert(run_messages(names, s0, before) is None);
                    return Err(err);
                },
            };
            let ghost out0 = out@;
            if keep {
                out.push(e);
            }
            proof {
                match run_messages(names, self.message_filter.is_in, mid@) {
                    None => {},
                    Some((t, last)) => {
                        if keep {
                            assert(out0 + (seq![e] + t) =~= out@ + t);
                        }
                    },
                }
            }
        }
        assert(out@ + Seq::<XmlEvent>::empty() =~= out@);
        *elements = out;
        Ok(())
    }

    /// Runs the extension filter on one event: whether it is kept. An
    /// event of an unknown tag, or one the reader could not read, is an error.
    pub fn filter_extension(&mut self, element: &XmlEvent) -> (r: Result<bool, BindGenError>)
        ensures
            final(self).emit_extensions == old(self).emit_extensions,
            final(self).message_filter == old(self).message_filter,
            old(self).emit_extensions ==> r == Ok::<bool, BindGenError>(true)
                && final(self).extension_filter.is_in == old(self).extension_filter.is_in,
            !old(self).emit_extensions ==> match extension_step(old(self).extension_filter.is_in, *element) {
                None => r is Err && final(self).extension_filter.is_in == old(self).extension_filter.is_in,
                Some(s) => r == Ok::<bool, BindGenError>(!s) && final(self).extension_filter.is_in == s,
            },
    {
        if self.emit_extensions {
            return Ok(true);
        }
        match element {
            XmlEvent::Start { name, .. } | XmlEvent::Empty { name, .. } => {
                let id = element_of_event_name(name)?;
                if id == MavXmlElement::Extensions {
                    self.extension_filter.is_in = true;
                }
            },
            XmlEvent::End(name) => {
                let id = element_of_event_name(name)?;
                if id == MavXmlElement::Message {
                    self.extension_filter.is_in = false;
                }
            },
            XmlEvent::Invalid(why) => {
                return Err(BindGenError::UnexpectedText(why.clone()));
            },
            _ => {},
        }
        Ok(!self.extension_filter.is_in)
    }

    /// Runs the message filter on one event: whether it is kept. Every
    /// event from the opening of a listed message to its closing tag, both
    /// included, is dropped.
    pub fn filter_messages(&mut self, element: &XmlEvent) -> (r: Result<bool, BindGenError>)
        ensures
            final(self).emit_extensions == old(self).emit_extensions,
            final(self).extension_filter == old(self).extension_filter,
            final(self).message_filter.messages == old(self).message_filter.messages,
            match message_step(name_views(old(self).message_filter.messages@), old(self).message_filter.is_in, *element) {
                None => r is Err && final(self).message_filter.is_in == old(self).message_filter.is_in,
                Some((s, keep)) => r == Ok::<bool, BindGenError>(keep) && final(self).message_filter.is_in == s,
            },
    {
        match element {
            XmlEvent::Start { name, attributes } | XmlEvent::Empty { name, attributes } => {
                let id = element_of_event_name(name)?;
                if id == MavXmlElement::Message && any_name_listed(attributes, &self.message_filter.messages) {
                    self.message_filter.is_in = true;
                    return Ok(false);
                }
            },
            XmlEvent::End(name) => {
                let id = element_of_event_name(name)?;
                if id == MavXmlElement::Message && self.message_filter.is_in {
                    self.message_filter.is_in = false;
                    return Ok(false);
                }
            },
            XmlEvent::Invalid(why) => {
                return Err(BindGenError::UnexpectedText(why.clone()));
            },
            _ => {},
        }
        Ok(!self.message_filter.is_in)
    }
}

} // verus!

//! The structural parser: a walk over the filtered events of one document
//! that checks the nesting of elements, fills the message, field, enum and
//! entry being read, and hands finished messages and enums to the profile.
//! Included documents are read by the caller: a closing `include` element
//! is reported as an action, and the caller folds the included profile in.
use vstd::prelude::*;
use vstd::string::*;

use crate::element::{element_of_tag, identify_element, is_valid_parent, parent_allowed, MavXmlElement};
use crate::error::BindGenError;
use crate::filter::{XmlAttribute, XmlEvent};
use crate::layout::{fields_valid, layout_sorted, resolve_field_order, resolved_order};
use crate::model::{same_field, enum_marks, enum_names, enum_names_unique, find_enum, message_names_unique, merge_is_clean, opt_view, resolve_messages, same_message, MavEnum, MavEnumEntry, MavField, MavMessage, MavProfile};
use crate::text::{pascal_from, parse_u32_radix, parse_unsigned, replace_newline, replace_newlines, str_eq, to_pascal_case, unsigned_radix_value, unsigned_value};
use crate::types::{type_of_name, valid_type, MavType};

verus! {

/// What the caller has to do after a step.
#[derive(Debug, Clone, PartialEq, Eq)]
pub enum ParseAction {
    /// Nothing: go on with the next event.
    Continue,
    /// An `include` element closed: read the document at this path (unless
    /// it was read before) and fold its profile in with `merge_included`.
    Include(String),
}

/// The state of the walk over one document.
pub struct MavParser {
    pub stack: Vec<MavXmlElement>,
    pub profile: MavProfile,
    pub field: MavField,
    pub message: MavMessage,
    pub mavenum: MavEnum,
    pub entry: MavEnumEntry,
    pub include_path: String,
    pub paramid: Option<usize>,
    pub is_in_extension: bool,
}

/// The innermost open element.
pub open spec fn top(stack: Seq<MavXmlElement>) -> Option<MavXmlElement> {
    if stack.len() == 0 { None } else { Some(stack.last()) }
}

/// Whether text may stand inside the two innermost open elements.
pub open spec fn text_allowed(stack: Seq<MavXmlElement>) -> bool {
    stack.len() >= 2 && {
        let cur = stack[stack.len() - 1];
        let parent = stack[stack.len() - 2];
        ||| cur == MavXmlElement::Description && parent == MavXmlElement::Message
        ||| cur == MavXmlElement::Field && parent == MavXmlElement::Message
        ||| cur == MavXmlElement::Description && parent == MavXmlElement::Enum
        ||| cur == MavXmlElement::Description && parent == MavXmlElement::Entry
        ||| cur == MavXmlElement::Param && parent == MavXmlElement::Entry
        ||| cur == MavXmlElement::Include && parent == MavXmlElement::Mavlink
        ||| cur == MavXmlElement::Version && parent == MavXmlElement::Mavlink
        ||| cur == MavXmlElement::Dialect && parent == MavXmlElement::Mavlink
        ||| cur == MavXmlElement::Deprecated
    }
}

/// The value of the last attribute with key `key`.
pub open spec fn last_value(attrs: Seq<XmlAttribute>, key: Seq<char>) -> Option<Seq<char>>
    decreases attrs.len(),
{
    if attrs.len() == 0 {
        None
    } else if attrs.last().key@ == key {
        Some(attrs.last().value@)
    } else {
        last_value(attrs.drop_last(), key)
    }
}

/// An entry's `value`: hexadecimal after `0x`, decimal otherwise.
pub open spec fn entry_value_of(s: Seq<char>) -> Option<nat> {
    if s.len() >= 2 && s[0] == '0' && s[1] == 'x' {
        unsigned_radix_value(s.skip(2), 16)
    } else {
        unsigned_radix_value(s, 10)
    }
}

/// The name a field is stored under: `type` is a Rust keyword and becomes
/// `mavtype`.
pub open spec fn stored_field_name(v: Seq<char>) -> Seq<char> {
    if v == "type"@ { "mavtype"@ } else { v }
}

/// Whether an enum named `n` is known and is a bitmask.
pub open spec fn bitmask_enum_named(es: Seq<MavEnum>, n: Seq<char>) -> bool {
    exists|i: int| 0 <= i < es.len() && es[i].name@ == n && es[i].bitmask
}

/// A field's display hint after one attribute: `display` sets it, and an
/// `enum` attribute naming a known bitmask enum sets `bitmask`.
pub open spec fn display_step(es: Seq<MavEnum>, d: Option<Seq<char>>, a: XmlAttribute) -> Option<Seq<char>> {
    if a.key@ == "enum"@ {
        if bitmask_enum_named(es, pascal_from(a.value@, true)) { Some("bitmask"@) } else { d }
    } else if a.key@ == "display"@ {
        Some(a.value@)
    } else {
        d
    }
}

/// A new field's display hint after its attributes.
pub open spec fn display_after(es: Seq<MavEnum>, attrs: Seq<XmlAttribute>) -> Option<Seq<char>>
    decreases attrs.len(),
{
    if attrs.len() == 0 { None } else { display_step(es, display_after(es, attrs.drop_last()), attrs.last()) }
}

/// The text of the last attribute `key`, empty where there is none.
pub open spec fn text_of(attrs: Seq<XmlAttribute>, key: Seq<char>) -> Seq<char> {
    match last_value(attrs, key) {
        Some(v) => v,
        None => Seq::empty(),
    }
}

/// What opening an element of kind `k` with attributes `attrs` leaves in
/// the element being read, from state `pre` to state `post`.
pub open spec fn start_effect(pre: MavParser, post: MavParser, k: MavXmlElement, attrs: Seq<XmlAttribute>) -> bool {
    &&& k == MavXmlElement::Message ==> {
        &&& post.message.name@ == text_of(attrs, "name"@)
        &&& post.message.id == match last_value(attrs, "id"@) {
            Some(v) => unsigned_radix_value(v, 10).unwrap() as u32,
            None => 0u32,
        }
        &&& post.message.description is None
        &&& post.message.fields@.len() == 0
    }
    &&& k == MavXmlElement::Field ==> {
        &&& post.field.name@ == match last_value(attrs, "name"@) {
            Some(v) => stored_field_name(v),
            None => Seq::empty(),
        }
        &&& post.field.mavtype == match last_value(attrs, "type"@) {
            Some(v) => type_of_name(v).unwrap(),
            None => MavType::UInt8,
        }
        &&& opt_view(post.field.enumtype) == match last_value(attrs, "enum"@) {
            Some(v) => Some(pascal_from(v, true)),
            None => None,
        }
        &&& opt_view(post.field.display) == display_after(pre.profile.enums@, attrs)
        &&& post.field.is_extension == pre.is_in_extension
        &&& post.field.description is None
    }
    &&& k == MavXmlElement::Enum ==> {
        &&& post.mavenum.name@ == match last_value(attrs, "name"@) {
            Some(v) => pascal_from(v, true),
            None => Seq::empty(),
        }
        &&& post.mavenum.bitmask == last_value(attrs, "bitmask"@) is Some
        &&& post.mavenum.description is None
        &&& post.mavenum.entries@.len() == 0
        &&& post.mavenum.primitive is None
    }
    &&& k == MavXmlElement::Entry ==> {
        &&& post.entry.name@ == text_of(attrs, "name"@)
        &&& post.entry.value == match last_value(attrs, "value"@) {
            Some(v) => Some(entry_value_of(v).unwrap() as u32),
            None => None,
        }
        &&& post.entry.description is None
        &&& post.entry.params is None
    }
    &&& k == MavXmlElement::Param ==> {
        &&& post.paramid == match last_value(attrs, "index"@) {
            Some(v) => Some(unsigned_value(v).unwrap() as usize),
            None => None,
        }
        &&& attrs.len() > 0 ==> post.entry.params is Some
        &&& pre.entry.params is Some ==> post.entry.params == pre.entry.params
    }
    &&& k == MavXmlElement::Extensions ==> post.is_in_extension
    &&& k == MavXmlElement::Include ==> post.include_path@.len() == 0
}

/// What a self-closing tag named `name` with attributes `attrs` does, from
/// state `pre` to state `post` (`ok`: whether it was accepted).
/// `<extensions/>` starts the extension region; `<entry/>` appends an
/// entry with the last `name` and `value` (hexadecimal after `0x`), and is
/// refused where a `value` is no number; other tags change nothing.
pub open spec fn empty_effect(pre: MavParser, post: MavParser, name: Seq<char>, attrs: Seq<XmlAttribute>, ok: bool) -> bool {
    if name == "extensions"@ {
        ok && post.is_in_extension && post.mavenum == pre.mavenum
    } else if name == "entry"@ {
        &&& ok <==> forall|i: int| 0 <= i < attrs.len() ==> attribute_readable(MavXmlElement::Entry, #[trigger] attrs[i])
        &&& post.is_in_extension == pre.is_in_extension
        &&& ok ==> {
            &&& post.mavenum.entries@.len() == pre.mavenum.entries@.len() + 1
            &&& post.mavenum.entries@.drop_last() == pre.mavenum.entries@
            &&& post.mavenum.entries@.last().name@ == text_of(attrs, "name"@)
            &&& post.mavenum.entries@.last().value == match last_value(attrs, "value"@) {
                Some(v) => Some(entry_value_of(v).unwrap() as u32),
                None => None,
            }
            &&& post.mavenum.entries@.last().description is None
            &&& post.mavenum.entries@.last().params is None
            &&& post.mavenum.name == pre.mavenum.name
            &&& post.mavenum.bitmask == pre.mavenum.bitmask
        }
    } else {
        ok && post.mavenum == pre.mavenum && post.is_in_extension == pre.is_in_extension
    }
}

/// What one readable attribute of the innermost element `k` changes.
pub open spec fn attribute_effect(pre: MavParser, post: MavParser, k: MavXmlElement, a: XmlAttribute) -> bool {
    &&& k == MavXmlElement::Message ==> {
        &&& post.message.name@ == (if a.key@ == "name"@ { a.value@ } else { pre.message.name@ })
        &&& post.message.id == (if a.key@ == "id"@ { unsigned_radix_value(a.value@, 10).unwrap() as u32 } else { pre.message.id })
        &&& post.message.description == pre.message.description
    }
    &&& k == MavXmlElement::Field ==> {
        &&& post.field.name@ == (if a.key@ == "name"@ { stored_field_name(a.value@) } else { pre.field.name@ })
        &&& post.field.mavtype == (if a.key@ == "type"@ { type_of_name(a.value@).unwrap() } else { pre.field.mavtype })
        &&& opt_view(post.field.enumtype)
            == (if a.key@ == "enum"@ { Some(pascal_from(a.value@, true)) } else { opt_view(pre.field.enumtype) })
        &&& opt_view(post.field.display) == display_step(pre.profile.enums@, opt_view(pre.field.display), a)
        &&& post.field.is_extension == pre.field.is_extension
        &&& post.field.description == pre.field.description
    }
    &&& k == MavXmlElement::Enum ==> {
        &&& post.mavenum.name@ == (if a.key@ == "name"@ { pascal_from(a.value@, true) } else { pre.mavenum.name@ })
        &&& post.mavenum.bitmask == (a.key@ == "bitmask"@ || pre.mavenum.bitmask)
        &&& post.mavenum.description == pre.mavenum.description
        &&& post.mavenum.entries == pre.mavenum.entries
        &&& post.mavenum.primitive == pre.mavenum.primitive
    }
    &&& k == MavXmlElement::Entry ==> {
        &&& post.entry.name@ == (if a.key@ == "name"@ { a.value@ } else { pre.entry.name@ })
        &&& post.entry.value == (if a.key@ == "value"@ { Some(entry_value_of(a.value@).unwrap() as u32) } else { pre.entry.value })
        &&& post.entry.description == pre.entry.description
        &&& post.entry.params == pre.entry.params
    }
    &&& k == MavXmlElement::Param ==> {
        &&& post.paramid == (if a.key@ == "index"@ { Some(unsigned_value(a.value@).unwrap() as usize) } else { pre.paramid })
        &&& post.entry.params is Some
        &&& pre.entry.params is Some ==> post.entry.params == pre.entry.params
    }
    &&& post.include_path == pre.include_path
}

/// Whether an attribute of an element of kind `k` can be read: a message
/// `id` must be a `u32`, a field `type` must name a type, a parameter
/// `index` must be a `usize`. Other attributes are always readable.
pub open spec fn attribute_readable(k: MavXmlElement, a: XmlAttribute) -> bool {
    if k == MavXmlElement::Message && a.key@ == "id"@ {
        unsigned_radix_value(a.value@, 10) matches Some(v) && v <= u32::MAX
    } else if k == MavXmlElement::Field && a.key@ == "type"@ {
        type_of_name(a.value@) is Some
    } else if k == MavXmlElement::Entry && a.key@ == "value"@ {
        entry_value_of(a.value@) matches Some(v) && v <= u32::MAX
    } else if k == MavXmlElement::Param && a.key@ == "index"@ {
        unsigned_value(a.value@) matches Some(v) && v <= usize::MAX
    } else {
        true
    }
}

/// Whether the two innermost open elements are `cur` inside `parent`.
pub open spec fn text_goes_to(stack: Seq<MavXmlElement>, cur: MavXmlElement, parent: MavXmlElement) -> bool {
    stack.len() >= 2 && stack[stack.len() - 1] == cur && stack[stack.len() - 2] == parent
}

/// An enum's name, description, entries, backing primitive and bitmask flag.
pub type EnumView = (Seq<char>, Option<Seq<char>>, Seq<MavEnumEntry>, Option<Seq<char>>, bool);

/// The view of an enum.
pub open spec fn enum_view(e: MavEnum) -> EnumView {
    (e.name@, opt_view(e.description), e.entries@, opt_view(e.primitive), e.bitmask)
}

/// The views of the enums.
pub open spec fn enum_views(es: Seq<MavEnum>) -> Seq<EnumView> {
    es.map_values(|e: MavEnum| enum_view(e))
}

/// The profile's messages after adding `m` by the add rule: a new name is
/// appended, the same definition again changes nothing, another
/// definition of a known name fails (`None`).
pub open spec fn add_one_message(cur: Seq<MavMessage>, m: MavMessage) -> Option<Seq<MavMessage>> {
    if exists|i: int| 0 <= i < cur.len() && cur[i].name@ == m.name@ {
        let i = choose|i: int| 0 <= i < cur.len() && cur[i].name@ == m.name@;
        if same_message(cur[i], m) { Some(cur) } else { None }
    } else {
        Some(cur.push(m))
    }
}

/// Adding the messages `inc` one after another.
pub open spec fn add_messages(cur: Seq<MavMessage>, inc: Seq<MavMessage>) -> Option<Seq<MavMessage>>
    decreases inc.len(),
{
    if inc.len() == 0 {
        Some(cur)
    } else {
        match add_one_message(cur, inc[0]) {
            None => None,
            Some(c) => add_messages(c, inc.drop_first()),
        }
    }
}

/// The profile's enums after adding `e` by the merge rule: a new name is
/// appended; a known name takes the entries of `e` after its own, unless
/// one of them repeats an earlier entry (`None`).
pub open spec fn add_one_enum(cur: Seq<EnumView>, e: EnumView) -> Option<Seq<EnumView>> {
    if exists|i: int| 0 <= i < cur.len() && cur[i].0 == e.0 {
        let i = choose|i: int| 0 <= i < cur.len() && cur[i].0 == e.0;
        if merge_is_clean(cur[i].2, e.2) {
            Some(cur.update(i, (cur[i].0, cur[i].1, cur[i].2 + e.2, cur[i].3, cur[i].4)))
        } else {
            None
        }
    } else {
        Some(cur.push(e))
    }
}

/// Adding the enums `inc` one after another.
pub open spec fn add_enums(cur: Seq<EnumView>, inc: Seq<EnumView>) -> Option<Seq<EnumView>>
    decreases inc.len(),
{
    if inc.len() == 0 {
        Some(cur)
    } else {
        match add_one_enum(cur, inc[0]) {
            None => None,
            Some(c) => add_enums(c, inc.drop_first()),
        }
    }
}

proof fn lemma_unique_message_index(ms: Seq<MavMessage>, n: Seq<char>, i: int)
    requires
        message_names_unique(ms),
        0 <= i < ms.len(),
        ms[i].name@ == n,
    ensures
        (choose|k: int| 0 <= k < ms.len() && ms[k].name@ == n) == i,
{
    let k = choose|k: int| 0 <= k < ms.len() && ms[k].name@ == n;
    assert(0 <= k < ms.len() && ms[k].name@ == n);
}

proof fn lemma_unique_enum_index(es: Seq<MavEnum>, n: Seq<char>, i: int)
    requires
        enum_names_unique(es),
        0 <= i < es.len(),
        es[i].name@ == n,
    ensures
        (choose|k: int| 0 <= k < enum_views(es).len() && enum_views(es)[k].0 == n) == i,
{
    let v = enum_views(es);
    let k = choose|k: int| 0 <= k < v.len() && v[k].0 == n;
    assert(0 <= i < v.len() && v[i].0 == n);
    assert(0 <= k < v.len() && v[k].0 == n);
    assert(es[k].name@ == n);
}

/// `m` is the message `b` as it stands once closed: same id, name and
/// description, fields in resolved order.
pub open spec fn closed_message(m: MavMessage, b: MavMessage) -> bool {
    &&& m.id == b.id && m.name == b.name && m.description == b.description
    &&& m.fields@ == resolved_order(b.fields@)
}

/// `a` has the definition of the message `b` once closed.
pub open spec fn same_as_closed(a: MavMessage, b: MavMessage) -> bool {
    let fs = resolved_order(b.fields@);
    &&& a.id == b.id && a.name@ == b.name@ && opt_view(a.description) == opt_view(b.description)
    &&& a.fields@.len() == fs.len()
    &&& forall|j: int| 0 <= j < fs.len() ==> same_field(#[trigger] a.fields@[j], fs[j])
}

/// Whether every message of the sequence has its fields in wire order.
pub open spec fn messages_sorted(ms: Seq<MavMessage>) -> bool {
    forall|i: int| 0 <= i < ms.len() ==> layout_sorted(#[trigger] ms[i].fields@)
}

/// Whether every message of the sequence has valid field types.
pub open spec fn messages_valid(ms: Seq<MavMessage>) -> bool {
    forall|i: int| 0 <= i < ms.len() ==> fields_valid(#[trigger] ms[i].fields@)
}

fn empty_field() -> (r: MavField)
    ensures
        r.mavtype == MavType::UInt8,
        r.name@.len() == 0,
        r.description is None && r.enumtype is None && r.display is None,
        !r.is_extension,
{
    MavField {
        mavtype: MavType::UInt8,
        name: String::new(),
        description: None,
        enumtype: None,
        display: None,
        is_extension: false,
    }
}

fn empty_message() -> (r: MavMessage)
    ensures
        r.id == 0,
        r.name@.len() == 0,
        r.description is None,
        r.fields@.len() == 0,
{
    MavMessage { id: 0, name: String::new(), description: None, fields: Vec::new() }
}

fn empty_enum() -> (r: MavEnum)
    ensures
        r.name@.len() == 0,
        r.description is None,
        r.entries@.len() == 0,
        r.primitive is None,
        !r.bitmask,
{
    MavEnum { name: String::new(), description: None, entries: Vec::new(), primitive: None, bitmask: false }
}

fn empty_entry() -> (r: MavEnumEntry)
    ensures
        r.value is None,
        r.name@.len() == 0,
        r.description is None,
        r.params is None,
{
    MavEnumEntry { value: None, name: String::new(), description: None, params: None }
}

/// Reads an entry value: hexadecimal after `0x`, decimal otherwise;
/// `None` where it is no number that fits in a `u32`.
fn parse_entry_value(s: &str) -> (r: Option<u32>)
    ensures
        r matches Some(v) ==> entry_value_of(s@) == Some(v as nat),
        r is None ==> !(entry_value_of(s@) matches Some(v) && v <= u32::MAX),
{
    proof {
        if s@.len() >= 2 {
            assert(s@.subrange(2, s@.len() as int) =~= s@.skip(2));
        }
    }
    let n = s.unicode_len();
    if n >= 2 && s.get_char(0) == '0' && s.get_char(1) == 'x' {
        parse_u32_radix(s.substring_char(2, n), 16)
    } else {
        parse_u32_radix(s, 10)
    }
}

/// The filler text of a parameter whose description the document skips.
fn unused_param_text() -> (r: String)
    ensures
        r@ == unused_param_note(),
{
    String::from_str("The use of this parameter (if any), must be defined in the requested message. By default assumed not used (0).")
}

/// The filler text of a parameter whose description the document skips.
pub open spec fn unused_param_note() -> Seq<char> {
    "The use of this parameter (if any), must be defined in the requested message. By default assumed not used (0)."@
}

/// The characters of optional parameter descriptions.
pub open spec fn params_view(o: Option<Vec<String>>) -> Option<Seq<Seq<char>>> {
    match o {
        Some(v) => Some(v@.map_values(|x: String| x@)),
        None => None,
    }
}

/// Parameter descriptions after the text `t` of parameter `pid` (counted
/// from 1): skipped parameters get the filler text.
pub open spec fn set_param(p: Seq<Seq<char>>, pid: nat, t: Seq<char>) -> Seq<Seq<char>> {
    let padded = if p.len() < pid { p + Seq::new((pid - p.len()) as nat, |i: int| unused_param_note()) } else { p };
    padded.update(pid - 1, t)
}

impl MavParser {
    /// The invariant of the walk: the profile keeps names unique, and every
    /// type read so far is one the format can express.
    pub open spec fn well_formed(&self) -> bool {
        &&& self.profile.well_formed()
        &&& messages_valid(self.profile.messages@)
        &&& messages_sorted(self.profile.messages@)
        &&& fields_valid(self.message.fields@)
        &&& valid_type(self.field.mavtype)
    }

    /// The state before the first event of a document.
    pub fn new() -> (r: Self)
        ensures
            r.well_formed(),
            r.stack@.len() == 0,
            r.profile.messages@.len() == 0,
            r.profile.enums@.len() == 0,
            !r.is_in_extension,
    {
        MavParser {
            stack: Vec::new(),
            profile: MavProfile::new(),
            field: empty_field(),
            message: empty_message(),
            mavenum: empty_enum(),
            entry: empty_entry(),
            include_path: String::new(),
            paramid: None,
            is_in_extension: false,
        }
    }

    fn apply_attribute(&mut self, attr: &XmlAttribute) -> (r: Result<(), BindGenError>)
        requires
            old(self).well_formed(),
        ensures
            final(self).well_formed(),
            final(self).stack == old(self).stack,
            final(self).profile == old(self).profile,
            final(self).message.fields == old(self).message.fields,
            old(self).stack@.len() > 0 ==> (r is Ok <==> attribute_readable(old(self).stack@.last(), *attr)),
            r is Err ==> r->Err_0 is InvalidNumber || r->Err_0 is InvalidType,
            final(self).is_in_extension == old(self).is_in_extension,
            r is Ok && old(self).stack@.len() > 0 ==> attribute_effect(*old(self), *final(self), old(self).stack@.last(), *attr),
    {
        proof {
            reveal_strlit("id");
            reveal_strlit("name");
            reveal_strlit("type");
            reveal_strlit("index");
            reveal_strlit("enum");
            reveal_strlit("display");
            assert("name"@[0] == 'n' && "type"@[0] == 't' && "enum"@[0] == 'e' && "id"@.len() == 2);
            assert("name"@ != "id"@);
            assert("name"@ != "type"@);
            assert("enum"@ != "type"@);
            assert("display"@ != "type"@);
            reveal_strlit("value");
            reveal_strlit("bitmask");
            assert("name"@ != "value"@);
            assert("name"@ != "bitmask"@);
            assert("name"@ != "enum"@);
            assert("name"@ != "display"@);
            assert("enum"@ != "display"@);
        }
        let innermost = if self.stack.len() > 0 { Some(self.stack[self.stack.len() - 1]) } else { None };
        let key = attr.key.as_str();
        match innermost {
            Some(MavXmlElement::Enum) => {
                if str_eq(key, "name") {
                    self.mavenum.name = to_pascal_case(attr.value.as_str());
                } else if str_eq(key, "bitmask") {
                    self.mavenum.bitmask = true;
                }
            },
            Some(MavXmlElement::Entry) => {
                if str_eq(key, "name") {
                    self.entry.name = attr.value.clone();
                } else if str_eq(key, "value") {
                    match parse_entry_value(attr.value.as_str()) {
                        Some(v) => {
                            self.entry.value = Some(v);
                        },
                        None => {
                            return Err(BindGenError::InvalidNumber(attr.value.clone()));
                        },
                    }
                }
            },
            Some(MavXmlElement::Message) => {
                if str_eq(key, "name") {
                    self.message.name = attr.value.clone();
                } else if str_eq(key, "id") {
                    match parse_u32_radix(attr.value.as_str(), 10) {
                        Some(id) => {
                            self.message.id = id;
                        },
                        None => {
                            return Err(BindGenError::InvalidNumber(attr.value.clone()));
                        },
                    }
                }
            },
            Some(MavXmlElement::Field) => {
                if str_eq(key, "name") {
                    if str_eq(attr.value.as_str(), "type") {
                        self.field.name = String::from_str("mavtype");
                    } else {
                        self.field.name = attr.value.clone();
                    }
                } else if str_eq(key, "type") {
                    match MavType::parse_type(attr.value.as_str()) {
                        Some(t) => {
                            self.field.mavtype = t;
                        },
                        None => {
                            return Err(BindGenError::InvalidType(attr.value.clone()));
                        },
                    }
                } else if str_eq(key, "enum") {
                    let name = to_pascal_case(attr.value.as_str());
                    // a field of an enum already known as a bitmask is shown as one
                    match find_enum(&self.profile.enums, name.as_str()) {
                        Some(i) => {
                            if self.profile.enums[i].bitmask {
                                self.field.display = Some(String::from_str("bitmask"));
                            }
                        },
                        None => {},
                    }
                    self.field.enumtype = Some(name);
                } else if str_eq(key, "display") {
                    self.field.display = Some(attr.value.clone());
                }
            },
            Some(MavXmlElement::Param) => {
                if self.entry.params.is_none() {
                    self.entry.params = Some(Vec::new());
                }
                if str_eq(key, "index") {
                    match parse_unsigned(attr.value.as_str()) {
                        Some(i) => {
                            self.paramid = Some(i);
                        },
                        None => {
                            return Err(BindGenError::InvalidNumber(attr.value.clone()));
                        },
                    }
                }
            },
            _ => {},
        }
        proof {
            if innermost is Some {
                assert(innermost.unwrap() == old(self).stack@.last());
            }
        }
        assert(innermost is Some ==> attribute_readable(innermost.unwrap(), *attr));
        Ok(())
    }

    fn open_element(&mut self, name: &String, attributes: &Vec<XmlAttribute>) -> (r: Result<(), BindGenError>)
        requires
            old(self).well_formed(),
        ensures
            final(self).well_formed(),
            final(self).profile == old(self).profile,
            element_of_tag(name@) is None ==> (r is Err && r->Err_0 is UnexpectedElement),
            element_of_tag(name@) matches Some(k) && !parent_allowed(top(old(self).stack@), k)
                ==> (r is Err && r->Err_0 is InvalidParent),
            r is Ok ==> (element_of_tag(name@) matches Some(k) && parent_allowed(top(old(self).stack@), k)
                && final(self).stack@ == old(self).stack@.push(k)),
            (element_of_tag(name@) is Some && parent_allowed(top(old(self).stack@), element_of_tag(name@).unwrap())) ==>
                (r is Ok <==> forall|i: int| 0 <= i < attributes@.len()
                    ==> attribute_readable(element_of_tag(name@).unwrap(), #[trigger] attributes@[i])),
            r is Ok ==> start_effect(*old(self), *final(self), element_of_tag(name@).unwrap(), attributes@),
    {
        let id = match identify_element(name.as_str()) {
            Some(k) => k,
            None => {
                return Err(BindGenError::UnexpectedElement(name.clone()));
            },
        };
        let innermost = if self.stack.len() > 0 { Some(self.stack[self.stack.len() - 1]) } else { None };
        if !is_valid_parent(innermost, id) {
            return Err(BindGenError::InvalidParent(name.clone()));
        }
        match id {
            MavXmlElement::Extensions => {
                self.is_in_extension = true;
            },
            MavXmlElement::Message => {
                self.message = empty_message();
            },
            MavXmlElement::Field => {
                self.field = empty_field();
                self.field.is_extension = self.is_in_extension;
            },
            MavXmlElement::Enum => {
                self.mavenum = empty_enum();
            },
            MavXmlElement::Entry => {
                self.entry = empty_entry();
            },
            MavXmlElement::Include => {
                self.include_path = String::new();
            },
            MavXmlElement::Param => {
                self.paramid = None;
            },
            _ => {},
        }
        self.stack.push(id);
        let ghost stack = self.stack@;
        let mut i: usize = 0;
        proof {
            assert(attributes@.take(0) =~= Seq::<XmlAttribute>::empty());
            if id == MavXmlElement::Message {
                assert(self.message.name@ =~= Seq::<char>::empty());
            }
            if id == MavXmlElement::Field {
                assert(self.field.name@ =~= Seq::<char>::empty());
            }
            if id == MavXmlElement::Enum {
                assert(self.mavenum.name@ =~= Seq::<char>::empty());
            }
            if id == MavXmlElement::Entry {
                assert(self.entry.name@ =~= Seq::<char>::empty());
            }
        }
        while i < attributes.len()
            invariant
                self.well_formed(),
                start_effect(*old(self), *self, id, attributes@.take(i as int)),
                self.stack@ == stack,
                stack == old(self).stack@.push(id),
                element_of_tag(name@) == Some(id),
                parent_allowed(top(old(self).stack@), id),
                self.profile == old(self).profile,
                0 <= i <= attributes@.len(),
                forall|q: int| 0 <= q < i ==> attribute_readable(id, #[trigger] attributes@[q]),
            decreases attributes@.len() - i,
        {
            let ghost pre = *self;
            match self.apply_attribute(&attributes[i]) {
                Ok(()) => {},
                Err(e) => {
                    assert(!attribute_readable(id, attributes@[i as int]));
                    return Err(e);
                },
            }
            proof {
                let ghost t = attributes@.take(i + 1);
                assert(t.drop_last() =~= attributes@.take(i as int));
                assert(t.last() == attributes@[i as int]);
                assert(attribute_effect(pre, *self, id, attributes@[i as int]));
                let a = attributes@[i as int];
                let prev = attributes@.take(i as int);
                assert(last_value(t, "name"@) == if a.key@ == "name"@ { Some(a.value@) } else { last_value(prev, "name"@) });
                assert(last_value(t, "id"@) == if a.key@ == "id"@ { Some(a.value@) } else { last_value(prev, "id"@) });
                assert(last_value(t, "type"@) == if a.key@ == "type"@ { Some(a.value@) } else { last_value(prev, "type"@) });
                assert(last_value(t, "enum"@) == if a.key@ == "enum"@ { Some(a.value@) } else { last_value(prev, "enum"@) });
                assert(last_value(t, "bitmask"@) == if a.key@ == "bitmask"@ { Some(a.value@) } else { last_value(prev, "bitmask"@) });
                assert(last_value(t, "value"@) == if a.key@ == "value"@ { Some(a.value@) } else { last_value(prev, "value"@) });
                assert(last_value(t, "index"@) == if a.key@ == "index"@ { Some(a.value@) } else { last_value(prev, "index"@) });
                assert(display_after(old(self).profile.enums@, t)
                    == display_step(old(self).profile.enums@, display_after(old(self).profile.enums@, prev), a));
            }
            i = i + 1;
        }
        assert(attributes@.take(i as int) =~= attributes@);
        Ok(())
    }

    fn empty_element(&mut self, name: &String, attributes: &Vec<XmlAttribute>) -> (r: Result<(), BindGenError>)
        requires
            old(self).well_formed(),
        ensures
            final(self).well_formed(),
            final(self).profile == old(self).profile,
            final(self).stack == old(self).stack,
            empty_effect(*old(self), *final(self), name@, attributes@, r is Ok),
            r is Err ==> r->Err_0 is InvalidNumber,
    {
        proof {
            reveal_strlit("extensions");
            reveal_strlit("entry");
            reveal_strlit("name");
            reveal_strlit("value");
            assert("extensions"@.len() == 10 && "entry"@.len() == 5);
            assert("extensions"@ != "entry"@);
            assert("name"@.len() == 4 && "value"@.len() == 5);
            assert("name"@ != "value"@);
        }
        if str_eq(name.as_str(), "extensions") {
            self.is_in_extension = true;
        } else if str_eq(name.as_str(), "entry") {
            let mut value: Option<u32> = None;
            let mut entry_name = String::new();
            let mut i: usize = 0;
            proof {
                assert(attributes@.take(0) =~= Seq::<XmlAttribute>::empty());
                assert(entry_name@ =~= Seq::<char>::empty());
            }
            while i < attributes.len()
                invariant
                    0 <= i <= attributes@.len(),
                    self.well_formed(),
                    *self == *old(self),
                    name@ == "entry"@,
                    "name"@ != "value"@,
                    "extensions"@ != "entry"@,
                    entry_name@ == text_of(attributes@.take(i as int), "name"@),
                    value == match last_value(attributes@.take(i as int), "value"@) {
                        Some(v) => Some(entry_value_of(v).unwrap() as u32),
                        None => None::<u32>,
                    },
                    forall|q: int| 0 <= q < i ==> attribute_readable(MavXmlElement::Entry, #[trigger] attributes@[q]),
                decreases attributes@.len() - i,
            {
                let attr = &attributes[i];
                let ghost t = attributes@.take(i + 1);
                proof {
                    assert(t.drop_last() =~= attributes@.take(i as int));
                    assert(t.last() == attributes@[i as int]);
                }
                if str_eq(attr.key.as_str(), "name") {
                    entry_name = attr.value.clone();
                } else if str_eq(attr.key.as_str(), "value") {
                    match parse_entry_value(attr.value.as_str()) {
                        Some(v) => {
                            value = Some(v);
                        },
                        None => {
                            assert(!attribute_readable(MavXmlElement::Entry, attributes@[i as int]));
                            return Err(BindGenError::InvalidNumber(attr.value.clone()));
                        },
                    }
                }
                i = i + 1;
            }
            assert(attributes@.take(i as int) =~= attributes@);
            self.entry = MavEnumEntry { value, name: entry_name.clone(), description: None, params: None };
            let ghost before = self.mavenum.entries@;
            self.mavenum.entries.push(MavEnumEntry { value, name: entry_name, description: None, params: None });
            assert(self.mavenum.entries@.drop_last() =~= before);
        }
        Ok(())
    }

    fn param_text(&mut self, s: &String) -> (r: Result<(), BindGenError>)
        requires
            old(self).well_formed(),
        ensures
            final(self).well_formed(),
            final(self).profile == old(self).profile,
            final(self).stack == old(self).stack,
            old(self).entry.params is None ==> r is Ok && final(self).entry == old(self).entry,
            old(self).entry.params is Some && (old(self).paramid is None || old(self).paramid == Some(0usize))
                ==> r is Err && r->Err_0 is UnexpectedText,
            old(self).entry.params is Some && old(self).paramid is Some && old(self).paramid.unwrap() > 0 ==> r is Ok
                && params_view(final(self).entry.params)
                    == Some(set_param(params_view(old(self).entry.params).unwrap(), old(self).paramid.unwrap() as nat, s@)),
    {
        if self.entry.params.is_none() {
            return Ok(());
        }
        let pid = match self.paramid {
            Some(p) => p,
            None => {
                return Err(BindGenError::UnexpectedText(s.clone()));
            },
        };
        if pid == 0 {
            return Err(BindGenError::UnexpectedText(s.clone()));
        }
        let mut taken: Option<Vec<String>> = None;
        std::mem::swap(&mut self.entry.params, &mut taken);
        let mut params = match taken {
            Some(v) => v,
            None => Vec::new(),
        };
        let ghost p0 = params@.map_values(|x: String| x@);
        assert(params_view(old(self).entry.params) == Some(p0));
        // descriptions may skip indices (0, 1, 2, 7): fill the gap
        while params.len() < pid
            invariant
                pid > 0,
                params@.len() >= p0.len(),
                params@.len() > p0.len() ==> params@.len() <= pid,
                params@.map_values(|x: String| x@) == (if params@.len() > p0.len() {
                    p0 + Seq::new((params@.len() - p0.len()) as nat, |i: int| unused_param_note())
                } else { p0 }),
            decreases pid - params@.len(),
        {
            let ghost before = params@;
            let ghost bm = before.map_values(|x: String| x@);
            params.push(unused_param_text());
            proof {
                let target = p0 + Seq::new((params@.len() - p0.len()) as nat, |i: int| unused_param_note());
                let now = params@.map_values(|x: String| x@);
                assert forall|k: int| 0 <= k < params@.len()
                    implies #[trigger] now[k] == target[k] by {
                    if k < before.len() {
                        assert(params@[k] == before[k]);
                        assert(bm[k] == before[k]@);
                        if before.len() > p0.len() {
                            assert(bm[k] == (p0 + Seq::new((before.len() - p0.len()) as nat, |i: int| unused_param_note()))[k]);
                        } else {
                            assert(bm[k] == p0[k]);
                        }
                    }
                }
                assert(now =~= target);
            }
        }
        let ghost padded = params@.map_values(|x: String| x@);
        assert(padded == (if p0.len() < pid { p0 + Seq::new((pid - p0.len()) as nat, |i: int| unused_param_note()) } else { p0 }));
        params.set(pid - 1, s.clone());
        assert(params@.map_values(|x: String| x@) =~= padded.update(pid - 1, s@));
        self.entry.params = Some(params);
        Ok(())
    }

    fn text(&mut self, s: &String) -> (r: Result<(), BindGenError>)
        requires
            old(self).well_formed(),
        ensures
            final(self).well_formed(),
            final(self).profile == old(self).profile,
            final(self).stack == old(self).stack,
            !text_allowed(old(self).stack@) ==> (r is Err && r->Err_0 is UnexpectedText),
            text_allowed(old(self).stack@) && !text_goes_to(old(self).stack@, MavXmlElement::Param, MavXmlElement::Entry)
                ==> r is Ok,
            text_goes_to(old(self).stack@, MavXmlElement::Description, MavXmlElement::Message)
                ==> opt_view(final(self).message.description) == Some(replace_newlines(s@, " "@)),
            text_goes_to(old(self).stack@, MavXmlElement::Field, MavXmlElement::Message)
                ==> opt_view(final(self).field.description) == Some(replace_newlines(s@, " "@)),
            text_goes_to(old(self).stack@, MavXmlElement::Description, MavXmlElement::Enum)
                ==> opt_view(final(self).mavenum.description) == Some(replace_newlines(s@, " "@)),
            text_goes_to(old(self).stack@, MavXmlElement::Description, MavXmlElement::Entry)
                ==> opt_view(final(self).entry.description) == Some(replace_newlines(s@, " "@)),
            text_goes_to(old(self).stack@, MavXmlElement::Include, MavXmlElement::Mavlink)
                ==> final(self).include_path@ == replace_newlines(s@, ""@),
            text_goes_to(old(self).stack@, MavXmlElement::Param, MavXmlElement::Entry) ==> {
                &&& old(self).entry.params is None ==> r is Ok && final(self).entry == old(self).entry
                &&& old(self).entry.params is Some && (old(self).paramid is None || old(self).paramid == Some(0usize))
                    ==> r is Err && r->Err_0 is UnexpectedText
                &&& old(self).entry.params is Some && old(self).paramid is Some && old(self).paramid.unwrap() > 0 ==> r is Ok
                    && params_view(final(self).entry.params)
                        == Some(set_param(params_view(old(self).entry.params).unwrap(), old(self).paramid.unwrap() as nat, s@))
            },
    {
        let n = self.stack.len();
        if n < 2 {
            return Err(BindGenError::UnexpectedText(s.clone()));
        }
        let cur = self.stack[n - 1];
        let parent = self.stack[n - 2];
        match (cur, parent) {
            (MavXmlElement::Description, MavXmlElement::Message) => {
                self.message.description = Some(replace_newline(s.as_str(), " "));
            },
            (MavXmlElement::Field, MavXmlElement::Message) => {
                self.field.description = Some(replace_newline(s.as_str(), " "));
            },
            (MavXmlElement::Description, MavXmlElement::Enum) => {
                self.mavenum.description = Some(replace_newline(s.as_str(), " "));
            },
            (MavXmlElement::Description, MavXmlElement::Entry) => {
                self.entry.description = Some(replace_newline(s.as_str(), " "));
            },
            (MavXmlElement::Param, MavXmlElement::Entry) => {
                return self.param_text(s);
            },
            (MavXmlElement::Include, MavXmlElement::Mavlink) => {
                self.include_path = replace_newline(s.as_str(), "");
            },
            (MavXmlElement::Version, MavXmlElement::Mavlink) => {},
            (MavXmlElement::Dialect, MavXmlElement::Mavlink) => {},
            (MavXmlElement::Deprecated, _) => {},
            _ => {
                return Err(BindGenError::UnexpectedText(s.clone()));
            },
        }
        Ok(())
    }

    fn close_element(&mut self) -> (r: Result<ParseAction, BindGenError>)
        requires
            old(self).well_formed(),
        ensures
            final(self).well_formed(),
            r is Ok ==> final(self).stack@ == (if old(self).stack@.len() == 0 { old(self).stack@ } else { old(self).stack@.drop_last() }),
            r matches Ok(ParseAction::Include(p)) ==> (top(old(self).stack@) == Some(MavXmlElement::Include)
                && p@ == old(self).include_path@),
            r is Ok && top(old(self).stack@) == Some(MavXmlElement::Include) ==> r matches Ok(ParseAction::Include(_)),
            top(old(self).stack@) != Some(MavXmlElement::Message) && top(old(self).stack@) != Some(MavXmlElement::Enum) ==> r is Ok,
            top(old(self).stack@) == Some(MavXmlElement::Message) ==> {
                &&& final(self).profile.enums == old(self).profile.enums
                &&& (forall|i: int| 0 <= i < old(self).profile.messages@.len()
                    ==> #[trigger] old(self).profile.messages@[i].name@ != old(self).message.name@)
                    ==> r is Ok && final(self).profile.messages@.len() == old(self).profile.messages@.len() + 1
                        && final(self).profile.messages@.drop_last() == old(self).profile.messages@
                        && closed_message(final(self).profile.messages@.last(), old(self).message)
                &&& forall|i: int| 0 <= i < old(self).profile.messages@.len()
                    && #[trigger] old(self).profile.messages@[i].name@ == old(self).message.name@
                    ==> (r is Ok <==> same_as_closed(old(self).profile.messages@[i], old(self).message))
                        && (r is Ok ==> final(self).profile.messages@ == old(self).profile.messages@)
            },
            top(old(self).stack@) != Some(MavXmlElement::Message) && top(old(self).stack@) != Some(MavXmlElement::Enum)
                ==> final(self).profile == old(self).profile,
            top(old(self).stack@) == Some(MavXmlElement::Field)
                ==> final(self).message.fields@ == old(self).message.fields@.push(old(self).field),
            top(old(self).stack@) == Some(MavXmlElement::Entry)
                ==> final(self).mavenum.entries@ == old(self).mavenum.entries@.push(old(self).entry),
            top(old(self).stack@) == Some(MavXmlElement::Enum) ==> {
                &&& final(self).profile.messages == old(self).profile.messages
                &&& match add_one_enum(enum_views(old(self).profile.enums@), enum_view(old(self).mavenum)) {
                    None => r is Err,
                    Some(v) => r is Ok && enum_views(final(self).profile.enums@) == v,
                }
            },
    {
        let n = self.stack.len();
        let mut action = ParseAction::Continue;
        if n > 0 {
            match self.stack[n - 1] {
                MavXmlElement::Field => {
                    let f = self.field.clone();
                    self.message.fields.push(f);
                    proof {
                        assert forall|i: int| 0 <= i < self.message.fields@.len()
                            implies valid_type(#[trigger] self.message.fields@[i].mavtype) by {
                            if i < old(self).message.fields@.len() {
                                assert(self.message.fields@[i] == old(self).message.fields@[i]);
                            }
                        }
                    }
                },
                MavXmlElement::Entry => {
                    let mut e = empty_entry();
                    std::mem::swap(&mut self.entry, &mut e);
                    self.mavenum.entries.push(e);
                },
                MavXmlElement::Message => {
                    self.is_in_extension = false;
                    let mut msg = empty_message();
                    std::mem::swap(&mut self.message, &mut msg);
                    let ghost old_fields = msg.fields@;
                    let mut fields: Vec<MavField> = Vec::new();
                    std::mem::swap(&mut msg.fields, &mut fields);
                    // core fields by descending weight, then the extension fields
                    msg.fields = resolve_field_order(fields);
                    proof {
                        assert(msg.fields@ == resolved_order(old_fields));
                        crate::layout::lemma_resolved_order_sorted(old_fields);
                        crate::layout::lemma_resolved_order_valid(old_fields);
                    }
                    let ghost added = msg;
                    let ghost before = self.profile.messages@;
                    proof {
                        assert(closed_message(added, old(self).message));
                    }
                    let res = self.profile.add_message(msg);
                    proof {
                        assert forall|i: int| 0 <= i < before.len() && #[trigger] before[i].name@ == old(self).message.name@
                            implies (same_message(before[i], added) == same_as_closed(before[i], old(self).message)) by {
                        }
                        if forall|i: int| 0 <= i < before.len() ==> #[trigger] before[i].name@ != added.name@ {
                            assert(self.profile.messages@.drop_last() =~= before);
                        }
                    }
                    match res {
                        Ok(()) => {},
                        Err(e) => {
                            return Err(e);
                        },
                    }
                    proof {
                        crate::layout::lemma_resolved_order_layout_sorted(old_fields);
                        assert forall|i: int| 0 <= i < self.profile.messages@.len()
                            implies fields_valid(#[trigger] self.profile.messages@[i].fields@)
                                && layout_sorted(self.profile.messages@[i].fields@) by {
                            if i < before.len() {
                                assert(self.profile.messages@[i] == before[i]);
                            }
                        }
                    }
                },
                MavXmlElement::Enum => {
                    let mut e = empty_enum();
                    std::mem::swap(&mut self.mavenum, &mut e);
                    let ghost prev = self.profile.enums@;
                    let ghost ee = e;
                    let res = self.profile.add_enum(e);
                    proof {
                        let pv = enum_views(prev);
                        if exists|i: int| 0 <= i < pv.len() && pv[i].0 == ee.name@ {
                            let i = choose|i: int| 0 <= i < pv.len() && pv[i].0 == ee.name@;
                            assert(prev[i].name@ == ee.name@);
                            lemma_unique_enum_index(prev, ee.name@, i);
                            if res is Ok {
                                assert(enum_views(self.profile.enums@) =~= pv.update(i,
                                    (pv[i].0, pv[i].1, pv[i].2 + ee.entries@, pv[i].3, pv[i].4)));
                            }
                        } else {
                            assert forall|i: int| 0 <= i < prev.len() implies #[trigger] prev[i].name@ != ee.name@ by {
                                assert(pv[i].0 == prev[i].name@);
                            }
                            assert(enum_views(self.profile.enums@) =~= pv.push(enum_view(ee)));
                        }
                    }
                    match res {
                        Ok(()) => {},
                        Err(err) => {
                            return Err(err);
                        },
                    }
                },
                MavXmlElement::Include => {
                    action = ParseAction::Include(self.include_path.clone());
                },
                _ => {},
            }
            let ghost mid = self.profile;
            self.stack.pop();
            assert(self.profile == mid);
        }
        Ok(action)
    }

    /// Takes one event of the filtered stream. Fails on a tag the format
    /// does not have, on an element opened where the nesting table does not
    /// allow it, on text where none may stand, on an unreadable type or
    /// number, and where a closed message or enum cannot join the profile.
    pub fn step(&mut self, event: &XmlEvent) -> (r: Result<ParseAction, BindGenError>)
        requires
            old(self).well_formed(),
        ensures
            final(self).well_formed(),
            match *event {
                XmlEvent::Start { name, attributes } => {
                    &&& element_of_tag(name@) is None ==> (r is Err && r->Err_0 is UnexpectedElement)
                    &&& (element_of_tag(name@) is Some && !parent_allowed(top(old(self).stack@), element_of_tag(name@).unwrap()))
                        ==> (r is Err && r->Err_0 is InvalidParent)
                    &&& (element_of_tag(name@) is Some && parent_allowed(top(old(self).stack@), element_of_tag(name@).unwrap()))
                        ==> (r is Ok <==> forall|i: int| 0 <= i < attributes@.len()
                            ==> attribute_readable(element_of_tag(name@).unwrap(), #[trigger] attributes@[i]))
                    &&& r is Ok ==> r == Ok::<ParseAction, BindGenError>(ParseAction::Continue)
                        && element_of_tag(name@) is Some
                        && final(self).stack@ == old(self).stack@.push(element_of_tag(name@).unwrap())
                    &&& r is Ok ==> start_effect(*old(self), *final(self), element_of_tag(name@).unwrap(), attributes@)
                },
                XmlEvent::Text(s) => {
                    &&& !text_allowed(old(self).stack@) ==> (r is Err && r->Err_0 is UnexpectedText)
                    &&& text_allowed(old(self).stack@) && !text_goes_to(old(self).stack@, MavXmlElement::Param, MavXmlElement::Entry)
                        ==> r is Ok
                    &&& text_goes_to(old(self).stack@, MavXmlElement::Description, MavXmlElement::Message)
                        ==> opt_view(final(self).message.description) == Some(replace_newlines(s@, " "@))
                    &&& text_goes_to(old(self).stack@, MavXmlElement::Include, MavXmlElement::Mavlink)
                        ==> final(self).include_path@ == replace_newlines(s@, ""@)
                    &&& text_goes_to(old(self).stack@, MavXmlElement::Field, MavXmlElement::Message)
                        ==> opt_view(final(self).field.description) == Some(replace_newlines(s@, " "@))
                    &&& text_goes_to(old(self).stack@, MavXmlElement::Description, MavXmlElement::Enum)
                        ==> opt_view(final(self).mavenum.description) == Some(replace_newlines(s@, " "@))
                    &&& text_goes_to(old(self).stack@, MavXmlElement::Description, MavXmlElement::Entry)
                        ==> opt_view(final(self).entry.description) == Some(replace_newlines(s@, " "@))
                    &&& text_goes_to(old(self).stack@, MavXmlElement::Param, MavXmlElement::Entry) ==> {
                &&& old(self).entry.params is None ==> r is Ok && final(self).entry == old(self).entry
                &&& old(self).entry.params is Some && (old(self).paramid is None || old(self).paramid == Some(0usize))
                    ==> r is Err && r->Err_0 is UnexpectedText
                &&& old(self).entry.params is Some && old(self).paramid is Some && old(self).paramid.unwrap() > 0 ==> r is Ok
                    && params_view(final(self).entry.params)
                        == Some(set_param(params_view(old(self).entry.params).unwrap(), old(self).paramid.unwrap() as nat, s@))
            }
                    &&& r is Ok ==> r == Ok::<ParseAction, BindGenError>(ParseAction::Continue)
                        && final(self).stack == old(self).stack && final(self).profile == old(self).profile
                },
                XmlEvent::End(_) => {
                    &&& r is Ok ==> final(self).stack@ == (if old(self).stack@.len() == 0 { old(self).stack@ } else { old(self).stack@.drop_last() })
                    &&& top(old(self).stack@) == Some(MavXmlElement::Include) && r is Ok
                        ==> r is Ok && r->Ok_0 is Include && r->Ok_0->Include_0@ == old(self).include_path@
                    &&& top(old(self).stack@) != Some(MavXmlElement::Include) && r is Ok
                        ==> r == Ok::<ParseAction, BindGenError>(ParseAction::Continue)
                    &&& top(old(self).stack@) != Some(MavXmlElement::Message) && top(old(self).stack@) != Some(MavXmlElement::Enum) ==> r is Ok
                    &&& top(old(self).stack@) == Some(MavXmlElement::Message) ==> {
                &&& final(self).profile.enums == old(self).profile.enums
                &&& (forall|i: int| 0 <= i < old(self).profile.messages@.len()
                    ==> #[trigger] old(self).profile.messages@[i].name@ != old(self).message.name@)
                    ==> r is Ok && final(self).profile.messages@.len() == old(self).profile.messages@.len() + 1
                        && final(self).profile.messages@.drop_last() == old(self).profile.messages@
                        && closed_message(final(self).profile.messages@.last(), old(self).message)
                &&& forall|i: int| 0 <= i < old(self).profile.messages@.len()
                    && #[trigger] old(self).profile.messages@[i].name@ == old(self).message.name@
                    ==> (r is Ok <==> same_as_closed(old(self).profile.messages@[i], old(self).message))
                        && (r is Ok ==> final(self).profile.messages@ == old(self).profile.messages@)
            }
                    &&& top(old(self).stack@) == Some(MavXmlElement::Field)
                        ==> final(self).message.fields@ == old(self).message.fields@.push(old(self).field)
                    &&& top(old(self).stack@) == Some(MavXmlElement::Entry)
                        ==> final(self).mavenum.entries@ == old(self).mavenum.entries@.push(old(self).entry)
                    &&& top(old(self).stack@) == Some(MavXmlElement::Enum) ==> {
                &&& final(self).profile.messages == old(self).profile.messages
                &&& match add_one_enum(enum_views(old(self).profile.enums@), enum_view(old(self).mavenum)) {
                    None => r is Err,
                    Some(v) => r is Ok && enum_views(final(self).profile.enums@) == v,
                }
            }
                },
                XmlEvent::Empty { name, attributes } => {
                    &&& r is Ok ==> r == Ok::<ParseAction, BindGenError>(ParseAction::Continue)
                        && final(self).stack == old(self).stack && final(self).profile == old(self).profile
                    &&& empty_effect(*old(self), *final(self), name@, attributes@, r is Ok)
                    &&& r is Err ==> r->Err_0 is InvalidNumber
                },
                XmlEvent::Invalid(_) => r is Err,
                _ => r == Ok::<ParseAction, BindGenError>(ParseAction::Continue) && final(self).stack == old(self).stack
                    && final(self).profile == old(self).profile,
            },
    {
        match event {
            XmlEvent::Start { name, attributes } => {
                self.open_element(name, attributes)?;
                Ok(ParseAction::Continue)
            },
            XmlEvent::Empty { name, attributes } => {
                self.empty_element(name, attributes)?;
                Ok(ParseAction::Continue)
            },
            XmlEvent::Text(s) => {
                self.text(s)?;
                Ok(ParseAction::Continue)
            },
            XmlEvent::End(_) => self.close_element(),
            XmlEvent::Invalid(why) => Err(BindGenError::UnexpectedText(why.clone())),
            XmlEvent::Eof | XmlEvent::Other => Ok(ParseAction::Continue),
        }
    }

    /// Folds the profile of an included document into this one: its
    /// messages, then its enums, each by the profile's add rules
    /// (`add_messages`, `add_enums`). Fails exactly where one of them does.
    pub fn merge_included(&mut self, included: MavProfile) -> (r: Result<(), BindGenError>)
        requires
            old(self).well_formed(),
            messages_valid(included.messages@),
            messages_sorted(included.messages@),
        ensures
            final(self).well_formed(),
            final(self).stack == old(self).stack,
            match add_messages(old(self).profile.messages@, included.messages@) {
                None => r is Err,
                Some(ms) => match add_enums(enum_views(old(self).profile.enums@), enum_views(included.enums@)) {
                    None => r is Err,
                    Some(es) => r is Ok && final(self).profile.messages@ == ms
                        && enum_views(final(self).profile.enums@) == es,
                },
            },
    {
        let ghost all_msgs = included.messages@;
        let ghost all_enums = enum_views(included.enums@);
        let ghost start_msgs = self.profile.messages@;
        let ghost start_enums = enum_views(self.profile.enums@);
        let MavProfile { messages, enums } = included;
        let mut messages = messages;
        let mut enums = enums;
        while messages.len() > 0
            invariant
                self.well_formed(),
                self.stack == old(self).stack,
                start_msgs == old(self).profile.messages@,
                start_enums == enum_views(old(self).profile.enums@),
                all_msgs == included.messages@,
                all_enums == enum_views(included.enums@),
                messages_valid(messages@),
                messages_sorted(messages@),
                self.profile.enums == old(self).profile.enums,
                add_messages(start_msgs, all_msgs) == add_messages(self.profile.messages@, messages@),
            decreases messages@.len(),
        {
            let ghost before = messages@;
            let m = messages.remove(0);
            proof {
                assert(before[0] == m);
                assert(before.drop_first() =~= messages@);
                assert forall|i: int| 0 <= i < messages@.len()
                    implies fields_valid(#[trigger] messages@[i].fields@) && layout_sorted(messages@[i].fields@) by {
                    assert(messages@[i] == before[i + 1]);
                }
            }
            let ghost prev = self.profile.messages@;
            let ghost mm = m;
            let res = self.profile.add_message(m);
            proof {
                if exists|i: int| 0 <= i < prev.len() && prev[i].name@ == mm.name@ {
                    let i = choose|i: int| 0 <= i < prev.len() && prev[i].name@ == mm.name@;
                    lemma_unique_message_index(prev, mm.name@, i);
                    assert(self.profile.messages@ == prev);
                } else {
                    assert forall|i: int| 0 <= i < prev.len() implies #[trigger] prev[i].name@ != mm.name@ by {}
                }
            }
            match res {
                Ok(()) => {},
                Err(e) => {
                    assert(add_one_message(prev, mm) is None);
                    assert(add_messages(prev, before) is None);
                    return Err(e);
                },
            }
            proof {
                assert forall|i: int| 0 <= i < self.profile.messages@.len()
                    implies fields_valid(#[trigger] self.profile.messages@[i].fields@)
                        && layout_sorted(self.profile.messages@[i].fields@) by {
                    if i < prev.len() {
                        assert(self.profile.messages@[i] == prev[i]);
                    } else {
                        assert(self.profile.messages@[i] == mm);
                    }
                }
            }
        }
        let ghost ms = self.profile.messages@;
        while enums.len() > 0
            invariant
                self.well_formed(),
                self.stack == old(self).stack,
                start_msgs == old(self).profile.messages@,
                start_enums == enum_views(old(self).profile.enums@),
                all_msgs == included.messages@,
                all_enums == enum_views(included.enums@),
                add_messages(start_msgs, all_msgs) == Some(ms),
                self.profile.messages@ == ms,
                add_enums(start_enums, all_enums) == add_enums(enum_views(self.profile.enums@), enum_views(enums@)),
            decreases enums@.len(),
        {
            let ghost before = enums@;
            let e = enums.remove(0);
            proof {
                assert(before[0] == e);
                assert(enum_views(before)[0] == enum_view(e));
                assert(enum_views(before).drop_first() =~= enum_views(enums@));
            }
            let ghost prev = self.profile.enums@;
            let ghost ee = e;
            let res = self.profile.add_enum(e);
            proof {
                let pv = enum_views(prev);
                if exists|i: int| 0 <= i < pv.len() && pv[i].0 == ee.name@ {
                    let i = choose|i: int| 0 <= i < pv.len() && pv[i].0 == ee.name@;
                    assert(prev[i].name@ == ee.name@);
                    lemma_unique_enum_index(prev, ee.name@, i);
                    if res is Ok {
                        assert(enum_views(self.profile.enums@) =~= pv.update(i,
                            (pv[i].0, pv[i].1, pv[i].2 + ee.entries@, pv[i].3, pv[i].4)));
                    }
                } else {
                    assert forall|i: int| 0 <= i < prev.len() implies #[trigger] prev[i].name@ != ee.name@ by {
                        assert(pv[i].0 == prev[i].name@);
                    }
                    assert(enum_views(self.profile.enums@) =~= pv.push(enum_view(ee)));
                }
            }
            match res {
                Ok(()) => {},
                Err(err) => {
                    assert(add_one_enum(enum_views(prev), enum_view(ee)) is None);
                    assert(add_enums(enum_views(prev), enum_views(before)) is None);
                    return Err(err);
                },
            }
        }
        Ok(())
    }

    /// The profile read from the document, with enum bitmask widths
    /// resolved (see `MavProfile::update_enums`).
    pub fn finish(self) -> (r: MavProfile)
        requires
            self.well_formed(),
        ensures
            r.well_formed(),
            messages_valid(r.messages@),
            messages_sorted(r.messages@),
            r.messages@.len() == self.profile.messages@.len(),
            r.enums@.len() == self.profile.enums@.len(),
            enum_marks(r.enums@) == resolve_messages(enum_marks(self.profile.enums@), enum_names(self.profile.enums@), self.profile.messages@).0,
            forall|i: int| 0 <= i < r.messages@.len() ==> (#[trigger] r.messages@[i]).name == self.profile.messages@[i].name
                && r.messages@[i].id == self.profile.messages@[i].id
                && r.messages@[i].description == self.profile.messages@[i].description
                && r.messages@[i].fields@.len() == self.profile.messages@[i].fields@.len()
                && forall|j: int| 0 <= j < r.messages@[i].fields@.len() ==> {
                    let f = #[trigger] r.messages@[i].fields@[j];
                    let g = self.profile.messages@[i].fields@[j];
                    &&& f.mavtype == g.mavtype && f.name == g.name && f.description == g.description
                    &&& f.enumtype == g.enumtype && f.is_extension == g.is_extension
                    &&& opt_view(f.display) == resolve_messages(enum_marks(self.profile.enums@),
                        enum_names(self.profile.enums@), self.profile.messages@).1[i][j]
                },
            forall|i: int| 0 <= i < r.enums@.len() ==> (#[trigger] r.enums@[i]).name == self.profile.enums@[i].name
                && r.enums@[i].entries == self.profile.enums@[i].entries
                && r.enums@[i].description == self.profile.enums@[i].description,
    {
        let r = self.profile.update_enums();
        proof {
            assert forall|i: int| 0 <= i < r.messages@.len()
                implies fields_valid(#[trigger] r.messages@[i].fields@) && layout_sorted(r.messages@[i].fields@) by {
                let a = self.profile.messages@[i].fields@;
                let b = r.messages@[i].fields@;
                assert(fields_valid(a) && layout_sorted(a));
                assert forall|j: int| 0 <= j < a.len() implies (#[trigger] a[j]).mavtype == b[j].mavtype
                    && a[j].is_extension == b[j].is_extension by {
                    assert(b[j].mavtype == a[j].mavtype);
                }
                crate::layout::lemma_layout_sorted_same_shape(a, b);
                assert forall|j: int| 0 <= j < b.len() implies valid_type(#[trigger] b[j].mavtype) by {
                    assert(b[j].mavtype == a[j].mavtype);
                }
            }
        }
        r
    }
}

} // verus!

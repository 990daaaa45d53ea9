//! The semantic model of a dialect: enums and their entries, messages and
//! their fields, and the profile that gathers them.
use vstd::prelude::*;
use vstd::string::*;

use crate::error::BindGenError;
use crate::text::str_eq;
use crate::types::MavType;

verus! {

#[derive(Debug, PartialEq, Eq, Clone, Default)]
pub struct MavEnumEntry {
    pub value: Option<u32>,
    pub name: String,
    pub description: Option<String>,
    pub params: Option<Vec<String>>,
}

#[derive(Debug, PartialEq, Eq, Clone, Default)]
pub struct MavEnum {
    pub name: String,
    pub description: Option<String>,
    pub entries: Vec<MavEnumEntry>,
    /// The Rust primitive that backs a bitmask enum, once a field that uses
    /// the enum has fixed it; `None` while no field has.
    pub primitive: Option<String>,
    pub bitmask: bool,
}

#[derive(Debug, PartialEq, Default)]
pub struct MavField {
    pub mavtype: MavType,
    pub name: String,
    pub description: Option<String>,
    pub enumtype: Option<String>,
    pub display: Option<String>,
    pub is_extension: bool,
}

#[derive(Debug, PartialEq, Clone, Default)]
pub struct MavMessage {
    pub id: u32,
    pub name: String,
    pub description: Option<String>,
    pub fields: Vec<MavField>,
}

/// The assembled dialect: messages and enums, each list keyed by name.
#[derive(Debug, PartialEq, Clone, Default)]
pub struct MavProfile {
    pub messages: Vec<MavMessage>,
    pub enums: Vec<MavEnum>,
}

/// The characters of an optional string.
pub open spec fn opt_view(o: Option<String>) -> Option<Seq<char>> {
    match o {
        Some(s) => Some(s@),
        None => None,
    }
}

/// Two fields with the same definition.
pub open spec fn same_field(a: MavField, b: MavField) -> bool {
    &&& a.mavtype == b.mavtype
    &&& a.name@ == b.name@
    &&& opt_view(a.description) == opt_view(b.description)
    &&& opt_view(a.enumtype) == opt_view(b.enumtype)
    &&& opt_view(a.display) == opt_view(b.display)
    &&& a.is_extension == b.is_extension
}

/// Two messages with the same definition.
pub open spec fn same_message(a: MavMessage, b: MavMessage) -> bool {
    &&& a.id == b.id
    &&& a.name@ == b.name@
    &&& opt_view(a.description) == opt_view(b.description)
    &&& a.fields@.len() == b.fields@.len()
    &&& forall|i: int| 0 <= i < a.fields@.len() ==> same_field(#[trigger] a.fields@[i], b.fields@[i])
}

/// Whether `e` repeats both the name and the value of an entry of `entries`.
pub open spec fn collides(entries: Seq<MavEnumEntry>, e: MavEnumEntry) -> bool {
    exists|i: int| 0 <= i < entries.len() && #[trigger] entries[i].name@ == e.name@ && entries[i].value == e.value
}

/// Whether appending `incoming`, one entry after another, to `entries`
/// meets no entry that repeats an earlier one.
pub open spec fn merge_is_clean(entries: Seq<MavEnumEntry>, incoming: Seq<MavEnumEntry>) -> bool {
    forall|j: int| 0 <= j < incoming.len() ==> !collides(entries + incoming.take(j), #[trigger] incoming[j])
}

/// Merging entries that share no (name, value) pair with the existing
/// ones, and repeat none among themselves, succeeds.
pub proof fn lemma_disjoint_merge_is_clean(entries: Seq<MavEnumEntry>, incoming: Seq<MavEnumEntry>)
    requires
        forall|j: int| 0 <= j < incoming.len() ==> !collides(entries, #[trigger] incoming[j]),
        forall|j: int, k: int| 0 <= j < k < incoming.len()
            ==> !(#[trigger] incoming[j].name@ == #[trigger] incoming[k].name@ && incoming[j].value == incoming[k].value),
    ensures
        merge_is_clean(entries, incoming),
{
    assert forall|j: int| 0 <= j < incoming.len() implies !collides(entries + incoming.take(j), #[trigger] incoming[j]) by {
        let all = entries + incoming.take(j);
        if collides(all, incoming[j]) {
            let i = choose|i: int| 0 <= i < all.len() && #[trigger] all[i].name@ == incoming[j].name@ && all[i].value == incoming[j].value;
            if i < entries.len() {
                assert(all[i] == entries[i]);
            } else {
                assert(all[i] == incoming[i - entries.len()]);
            }
        }
    }
}

/// Merging entries one of which repeats the name and value of an
/// existing entry fails.
pub proof fn lemma_collision_refused(entries: Seq<MavEnumEntry>, incoming: Seq<MavEnumEntry>, j: int)
    requires
        0 <= j < incoming.len(),
        collides(entries, incoming[j]),
    ensures
        !merge_is_clean(entries, incoming),
{
    let i = choose|i: int| 0 <= i < entries.len() && #[trigger] entries[i].name@ == incoming[j].name@ && entries[i].value == incoming[j].value;
    assert((entries + incoming.take(j))[i] == entries[i]);
}

/// Whether the messages carry pairwise distinct names.
pub open spec fn message_names_unique(ms: Seq<MavMessage>) -> bool {
    forall|i: int, j: int| 0 <= i < ms.len() && 0 <= j < ms.len() && i != j ==> ms[i].name@ != ms[j].name@
}

/// Whether the enums carry pairwise distinct names.
pub open spec fn enum_names_unique(es: Seq<MavEnum>) -> bool {
    forall|i: int, j: int| 0 <= i < es.len() && 0 <= j < es.len() && i != j ==> es[i].name@ != es[j].name@
}

fn copy_opt_str(o: &Option<String>) -> (r: Option<String>)
    ensures
        r == *o,
{
    match o {
        Some(s) => Some(s.clone()),
        None => None,
    }
}

impl Clone for MavField {
    fn clone(&self) -> (r: Self)
        ensures
            r == *self,
    {
        MavField {
            mavtype: self.mavtype.clone(),
            name: self.name.clone(),
            description: copy_opt_str(&self.description),
            enumtype: copy_opt_str(&self.enumtype),
            display: copy_opt_str(&self.display),
            is_extension: self.is_extension,
        }
    }
}

fn opt_str_eq(a: &Option<String>, b: &Option<String>) -> (r: bool)
    ensures
        r == (opt_view(*a) == opt_view(*b)),
{
    match (a, b) {
        (Some(x), Some(y)) => str_eq(x.as_str(), y.as_str()),
        (None, None) => true,
        _ => false,
    }
}

fn field_eq(a: &MavField, b: &MavField) -> (r: bool)
    ensures
        r == same_field(*a, *b),
{
    a.mavtype == b.mavtype && str_eq(a.name.as_str(), b.name.as_str())
        && opt_str_eq(&a.description, &b.description) && opt_str_eq(&a.enumtype, &b.enumtype)
        && opt_str_eq(&a.display, &b.display) && a.is_extension == b.is_extension
}

fn message_eq(a: &MavMessage, b: &MavMessage) -> (r: bool)
    ensures
        r == same_message(*a, *b),
{
    if a.id != b.id || !str_eq(a.name.as_str(), b.name.as_str())
        || !opt_str_eq(&a.description, &b.description) || a.fields.len() != b.fields.len() {
        return false;
    }
    let mut i: usize = 0;
    while i < a.fields.len()
        invariant
            a.fields@.len() == b.fields@.len(),
            0 <= i <= a.fields@.len(),
            forall|k: int| 0 <= k < i ==> same_field(#[trigger] a.fields@[k], b.fields@[k]),
        decreases a.fields@.len() - i,
    {
        if !field_eq(&a.fields[i], &b.fields[i]) {
            return false;
        }
        i = i + 1;
    }
    true
}

/// Index of the entry of `entries` with the name and value of `e`.
fn find_colliding(entries: &Vec<MavEnumEntry>, e: &MavEnumEntry) -> (r: Option<usize>)
    ensures
        r is None <==> !collides(entries@, *e),
        r matches Some(i) ==> i < entries@.len(),
{
    let mut i: usize = 0;
    while i < entries.len()
        invariant
            0 <= i <= entries@.len(),
            forall|k: int| 0 <= k < i ==> !(#[trigger] entries@[k].name@ == e.name@ && entries@[k].value == e.value),
        decreases entries@.len() - i,
    {
        if str_eq(entries[i].name.as_str(), e.name.as_str()) && entries[i].value == e.value {
            return Some(i);
        }
        i = i + 1;
    }
    None
}

/// The largest number of `s`, 0 for none.
pub open spec fn max_of(s: Seq<nat>) -> nat
    decreases s.len(),
{
    if s.len() == 0 {
        0
    } else {
        let m = max_of(s.drop_last());
        if s.last() > m { s.last() } else { m }
    }
}

/// The values of enum entries in declaration order: an explicit value is
/// used as given; an entry without one takes one more than the largest
/// value, explicit or implied, before it.
pub open spec fn implied_values(es: Seq<MavEnumEntry>) -> Seq<nat>
    decreases es.len(),
{
    if es.len() == 0 {
        Seq::empty()
    } else {
        let p = implied_values(es.drop_last());
        p.push(match es.last().value {
            Some(v) => v as nat,
            None => max_of(p) + 1,
        })
    }
}

proof fn lemma_implied_prefix(es: Seq<MavEnumEntry>, i: int)
    requires
        0 <= i <= es.len(),
    ensures
        implied_values(es).len() == es.len(),
        implied_values(es.take(i)) == implied_values(es).take(i),
    decreases es.len(),
{
    if es.len() > 0 {
        if i == es.len() {
            assert(es.take(i) =~= es);
            lemma_implied_prefix(es.drop_last(), 0);
            assert(implied_values(es).take(i) =~= implied_values(es));
        } else {
            lemma_implied_prefix(es.drop_last(), i);
            assert(es.drop_last().take(i) =~= es.take(i));
            assert(implied_values(es).take(i) =~= implied_values(es.drop_last()).take(i));
        }
    } else {
        assert(implied_values(es.take(i)) =~= implied_values(es).take(i));
    }
}

/// There is one implied value per entry.
pub proof fn lemma_implied_len(es: Seq<MavEnumEntry>)
    ensures
        implied_values(es).len() == es.len(),
{
    lemma_implied_prefix(es, 0);
}

/// Each entry without an explicit value is numbered one more than the
/// largest value, explicit or implied, of the entries before it; an entry
/// with an explicit value keeps it.
pub proof fn lemma_entry_value_rule(es: Seq<MavEnumEntry>, i: int)
    requires
        0 <= i < es.len(),
    ensures
        implied_values(es)[i] == match es[i].value {
            Some(v) => v as nat,
            None => max_of(implied_values(es).take(i)) + 1,
        },
{
    lemma_implied_prefix(es, i + 1);
    lemma_implied_prefix(es, i);
    let t = es.take(i + 1);
    assert(t.drop_last() =~= es.take(i));
    assert(t.last() == es[i]);
    assert(implied_values(t)[i] == implied_values(es).take(i + 1)[i]);
}

impl MavEnum {
    /// The value of each entry, in order: an explicit value as given, else
    /// one more than the largest value before it; `None` where an implied
    /// value would not fit in a `u32`.
    pub fn entry_values(&self) -> (r: Option<Vec<u32>>)
        ensures
            r is None <==> exists|i: int| 0 <= i < self.entries@.len() && #[trigger] implied_values(self.entries@)[i] > u32::MAX,
            r matches Some(v) ==> v@.len() == self.entries@.len()
                && forall|i: int| 0 <= i < v@.len() ==> #[trigger] v@[i] as nat == implied_values(self.entries@)[i],
    {
        let ghost es = self.entries@;
        proof {
            lemma_implied_prefix(es, es.len() as int);
        }
        let mut r: Vec<u32> = Vec::new();
        let mut cnt: u32 = 0;
        let mut i: usize = 0;
        while i < self.entries.len()
            invariant
                es == self.entries@,
                0 <= i <= es.len(),
                implied_values(es).len() == es.len(),
                forall|k: int| 0 <= k < i ==> #[trigger] implied_values(es)[k] <= u32::MAX,
                r@.len() == i,
                forall|k: int| 0 <= k < i ==> #[trigger] r@[k] as nat == implied_values(es)[k],
                cnt as nat == max_of(implied_values(es.take(i as int))),
            decreases es.len() - i,
        {
            proof {
                lemma_implied_prefix(es, i as int);
                lemma_implied_prefix(es, i + 1);
                let t = es.take(i + 1);
                assert(t.drop_last() =~= es.take(i as int));
                assert(t.last() == es[i as int]);
                assert(implied_values(t)[i as int] == implied_values(es)[i as int]);
                assert(implied_values(t).drop_last() =~= implied_values(es.take(i as int)));
            }
            let v = match self.entries[i].value {
                None => {
                    if cnt == u32::MAX {
                        assert(implied_values(es)[i as int] > u32::MAX);
                        return None;
                    }
                    cnt = cnt + 1;
                    cnt
                },
                Some(x) => {
                    if x > cnt {
                        cnt = x;
                    }
                    x
                },
            };
            r.push(v);
            i = i + 1;
        }
        Some(r)
    }

    /// Merges another definition of the same enum into this one: its entries
    /// are appended in order. Fails, leaving `self` as it was, where an entry
    /// repeats both the name and the value of an entry before it. A definition
    /// of another enum leaves `self` as it is.
    pub fn try_combine(&mut self, enm: MavEnum) -> (r: Result<(), BindGenError>)
        ensures
            old(self).name@ != enm.name@ ==> r is Ok && *final(self) == *old(self),
            old(self).name@ == enm.name@ ==> (r is Ok <==> merge_is_clean(old(self).entries@, enm.entries@)),
            r is Ok && old(self).name@ == enm.name@ ==> {
                &&& final(self).entries@ == old(self).entries@ + enm.entries@
                &&& final(self).name == old(self).name
                &&& final(self).description == old(self).description
                &&& final(self).primitive == old(self).primitive
                &&& final(self).bitmask == old(self).bitmask
            },
            r is Err ==> *final(self) == *old(self) && r->Err_0 is DuplicateEnumEntry,
    {
        if !str_eq(self.name.as_str(), enm.name.as_str()) {
            return Ok(());
        }
        let ghost start = self.entries@;
        let ghost name = enm.name@;
        let mut incoming = enm.entries;
        let ghost all_in = incoming@;
        // First check every incoming entry, then move them in.
        let mut pending: Vec<MavEnumEntry> = Vec::new();
        while incoming.len() > 0
            invariant
                start == self.entries@,
                *self == *old(self),
                name == old(self).name@,
                name == enm.name@,
                all_in == enm.entries@,
                all_in == pending@ + incoming@,
                forall|j: int| 0 <= j < pending@.len() ==> !collides(start + all_in.take(j), #[trigger] all_in[j]),
            decreases incoming@.len(),
        {
            let e = incoming.remove(0);
            let ghost j = pending@.len() as int;
            assert(all_in[j] == e);
            let mut found = find_colliding(&self.entries, &e).is_some();
            if !found {
                found = find_colliding(&pending, &e).is_some();
            }
            assert(start + all_in.take(j) =~= start + pending@);
            if found {
                proof {
                    assert(collides(start + pending@, e)) by {
                        if collides(start, e) {
                            let i = choose|i: int| 0 <= i < start.len() && #[trigger] start[i].name@ == e.name@ && start[i].value == e.value;
                            assert((start + pending@)[i] == start[i]);
                        } else {
                            let i = choose|i: int| 0 <= i < pending@.len() && #[trigger] pending@[i].name@ == e.name@ && pending@[i].value == e.value;
                            assert((start + pending@)[start.len() + i] == pending@[i]);
                        }
                    }
                    assert(!merge_is_clean(start, all_in));
                }
                return Err(BindGenError::DuplicateEnumEntry(e.name));
            }
            proof {
                assert(!collides(start + pending@, e)) by {
                    if collides(start + pending@, e) {
                        let i = choose|i: int| 0 <= i < (start + pending@).len() && #[trigger] (start + pending@)[i].name@ == e.name@ && (start + pending@)[i].value == e.value;
                        if i < start.len() {
                            assert(start[i] == (start + pending@)[i]);
                        } else {
                            assert(pending@[i - start.len()] == (start + pending@)[i]);
                        }
                    }
                }
            }
            pending.push(e);
            assert(all_in == pending@ + incoming@);
        }
        assert(pending@ =~= all_in);
        self.entries.append(&mut pending);
        Ok(())
    }
}

/// Index of the message named `name`.
fn find_message(ms: &Vec<MavMessage>, name: &String) -> (r: Option<usize>)
    ensures
        r is None <==> forall|i: int| 0 <= i < ms@.len() ==> #[trigger] ms@[i].name@ != name@,
        r matches Some(i) ==> i < ms@.len() && ms@[i as int].name@ == name@,
{
    let mut i: usize = 0;
    while i < ms.len()
        invariant
            0 <= i <= ms@.len(),
            forall|k: int| 0 <= k < i ==> #[trigger] ms@[k].name@ != name@,
        decreases ms@.len() - i,
    {
        if str_eq(ms[i].name.as_str(), name.as_str()) {
            return Some(i);
        }
        i = i + 1;
    }
    None
}

/// Index of the enum named `name`.
pub fn find_enum(es: &Vec<MavEnum>, name: &str) -> (r: Option<usize>)
    ensures
        r is None <==> forall|i: int| 0 <= i < es@.len() ==> #[trigger] es@[i].name@ != name@,
        r matches Some(i) ==> i < es@.len() && es@[i as int].name@ == name@,
{
    let mut i: usize = 0;
    while i < es.len()
        invariant
            0 <= i <= es@.len(),
            forall|k: int| 0 <= k < i ==> #[trigger] es@[k].name@ != name@,
        decreases es@.len() - i,
    {
        if str_eq(es[i].name.as_str(), name) {
            return Some(i);
        }
        i = i + 1;
    }
    None
}

/// The bitmask flag and backing primitive of each enum.
pub open spec fn enum_marks(es: Seq<MavEnum>) -> Seq<(bool, Option<Seq<char>>)> {
    es.map_values(|e: MavEnum| (e.bitmask, opt_view(e.primitive)))
}

/// The names of the enums.
pub open spec fn enum_names(es: Seq<MavEnum>) -> Seq<Seq<char>> {
    es.map_values(|e: MavEnum| e.name@)
}

/// One field's effect on the enum marks during bitmask resolution, and the
/// field's display hint afterwards. A `bitmask` hint marks the enum the
/// field refers to; a bitmask enum takes the field's primitive, and the
/// field without a hint gets `bitmask`.
pub open spec fn field_step(marks: Seq<(bool, Option<Seq<char>>)>, names: Seq<Seq<char>>, f: MavField)
    -> (Seq<(bool, Option<Seq<char>>)>, Option<Seq<char>>)
{
    match f.enumtype {
        None => (marks, opt_view(f.display)),
        Some(n) => if exists|i: int| 0 <= i < names.len() && names[i] == n@ {
            let i = choose|i: int| 0 <= i < names.len() && names[i] == n@;
            let bitmask = marks[i].0 || opt_view(f.display) == Some("bitmask"@);
            if bitmask {
                (marks.update(i, (true, Some(crate::types::rust_primitive_name(f.mavtype)))),
                    if f.display is None { Some("bitmask"@) } else { opt_view(f.display) })
            } else {
                (marks, opt_view(f.display))
            }
        } else {
            (marks, opt_view(f.display))
        },
    }
}

/// Bitmask resolution over fields in order: the final marks and each
/// field's display hint.
pub open spec fn resolve_fields(marks: Seq<(bool, Option<Seq<char>>)>, names: Seq<Seq<char>>, fs: Seq<MavField>)
    -> (Seq<(bool, Option<Seq<char>>)>, Seq<Option<Seq<char>>>)
    decreases fs.len(),
{
    if fs.len() == 0 {
        (marks, Seq::empty())
    } else {
        let prev = resolve_fields(marks, names, fs.drop_last());
        let step = field_step(prev.0, names, fs.last());
        (step.0, prev.1.push(step.1))
    }
}

/// Bitmask resolution over messages in order: the final marks and the
/// display hints of each message's fields.
pub open spec fn resolve_messages(marks: Seq<(bool, Option<Seq<char>>)>, names: Seq<Seq<char>>, ms: Seq<MavMessage>)
    -> (Seq<(bool, Option<Seq<char>>)>, Seq<Seq<Option<Seq<char>>>>)
    decreases ms.len(),
{
    if ms.len() == 0 {
        (marks, Seq::empty())
    } else {
        let prev = resolve_messages(marks, names, ms.drop_last());
        let step = resolve_fields(prev.0, names, ms.last().fields@);
        (step.0, prev.1.push(step.1))
    }
}

proof fn lemma_resolve_fields_len(marks: Seq<(bool, Option<Seq<char>>)>, names: Seq<Seq<char>>, fs: Seq<MavField>)
    ensures
        resolve_fields(marks, names, fs).1.len() == fs.len(),
    decreases fs.len(),
{
    if fs.len() > 0 {
        lemma_resolve_fields_len(marks, names, fs.drop_last());
    }
}

proof fn lemma_resolve_messages_len(marks: Seq<(bool, Option<Seq<char>>)>, names: Seq<Seq<char>>, ms: Seq<MavMessage>)
    ensures
        resolve_messages(marks, names, ms).1.len() == ms.len(),
    decreases ms.len(),
{
    if ms.len() > 0 {
        lemma_resolve_messages_len(marks, names, ms.drop_last());
    }
}

proof fn lemma_names_view(es: Seq<MavEnum>, old_es: Seq<MavEnum>)
    requires
        es.len() == old_es.len(),
        forall|i: int| 0 <= i < es.len() ==> (#[trigger] es[i]).name == old_es[i].name,
    ensures
        enum_names(es) == enum_names(old_es),
        enum_names_unique(old_es) ==> enum_names_unique(es),
{
    assert(enum_names(es) =~= enum_names(old_es));
    if enum_names_unique(old_es) {
        assert forall|a: int, b: int| 0 <= a < es.len() && 0 <= b < es.len() && a != b implies es[a].name@ != es[b].name@ by {
            assert(old_es[a].name@ != old_es[b].name@);
        }
    }
}

proof fn lemma_enum_index(names: Seq<Seq<char>>, n: Seq<char>, i: int)
    requires
        0 <= i < names.len(),
        names[i] == n,
        forall|a: int, b: int| 0 <= a < names.len() && 0 <= b < names.len() && a != b ==> names[a] != names[b],
    ensures
        (choose|k: int| 0 <= k < names.len() && names[k] == n) == i,
{
    let k = choose|k: int| 0 <= k < names.len() && names[k] == n;
    assert(0 <= k < names.len() && names[k] == n);
}

impl MavProfile {
    /// Whether message names and enum names are each unique.
    pub open spec fn well_formed(&self) -> bool {
        message_names_unique(self.messages@) && enum_names_unique(self.enums@)
    }

    /// An empty profile.
    pub fn new() -> (r: Self)
        ensures
            r.messages@.len() == 0,
            r.enums@.len() == 0,
            r.well_formed(),
    {
        MavProfile { messages: Vec::new(), enums: Vec::new() }
    }

    /// Marks enums used through a `bitmask` display hint as bitmasks, and
    /// gives every bitmask enum the primitive of the fields that use it (the
    /// last one read wins); a field of a bitmask enum without a display
    /// hint gets the `bitmask` hint. Messages and their fields are visited
    /// in order.
    pub fn update_enums(self) -> (r: Self)
        requires
            self.well_formed(),
        ensures
            r.well_formed(),
            r.messages@.len() == self.messages@.len(),
            r.enums@.len() == self.enums@.len(),
            ({
                let (marks, displays) = resolve_messages(enum_marks(self.enums@), enum_names(self.enums@), self.messages@);
                &&& enum_marks(r.enums@) == marks
                &&& forall|i: int| 0 <= i < r.messages@.len() ==> {
                    let a = #[trigger] r.messages@[i];
                    let b = self.messages@[i];
                    &&& a.id == b.id && a.name == b.name && a.description == b.description
                    &&& a.fields@.len() == b.fields@.len()
                    &&& forall|j: int| 0 <= j < a.fields@.len() ==> {
                        let f = #[trigger] a.fields@[j];
                        let g = b.fields@[j];
                        &&& f.mavtype == g.mavtype && f.name == g.name && f.description == g.description
                        &&& f.enumtype == g.enumtype && f.is_extension == g.is_extension
                        &&& opt_view(f.display) == displays[i][j]
                    }
                }
            }),
            forall|i: int| 0 <= i < r.enums@.len() ==> {
                let a = #[trigger] r.enums@[i];
                let b = self.enums@[i];
                a.name == b.name && a.description == b.description && a.entries == b.entries
            },
    {
        let MavProfile { messages, enums } = self;
        let ghost old_msgs = messages@;
        let ghost old_enums = enums@;
        let ghost names = enum_names(old_enums);
        let ghost init = enum_marks(old_enums);
        let mut enums = enums;
        let mut rest = messages;
        let mut out: Vec<MavMessage> = Vec::new();
        proof {
            assert(old_msgs.take(0) =~= Seq::<MavMessage>::empty());
        }
        while rest.len() > 0
            invariant
                rest@ == old_msgs.subrange(out@.len() as int, old_msgs.len() as int),
                out@.len() <= old_msgs.len(),
                enums@.len() == old_enums.len(),
                enum_names_unique(old_enums),
                names == enum_names(old_enums),
                forall|i: int| 0 <= i < enums@.len() ==> {
                    let a = #[trigger] enums@[i];
                    let b = old_enums[i];
                    a.name == b.name && a.description == b.description && a.entries == b.entries
                },
                enum_marks(enums@) == resolve_messages(init, names, old_msgs.take(out@.len() as int)).0,
                forall|i: int| 0 <= i < out@.len() ==> {
                    let a = #[trigger] out@[i];
                    let b = old_msgs[i];
                    &&& a.id == b.id && a.name == b.name && a.description == b.description
                    &&& a.fields@.len() == b.fields@.len()
                    &&& forall|j: int| 0 <= j < a.fields@.len() ==> {
                        let f = #[trigger] a.fields@[j];
                        let g = b.fields@[j];
                        &&& f.mavtype == g.mavtype && f.name == g.name && f.description == g.description
                        &&& f.enumtype == g.enumtype && f.is_extension == g.is_extension
                        &&& opt_view(f.display) == resolve_messages(init, names, old_msgs.take(out@.len() as int)).1[i][j]
                    }
                },
            decreases rest@.len(),
        {
            let ghost k = out@.len() as int;
            let mut msg = rest.remove(0);
            let ghost orig = msg;
            assert(orig == old_msgs[k]);
            let ghost start_marks = enum_marks(enums@);
            let mut fields: Vec<MavField> = Vec::new();
            std::mem::swap(&mut msg.fields, &mut fields);
            let mut done: Vec<MavField> = Vec::new();
            proof {
                assert(orig.fields@.take(0) =~= Seq::<MavField>::empty());
            }
            while fields.len() > 0
                invariant
                    fields@ == orig.fields@.subrange(done@.len() as int, orig.fields@.len() as int),
                    done@.len() <= orig.fields@.len(),
                    enums@.len() == old_enums.len(),
                    enum_names_unique(old_enums),
                    names == enum_names(old_enums),
                    forall|i: int| 0 <= i < enums@.len() ==> {
                        let a = #[trigger] enums@[i];
                        let b = old_enums[i];
                        a.name == b.name && a.description == b.description && a.entries == b.entries
                    },
                    enum_marks(enums@) == resolve_fields(start_marks, names, orig.fields@.take(done@.len() as int)).0,
                    forall|j: int| 0 <= j < done@.len() ==> {
                        let f = #[trigger] done@[j];
                        let g = orig.fields@[j];
                        &&& f.mavtype == g.mavtype && f.name == g.name && f.description == g.description
                        &&& f.enumtype == g.enumtype && f.is_extension == g.is_extension
                        &&& opt_view(f.display) == resolve_fields(start_marks, names, orig.fields@.take(done@.len() as int)).1[j]
                    },
                decreases fields@.len(),
            {
                let mut field = fields.remove(0);
                let ghost j = done@.len() as int;
                assert(field == orig.fields@[j]);
                let ghost marks0 = enum_marks(enums@);
                let found = match &field.enumtype {
                    Some(name) => find_enum(&enums, name.as_str()),
                    None => None,
                };
                proof {
                    lemma_names_view(enums@, old_enums);
                }
                match found {
                    Some(i) => {
                        let hinted = match &field.display {
                            Some(d) => str_eq(d.as_str(), "bitmask"),
                            None => false,
                        };
                        proof {
                            assert(names[i as int] == enums@[i as int].name@);
                            assert(names[i as int] == field.enumtype.unwrap()@);
                            lemma_enum_index(names, field.enumtype.unwrap()@, i as int);
                            assert(hinted == (opt_view(field.display) == Some("bitmask"@)));
                            assert(marks0[i as int].0 == enums@[i as int].bitmask);
                        }
                        if hinted {
                            enums[i].bitmask = true;
                        }
                        if enums[i].bitmask {
                            enums[i].primitive = Some(field.mavtype.rust_primitive_type());
                            if field.display.is_none() {
                                field.display = Some(String::from_str("bitmask"));
                            }
                        }
                        proof {
                            assert(enum_marks(enums@) =~= field_step(marks0, names, orig.fields@[j]).0);
                        }
                    },
                    None => {
                        proof {
                            if field.enumtype is Some {
                                assert forall|q: int| 0 <= q < names.len() implies names[q] != field.enumtype.unwrap()@ by {
                                    assert(enums@[q].name@ == names[q]);
                                }
                            }
                        }
                    },
                }
                proof {
                    let t = orig.fields@.take(j + 1);
                    assert(t.drop_last() =~= orig.fields@.take(j));
                    assert(t.last() == orig.fields@[j]);
                }
                done.push(field);
                proof {
                    let t = orig.fields@.take(j + 1);
                    let prev = resolve_fields(start_marks, names, orig.fields@.take(j));
                    lemma_resolve_fields_len(start_marks, names, orig.fields@.take(j));
                    assert(resolve_fields(start_marks, names, t).1 == prev.1.push(field_step(prev.0, names, orig.fields@[j]).1));
                    assert forall|q: int| 0 <= q < done@.len() implies
                        opt_view((#[trigger] done@[q]).display) == resolve_fields(start_marks, names, t).1[q] by {
                        if q < j {
                            assert(resolve_fields(start_marks, names, t).1[q] == prev.1[q]);
                        }
                    }
                }
            }
            proof {
                assert(orig.fields@.take(done@.len() as int) =~= orig.fields@);
                let t = old_msgs.take(k + 1);
                assert(t.drop_last() =~= old_msgs.take(k));
                assert(t.last() == orig);
            }
            msg.fields = done;
            out.push(msg);
            proof {
                let t = old_msgs.take(k + 1);
                let prev = resolve_messages(init, names, old_msgs.take(k));
                lemma_resolve_messages_len(init, names, old_msgs.take(k));
                assert(resolve_messages(init, names, t).1 == prev.1.push(resolve_fields(prev.0, names, orig.fields@).1));
                assert forall|q: int| 0 <= q < out@.len() implies ({
                    let a = #[trigger] out@[q];
                    forall|j: int| 0 <= j < a.fields@.len() ==>
                        opt_view((#[trigger] a.fields@[j]).display) == resolve_messages(init, names, t).1[q][j]
                }) by {
                    if q < k {
                        assert(resolve_messages(init, names, t).1[q] == prev.1[q]);
                    } else {
                        assert(out@[q] == msg);
                        assert(resolve_messages(init, names, t).1[q] == resolve_fields(start_marks, names, orig.fields@).1);
                    }
                }
            }
        }
        proof {
            assert(old_msgs.take(out@.len() as int) =~= old_msgs);
        }
        proof {
            lemma_names_view(enums@, old_enums);
        }
        MavProfile { messages: out, enums }
    }

    /// Adds a message. A message of a new name is appended; another
    /// definition of a known name is accepted, with no change, only where it
    /// is the same definition.
    pub fn add_message(&mut self, message: MavMessage) -> (r: Result<(), BindGenError>)
        requires
            old(self).well_formed(),
        ensures
            final(self).well_formed(),
            final(self).enums == old(self).enums,
            (forall|i: int| 0 <= i < old(self).messages@.len() ==> #[trigger] old(self).messages@[i].name@ != message.name@)
                ==> r is Ok && final(self).messages@ == old(self).messages@.push(message),
            forall|i: int| 0 <= i < old(self).messages@.len() && #[trigger] old(self).messages@[i].name@ == message.name@
                ==> (r is Ok <==> same_message(old(self).messages@[i], message))
                    && final(self).messages == old(self).messages,
            r is Err ==> r->Err_0 is MessageRedefined,
    {
        match find_message(&self.messages, &message.name) {
            None => {
                self.messages.push(message);
                Ok(())
            },
            Some(i) => {
                if message_eq(&self.messages[i], &message) {
                    Ok(())
                } else {
                    Err(BindGenError::MessageRedefined(message.name))
                }
            },
        }
    }

    /// Adds an enum. An enum of a new name is appended; another definition
    /// of a known name is merged into it (see `MavEnum::try_combine`).
    pub fn add_enum(&mut self, enm: MavEnum) -> (r: Result<(), BindGenError>)
        requires
            old(self).well_formed(),
        ensures
            final(self).well_formed(),
            final(self).messages == old(self).messages,
            (forall|i: int| 0 <= i < old(self).enums@.len() ==> #[trigger] old(self).enums@[i].name@ != enm.name@)
                ==> r is Ok && final(self).enums@ == old(self).enums@.push(enm),
            forall|i: int| 0 <= i < old(self).enums@.len() && #[trigger] old(self).enums@[i].name@ == enm.name@ ==> {
                &&& (r is Ok <==> merge_is_clean(old(self).enums@[i].entries@, enm.entries@))
                &&& r is Ok ==> final(self).enums@.len() == old(self).enums@.len()
                    && (forall|k: int| 0 <= k < old(self).enums@.len() && k != i
                        ==> final(self).enums@[k] == old(self).enums@[k])
                    && final(self).enums@[i].entries@ == old(self).enums@[i].entries@ + enm.entries@
                    && final(self).enums@[i].name == old(self).enums@[i].name
                    && final(self).enums@[i].description == old(self).enums@[i].description
                    && final(self).enums@[i].primitive == old(self).enums@[i].primitive
                    && final(self).enums@[i].bitmask == old(self).enums@[i].bitmask
                &&& r is Err ==> final(self).enums@ == old(self).enums@
            },
            r is Err ==> r->Err_0 is DuplicateEnumEntry,
    {
        match find_enum(&self.enums, enm.name.as_str()) {
            None => {
                self.enums.push(enm);
                Ok(())
            },
            Some(i) => {
                let ghost before = self.enums@;
                let r = self.enums[i].try_combine(enm);
                proof {
                    if r is Err {
                        assert(self.enums@ =~= before);
                    }
                    assert forall|a: int, b: int| 0 <= a < self.enums@.len() && 0 <= b < self.enums@.len() && a != b
                        implies self.enums@[a].name@ != self.enums@[b].name@ by {
                        assert(before[a].name@ != before[b].name@);
                    }
                }
                r
            },
        }
    }
}

} // verus!

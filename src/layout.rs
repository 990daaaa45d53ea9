//! Wire layout of a message: core fields ordered by descending weight,
//! extension fields after them as declared, and the one-byte layout
//! fingerprint over the ordered core fields.
use crc_any::CRCu16;
use vstd::prelude::*;
use vstd::string::*;
use vstd::utf8::encode_utf8;

use crate::model::{MavField, MavMessage};
use crate::text::str_eq;
use crate::types::{lemma_valid_weight, order_weight, primitive_name, sizes_fit, valid_type, wire_size, MavType};

verus! {



/// Whether a field belongs to the core region.
pub open spec fn is_core(f: MavField) -> bool {
    !f.is_extension
}

/// `is_core` as a predicate.
pub open spec fn core_pred() -> spec_fn(MavField) -> bool {
    |f: MavField| is_core(f)
}

/// The negation of `is_core` as a predicate.
pub open spec fn extension_pred() -> spec_fn(MavField) -> bool {
    |f: MavField| !is_core(f)
}

/// The core fields, in their order.
pub open spec fn core_fields(fs: Seq<MavField>) -> Seq<MavField> {
    fs.filter(core_pred())
}

/// The extension fields, in their order.
pub open spec fn extension_fields(fs: Seq<MavField>) -> Seq<MavField> {
    fs.filter(extension_pred())
}

/// The ordering weight of a field's type.
#[verifier::opaque]
pub open spec fn weight_of(f: MavField) -> nat {
    order_weight(f.mavtype)
}

/// Whether a field's type has ordering weight `w`.
pub open spec fn weighs(w: nat) -> spec_fn(MavField) -> bool {
    |f: MavField| weight_of(f) == w
}

/// The fields ordered by descending weight, keeping the declaration order
/// among fields of equal weight.
pub open spec fn by_weight(fs: Seq<MavField>) -> Seq<MavField> {
    fs.filter(weighs(8)) + fs.filter(weighs(4)) + fs.filter(weighs(2)) + fs.filter(weighs(1))
}

/// The final field order of a message: the core fields by weight, then the
/// extension fields as declared.
pub open spec fn resolved_order(fs: Seq<MavField>) -> Seq<MavField> {
    by_weight(core_fields(fs)) + extension_fields(fs)
}

/// Whether every field has a type the format can express.
pub open spec fn fields_valid(fs: Seq<MavField>) -> bool {
    forall|i: int| 0 <= i < fs.len() ==> valid_type(#[trigger] fs[i].mavtype)
}

proof fn lemma_filter_push(s: Seq<MavField>, x: MavField, p: spec_fn(MavField) -> bool)
    ensures
        s.push(x).filter(p) == (if p(x) { s.filter(p).push(x) } else { s.filter(p) }),
{
    reveal(Seq::filter);
    assert(s.push(x).drop_last() =~= s);
}

proof fn lemma_filter_elems(s: Seq<MavField>, p: spec_fn(MavField) -> bool)
    ensures
        forall|i: int| 0 <= i < s.filter(p).len() ==> p(#[trigger] s.filter(p)[i]),
{
    assert forall|i: int| 0 <= i < s.filter(p).len() implies p(#[trigger] s.filter(p)[i]) by {
        s.lemma_filter_pred(p, i);
    }
}

proof fn lemma_filter_valid(s: Seq<MavField>, p: spec_fn(MavField) -> bool)
    requires
        fields_valid(s),
    ensures
        fields_valid(s.filter(p)),
    decreases s.len(),
{
    reveal(Seq::filter);
    if s.len() > 0 {
        lemma_filter_valid(s.drop_last(), p);
    }
}

proof fn lemma_filter_keeps_core(s: Seq<MavField>, p: spec_fn(MavField) -> bool)
    requires
        forall|i: int| 0 <= i < s.len() ==> is_core(#[trigger] s[i]),
    ensures
        forall|i: int| 0 <= i < s.filter(p).len() ==> is_core(#[trigger] s.filter(p)[i]),
    decreases s.len(),
{
    if s.len() > 0 {
        let t = s.drop_last();
        lemma_filter_keeps_core(t, p);
        assert(t.push(s.last()) =~= s);
        lemma_filter_push(t, s.last(), p);
    }
    else {
        reveal(Seq::filter);
    }
}

/// Every field of the ordered core region is a core field.
proof fn lemma_by_weight_core(fs: Seq<MavField>)
    ensures
        forall|i: int| 0 <= i < by_weight(core_fields(fs)).len() ==> is_core(#[trigger] by_weight(core_fields(fs))[i]),
{
    let c = core_fields(fs);
    lemma_filter_elems(fs, core_pred());
    lemma_filter_keeps_core(c, weighs(8));
    lemma_filter_keeps_core(c, weighs(4));
    lemma_filter_keeps_core(c, weighs(2));
    lemma_filter_keeps_core(c, weighs(1));
    let b = by_weight(c);
    assert forall|i: int| 0 <= i < b.len() implies is_core(#[trigger] b[i]) by {
        let n8 = c.filter(weighs(8)).len() as int;
        let n4 = c.filter(weighs(4)).len() as int;
        let n2 = c.filter(weighs(2)).len() as int;
        if i < n8 {
            assert(b[i] == c.filter(weighs(8))[i]);
        } else if i < n8 + n4 {
            assert(b[i] == c.filter(weighs(4))[i - n8]);
        } else if i < n8 + n4 + n2 {
            assert(b[i] == c.filter(weighs(2))[i - n8 - n4]);
        } else {
            assert(b[i] == c.filter(weighs(1))[i - n8 - n4 - n2]);
        }
    }
}

/// Splitting by the four weights loses no field of a valid sequence.
proof fn lemma_by_weight_len(s: Seq<MavField>)
    requires
        fields_valid(s),
    ensures
        by_weight(s).len() == s.len(),
    decreases s.len(),
{
    if s.len() > 0 {
        let t = s.drop_last();
        lemma_by_weight_len(t);
        assert(t.push(s.last()) =~= s);
        lemma_filter_push(t, s.last(), weighs(8));
        lemma_filter_push(t, s.last(), weighs(4));
        lemma_filter_push(t, s.last(), weighs(2));
        lemma_filter_push(t, s.last(), weighs(1));
        lemma_valid_weight(s.last().mavtype);
        reveal(weight_of);
    }
}

/// Relies on crc_any's `CRCu16::crc16mcrf4cc`: the CRC-16/MCRF4XX checksum
/// (polynomial 0x1021 reflected, initial value 0xFFFF, no final xor) of the bytes.
pub uninterp spec fn crc16_mcrf4xx(data: Seq<u8>) -> u16;

/// Relies on crc_any's `CRCu16::crc16mcrf4cc`, `digest` and `get_crc`: the
/// CRC-16/MCRF4XX of all the bytes, digested in one piece.
#[verifier::external_body]
fn checksum(data: &Vec<u8>) -> (r: u16)
    ensures
        r == crc16_mcrf4xx(data@),
{
    let mut crc = CRCu16::crc16mcrf4cc();
    crc.digest(data.as_slice());
    crc.get_crc()
}

/// The 16-bit checksum folded to one byte: low byte xor high byte.
pub open spec fn fold16(crc: u16) -> u8 {
    ((crc & 0xFF) ^ (crc >> 8)) as u8
}

/// The bytes a field adds to the fingerprint input: its primitive name, a
/// space, its name as the document gave it, a space, and for strings and
/// arrays the declared length as one byte.
pub open spec fn field_fingerprint(f: MavField) -> Seq<u8> {
    encode_utf8(primitive_name(f.mavtype)) + seq![32u8]
        + encode_utf8(if f.name@ == "mavtype"@ { "type"@ } else { f.name@ }) + seq![32u8]
        + match f.mavtype {
            MavType::String(n) => seq![n as u8],
            MavType::Array(_, n) => seq![n as u8],
            _ => Seq::<u8>::empty(),
        }
}

/// The fingerprint contributions of the fields, in order.
pub open spec fn fields_fingerprint(fs: Seq<MavField>) -> Seq<u8>
    decreases fs.len(),
{
    if fs.len() == 0 {
        Seq::empty()
    } else {
        fields_fingerprint(fs.drop_last()) + field_fingerprint(fs.last())
    }
}

/// The bytes the fingerprint checksum runs over: the message name, a
/// space, then each core field in resolved order.
pub open spec fn fingerprint_bytes(name: Seq<char>, fs: Seq<MavField>) -> Seq<u8> {
    encode_utf8(name) + seq![32u8] + fields_fingerprint(by_weight(core_fields(fs)))
}

/// The one-byte layout fingerprint of a message with this name and these fields.
pub open spec fn fingerprint(name: Seq<char>, fs: Seq<MavField>) -> u8 {
    fold16(crc16_mcrf4xx(fingerprint_bytes(name, fs)))
}

/// Folds a 16-bit checksum to the fingerprint byte.
pub fn fold_crc(crc: u16) -> (r: u8)
    ensures
        r == fold16(crc),
{
    ((crc & 0xFF) ^ (crc >> 8)) as u8
}

/// Orders a message's fields for the wire: the core fields by descending
/// ordering weight, equal weights in declaration order, then the extension
/// fields in declaration order.
pub fn resolve_field_order(fields: Vec<MavField>) -> (r: Vec<MavField>)
    requires
        fields_valid(fields@),
    ensures
        r@ == resolved_order(fields@),
{
    let ghost all = fields@;
    let mut rest = fields;
    let mut w8: Vec<MavField> = Vec::new();
    let mut w4: Vec<MavField> = Vec::new();
    let mut w2: Vec<MavField> = Vec::new();
    let mut w1: Vec<MavField> = Vec::new();
    let mut ext: Vec<MavField> = Vec::new();
    let ghost mut k: int = 0;
    proof {
        reveal(Seq::filter);
    }
    while rest.len() > 0
        invariant
            fields_valid(all),
            0 <= k <= all.len(),
            rest@ == all.subrange(k, all.len() as int),
            w8@ == core_fields(all.take(k)).filter(weighs(8)),
            w4@ == core_fields(all.take(k)).filter(weighs(4)),
            w2@ == core_fields(all.take(k)).filter(weighs(2)),
            w1@ == core_fields(all.take(k)).filter(weighs(1)),
            ext@ == extension_fields(all.take(k)),
        decreases rest@.len(),
    {
        let f = rest.remove(0);
        let ghost before = all.take(k);
        proof {
            assert(all[k] == f);
            assert(all.take(k + 1) =~= before.push(f));
            lemma_filter_push(before, f, core_pred());
            lemma_filter_push(before, f, extension_pred());
            let c = core_fields(before);
            lemma_filter_push(c, f, weighs(8));
            lemma_filter_push(c, f, weighs(4));
            lemma_filter_push(c, f, weighs(2));
            lemma_filter_push(c, f, weighs(1));
            lemma_valid_weight(f.mavtype);
            reveal(weight_of);
            k = k + 1;
            assert(rest@ =~= all.subrange(k, all.len() as int));
        }
        if f.is_extension {
            ext.push(f);
        } else {
            let w = f.mavtype.order_len();
            if w == 8 {
                w8.push(f);
            } else if w == 4 {
                w4.push(f);
            } else if w == 2 {
                w2.push(f);
            } else {
                w1.push(f);
            }
        }
    }
    assert(all.take(k) =~= all);
    w8.append(&mut w4);
    w8.append(&mut w2);
    w8.append(&mut w1);
    w8.append(&mut ext);
    w8
}

fn push_field_fingerprint(out: &mut Vec<u8>, f: &MavField)
    ensures
        final(out)@ == old(out)@ + field_fingerprint(*f),
{
    let mut bytes = f.mavtype.primitive_type().as_str().as_bytes_vec();
    out.append(&mut bytes);
    out.push(32u8);
    if str_eq(f.name.as_str(), "mavtype") {
        let mut name = "type".as_bytes_vec();
        out.append(&mut name);
    } else {
        let mut name = f.name.as_str().as_bytes_vec();
        out.append(&mut name);
    }
    out.push(32u8);
    match f.mavtype {
        MavType::String(size) => out.push(size as u8),
        MavType::Array(_, size) => out.push(size as u8),
        _ => {},
    }
    assert(out@ =~= old(out)@ + field_fingerprint(*f));
}

/// The bytes the fingerprint checksum of `msg` runs over: the message
/// name, a space, then for each core field in resolved order its primitive
/// type name, a space, its name as the document gave it, a space, and for
/// strings and arrays the declared length as one byte.
pub fn fingerprint_input(msg: &MavMessage) -> (r: Vec<u8>)
    requires
        fields_valid(msg.fields@),
    ensures
        r@ == fingerprint_bytes(msg.name@, msg.fields@),
{
    let mut copies: Vec<MavField> = Vec::new();
    let mut i: usize = 0;
    while i < msg.fields.len()
        invariant
            0 <= i <= msg.fields@.len(),
            copies@ == msg.fields@.take(i as int),
        decreases msg.fields@.len() - i,
    {
        copies.push(msg.fields[i].clone());
        i = i + 1;
        assert(copies@ =~= msg.fields@.take(i as int));
    }
    assert(copies@ =~= msg.fields@);
    let mut core: Vec<MavField> = Vec::new();
    let mut ordered = resolve_field_order(copies);
    let ghost resolved = ordered@;
    let ghost target = by_weight(core_fields(msg.fields@));
    proof {
        lemma_filter_valid(msg.fields@, core_pred());
        lemma_by_weight_core(msg.fields@);
        lemma_by_weight_len(core_fields(msg.fields@));
    }
    let mut out = msg.name.as_str().as_bytes_vec();
    out.push(32u8);
    let mut j: usize = 0;
    let n = ordered.len();
    while j < n
        invariant
            n == resolved.len(),
            0 <= j <= n,
            ordered@ == resolved,
            resolved == target + extension_fields(msg.fields@),
            out@ == encode_utf8(msg.name@) + seq![32u8] + fields_fingerprint(target.take(j as int)),
            j <= target.len(),
            forall|i: int| 0 <= i < target.len() ==> is_core(#[trigger] target[i]),
        ensures
            j == target.len(),
            out@ == encode_utf8(msg.name@) + seq![32u8] + fields_fingerprint(target.take(j as int)),
        decreases n - j,
    {
        let f = &ordered[j];
        if f.is_extension {
            proof {
                if j < target.len() {
                    assert(resolved[j as int] == target[j as int]);
                }
            }
            break;
        }
        let ghost jj = j as int;
        proof {
            if j >= target.len() {
                let ex = extension_fields(msg.fields@);
                lemma_filter_elems(msg.fields@, extension_pred());
                assert(resolved[jj] == ex[jj - target.len()]);
            }
            assert(target.take(jj + 1).drop_last() =~= target.take(jj));
            assert(resolved[jj] == target[jj]);
            assert(target.take(jj + 1).last() == target[jj]);
        }
        push_field_fingerprint(&mut out, f);
        j = j + 1;
    }
    assert(target.take(target.len() as int) =~= target);
    out
}

/// Whether every field has a type the format can express.
pub fn fields_are_valid(fields: &Vec<MavField>) -> (r: bool)
    ensures
        r == fields_valid(fields@),
{
    let mut i: usize = 0;
    while i < fields.len()
        invariant
            0 <= i <= fields@.len(),
            forall|k: int| 0 <= k < i ==> valid_type(#[trigger] fields@[k].mavtype),
        decreases fields@.len() - i,
    {
        let ok = match &fields[i].mavtype {
            MavType::Array(e, _) => match **e {
                MavType::String(_) | MavType::Array(_, _) => false,
                _ => true,
            },
            _ => true,
        };
        if !ok {
            return false;
        }
        i = i + 1;
    }
    true
}

/// The number of payload bytes all fields take on the wire.
pub open spec fn payload_size(fs: Seq<MavField>) -> nat
    decreases fs.len(),
{
    if fs.len() == 0 { 0 } else { payload_size(fs.drop_last()) + wire_size(fs.last().mavtype) }
}

/// The fixed encoded length of a message: the sum of its fields' wire
/// sizes; `None` where it does not fit in a `usize`.
pub fn encoded_len(msg: &MavMessage) -> (r: Option<usize>)
    ensures
        r matches Some(n) ==> n as nat == payload_size(msg.fields@),
        r is None ==> payload_size(msg.fields@) > usize::MAX || exists|i: int| 0 <= i < msg.fields@.len() && !sizes_fit(#[trigger] msg.fields@[i].mavtype),
{
    let mut total: usize = 0;
    let mut i: usize = 0;
    while i < msg.fields.len()
        invariant
            0 <= i <= msg.fields@.len(),
            total as nat == payload_size(msg.fields@.take(i as int)),
        decreases msg.fields@.len() - i,
    {
        let t = &msg.fields[i].mavtype;
        assert(msg.fields@.take(i + 1).drop_last() =~= msg.fields@.take(i as int));
        if !type_sizes_fit(t) {
            return None;
        }
        let n = t.len();
        if total > usize::MAX - n {
            proof { lemma_payload_size_monotone(msg.fields@, i + 1); }
            return None;
        }
        total = total + n;
        i = i + 1;
    }
    assert(msg.fields@.take(i as int) =~= msg.fields@);
    Some(total)
}

proof fn lemma_payload_size_monotone(fs: Seq<MavField>, k: int)
    requires
        0 <= k <= fs.len(),
    ensures
        payload_size(fs.take(k)) <= payload_size(fs),
    decreases fs.len() - k,
{
    if k < fs.len() {
        lemma_payload_size_monotone(fs, k + 1);
        assert(fs.take(k + 1).drop_last() =~= fs.take(k));
    } else {
        assert(fs.take(k) =~= fs);
    }
}

/// Whether the sizes of a type fit in a `usize`.
fn type_sizes_fit(t: &MavType) -> (r: bool)
    ensures
        r == sizes_fit(*t),
    decreases t,
{
    match t {
        MavType::String(_) => true,
        MavType::Array(e, n) => {
            if !type_sizes_fit(e) {
                return false;
            }
            let w = e.len();
            if *n == 0 {
                proof { assert(wire_size(*t) == 0) by (nonlinear_arith) requires wire_size(*t) == wire_size(**e) * (*n as nat), *n == 0; }
                true
            } else {
                let ok = w <= usize::MAX / *n;
                proof {
                    if ok {
                        assert(w as nat * (*n as nat) <= usize::MAX) by (nonlinear_arith)
                            requires w <= usize::MAX / *n, *n > 0;
                    } else {
                        assert(w as nat * (*n as nat) > usize::MAX) by (nonlinear_arith)
                            requires w > usize::MAX / *n, *n > 0;
                    }
                }
                ok
            }
        },
        _ => true,
    }
}

/// The layout fingerprint of a message: the CRC-16/MCRF4XX of its
/// fingerprint input, folded to one byte.
pub fn extra_crc(msg: &MavMessage) -> (r: u8)
    requires
        fields_valid(msg.fields@),
    ensures
        r == fingerprint(msg.name@, msg.fields@),
{
    let input = fingerprint_input(msg);
    fold_crc(checksum(&input))
}

/// After layout resolution the core fields come first, each weighing at
/// least as much as every core field after it, and the extension fields
/// follow in their declared order.
pub proof fn lemma_resolved_order_sorted(fs: Seq<MavField>)
    requires
        fields_valid(fs),
    ensures
        ({
            let r = resolved_order(fs);
            let c = core_fields(fs).len();
            &&& r.len() == fs.len()
            &&& forall|i: int| 0 <= i < c ==> is_core(#[trigger] r[i])
            &&& forall|i: int, j: int| 0 <= i < j < c ==> order_weight(#[trigger] r[i].mavtype) >= order_weight(#[trigger] r[j].mavtype)
            &&& r.subrange(c as int, r.len() as int) == extension_fields(fs)
        }),
{
    let c = core_fields(fs);
    lemma_filter_valid(fs, core_pred());
    lemma_by_weight_len(c);
    lemma_by_weight_core(fs);
    fs.lemma_filter_len(core_pred());
    lemma_filter_split_len(fs);
    let f8 = c.filter(weighs(8));
    let f4 = c.filter(weighs(4));
    let f2 = c.filter(weighs(2));
    let f1 = c.filter(weighs(1));
    lemma_filter_elems(c, weighs(8));
    lemma_filter_elems(c, weighs(4));
    lemma_filter_elems(c, weighs(2));
    lemma_filter_elems(c, weighs(1));
    let b = by_weight(c);
    let r = resolved_order(fs);
    assert forall|i: int| 0 <= i < b.len() implies weight_of(#[trigger] b[i]) == (
        if i < f8.len() { 8nat } else if i < f8.len() + f4.len() { 4nat }
        else if i < f8.len() + f4.len() + f2.len() { 2nat } else { 1nat }) by {
        if i < f8.len() {
            assert(b[i] == f8[i]);
        } else if i < f8.len() + f4.len() {
            assert(b[i] == f4[i - f8.len()]);
        } else if i < f8.len() + f4.len() + f2.len() {
            assert(b[i] == f2[i - f8.len() - f4.len()]);
        } else {
            assert(b[i] == f1[i - f8.len() - f4.len() - f2.len()]);
        }
    }
    assert forall|i: int| 0 <= i < c.len() implies r[i] == b[i] by {}
    reveal(weight_of);
    assert(r.subrange(c.len() as int, r.len() as int) =~= extension_fields(fs));
}

/// Layout resolution keeps every field type valid.
pub proof fn lemma_resolved_order_valid(fs: Seq<MavField>)
    requires
        fields_valid(fs),
    ensures
        fields_valid(resolved_order(fs)),
{
    let c = core_fields(fs);
    lemma_filter_valid(fs, core_pred());
    lemma_filter_valid(fs, extension_pred());
    lemma_filter_valid(c, weighs(8));
    lemma_filter_valid(c, weighs(4));
    lemma_filter_valid(c, weighs(2));
    lemma_filter_valid(c, weighs(1));
    let r = resolved_order(fs);
    assert forall|i: int| 0 <= i < r.len() implies valid_type(#[trigger] r[i].mavtype) by {
        let f8 = c.filter(weighs(8));
        let f4 = c.filter(weighs(4));
        let f2 = c.filter(weighs(2));
        let f1 = c.filter(weighs(1));
        let e = extension_fields(fs);
        let n8 = f8.len() as int;
        let n4 = f4.len() as int;
        let n2 = f2.len() as int;
        let n1 = f1.len() as int;
        if i < n8 {
            assert(r[i] == f8[i]);
        } else if i < n8 + n4 {
            assert(r[i] == f4[i - n8]);
        } else if i < n8 + n4 + n2 {
            assert(r[i] == f2[i - n8 - n4]);
        } else if i < n8 + n4 + n2 + n1 {
            assert(r[i] == f1[i - n8 - n4 - n2]);
        } else {
            assert(r[i] == e[i - n8 - n4 - n2 - n1]);
        }
    }
}

/// A sequence splits into its core and its extension fields.
proof fn lemma_filter_split_len(fs: Seq<MavField>)
    ensures
        core_fields(fs).len() + extension_fields(fs).len() == fs.len(),
    decreases fs.len(),
{
    reveal(Seq::filter);
    if fs.len() > 0 {
        lemma_filter_split_len(fs.drop_last());
    }
}

/// The fingerprint depends on the message name and the core fields alone:
/// adding, removing or reordering extension fields never changes it.
pub proof fn lemma_fingerprint_ignores_extensions(name: Seq<char>, a: Seq<MavField>, b: Seq<MavField>)
    requires
        core_fields(a) == core_fields(b),
    ensures
        fingerprint(name, a) == fingerprint(name, b),
{
}

/// The id of the message named `name`, as the generated lookup gives it.
pub fn message_id_from_name(messages: &Vec<MavMessage>, name: &str) -> (r: Option<u32>)
    ensures
        r is None <==> forall|i: int| 0 <= i < messages@.len() ==> #[trigger] messages@[i].name@ != name@,
        r matches Some(id) ==> exists|i: int| 0 <= i < messages@.len()
            && #[trigger] messages@[i].name@ == name@ && messages@[i].id == id
            && forall|j: int| 0 <= j < i ==> messages@[j].name@ != name@,
{
    let mut i: usize = 0;
    while i < messages.len()
        invariant
            0 <= i <= messages@.len(),
            forall|j: int| 0 <= j < i ==> #[trigger] messages@[j].name@ != name@,
        decreases messages@.len() - i,
    {
        if str_eq(messages[i].name.as_str(), name) {
            return Some(messages[i].id);
        }
        i = i + 1;
    }
    None
}

/// The fingerprint the generated code reports for a message id: that of
/// the first message with this id, 0 for an unknown id.
pub fn extra_crc_from_id(messages: &Vec<MavMessage>, id: u32) -> (r: u8)
    requires
        forall|i: int| 0 <= i < messages@.len() ==> fields_valid(#[trigger] messages@[i].fields@),
    ensures
        (forall|i: int| 0 <= i < messages@.len() ==> #[trigger] messages@[i].id != id) ==> r == 0,
        forall|i: int| 0 <= i < messages@.len() && #[trigger] messages@[i].id == id
            && (forall|j: int| 0 <= j < i ==> messages@[j].id != id)
            ==> r == fingerprint(messages@[i].name@, messages@[i].fields@),
{
    let mut i: usize = 0;
    while i < messages.len()
        invariant
            0 <= i <= messages@.len(),
            forall|j: int| 0 <= j < i ==> #[trigger] messages@[j].id != id,
            forall|q: int| 0 <= q < messages@.len() ==> fields_valid(#[trigger] messages@[q].fields@),
        decreases messages@.len() - i,
    {
        if messages[i].id == id {
            return extra_crc(&messages[i]);
        }
        i = i + 1;
    }
    0
}

proof fn lemma_ascii_literal(s: Seq<char>, bytes: Seq<u8>)
    requires
        s.len() == bytes.len(),
        forall|i: int| 0 <= i < s.len() ==> '\0' <= #[trigger] s[i] <= '\u{7f}' && s[i] as u8 == bytes[i],
    ensures
        encode_utf8(s) == bytes,
{
    vstd::utf8::is_ascii_chars_encode_utf8(s);
    assert forall|i: int| 0 <= i < s.len() implies encode_utf8(s)[i] == bytes[i] by {
        assert(s[i] as u8 == encode_utf8(s)[i]);
    }
    assert(encode_utf8(s) =~= bytes);
}

/// The fingerprint of a message whose core fields are `uint8_t a`,
/// `uint32_t b` and `uint16_t c`, declared in that order, is the checksum of
/// its name followed by ` uint32_t b uint16_t c uint8_t a `.
pub proof fn lemma_three_field_fingerprint(name: Seq<char>, a: MavField, b: MavField, c: MavField)
    requires
        a.mavtype == MavType::UInt8 && a.name@ == "a"@ && !a.is_extension,
        b.mavtype == MavType::UInt32 && b.name@ == "b"@ && !b.is_extension,
        c.mavtype == MavType::UInt16 && c.name@ == "c"@ && !c.is_extension,
    ensures
        fingerprint_bytes(name, seq![a, b, c]) == encode_utf8(name) + seq![32u8, 117u8, 105u8, 110u8, 116u8, 51u8, 50u8, 95u8, 116u8, 32u8, 98u8, 32u8, 117u8, 105u8, 110u8, 116u8, 49u8, 54u8, 95u8, 116u8, 32u8, 99u8, 32u8, 117u8, 105u8, 110u8, 116u8, 56u8, 95u8, 116u8, 32u8, 97u8, 32u8],
        fingerprint(name, seq![a, b, c]) == fold16(crc16_mcrf4xx(encode_utf8(name) + seq![32u8, 117u8, 105u8, 110u8, 116u8, 51u8, 50u8, 95u8, 116u8, 32u8, 98u8, 32u8, 117u8, 105u8, 110u8, 116u8, 49u8, 54u8, 95u8, 116u8, 32u8, 99u8, 32u8, 117u8, 105u8, 110u8, 116u8, 56u8, 95u8, 116u8, 32u8, 97u8, 32u8])),
{
    let fs = seq![a, b, c];
    let e = Seq::<MavField>::empty();
    assert(fs =~= e.push(a).push(b).push(c));
    reveal(weight_of);
    reveal(Seq::filter);
    assert(e.filter(core_pred()) =~= e);
    lemma_filter_push(e, a, core_pred());
    lemma_filter_push(e.push(a), b, core_pred());
    lemma_filter_push(e.push(a).push(b), c, core_pred());
    assert(core_fields(fs) == fs);
    assert(weight_of(a) == 1 && weight_of(b) == 4 && weight_of(c) == 2);
    lemma_filter_push(e, a, weighs(8));
    lemma_filter_push(e.push(a), b, weighs(8));
    lemma_filter_push(e.push(a).push(b), c, weighs(8));
    lemma_filter_push(e, a, weighs(4));
    lemma_filter_push(e.push(a), b, weighs(4));
    lemma_filter_push(e.push(a).push(b), c, weighs(4));
    lemma_filter_push(e, a, weighs(2));
    lemma_filter_push(e.push(a), b, weighs(2));
    lemma_filter_push(e.push(a).push(b), c, weighs(2));
    lemma_filter_push(e, a, weighs(1));
    lemma_filter_push(e.push(a), b, weighs(1));
    lemma_filter_push(e.push(a).push(b), c, weighs(1));
    assert(e.filter(weighs(8)) =~= e);
    assert(e.filter(weighs(4)) =~= e);
    assert(e.filter(weighs(2)) =~= e);
    assert(e.filter(weighs(1)) =~= e);
    let ordered = seq![b, c, a];
    assert(by_weight(fs) =~= ordered);
    assert(ordered.drop_last() =~= seq![b, c]);
    assert(seq![b, c].drop_last() =~= seq![b]);
    assert(seq![b].drop_last() =~= e);
    reveal_strlit("mavtype");
    reveal_strlit("a");
    reveal_strlit("b");
    reveal_strlit("c");
    reveal_strlit("uint8_t");
    reveal_strlit("uint16_t");
    reveal_strlit("uint32_t");
    assert("mavtype"@.len() == 7 && "a"@.len() == 1);
    lemma_ascii_literal("uint32_t"@, seq![117u8, 105u8, 110u8, 116u8, 51u8, 50u8, 95u8, 116u8]);
    lemma_ascii_literal("uint16_t"@, seq![117u8, 105u8, 110u8, 116u8, 49u8, 54u8, 95u8, 116u8]);
    lemma_ascii_literal("uint8_t"@, seq![117u8, 105u8, 110u8, 116u8, 56u8, 95u8, 116u8]);
    lemma_ascii_literal("a"@, seq![97u8]);
    lemma_ascii_literal("b"@, seq![98u8]);
    lemma_ascii_literal("c"@, seq![99u8]);
    assert(field_fingerprint(b) =~= seq![117u8, 105u8, 110u8, 116u8, 51u8, 50u8, 95u8, 116u8, 32u8, 98u8, 32u8]);
    assert(field_fingerprint(c) =~= seq![117u8, 105u8, 110u8, 116u8, 49u8, 54u8, 95u8, 116u8, 32u8, 99u8, 32u8]);
    assert(field_fingerprint(a) =~= seq![117u8, 105u8, 110u8, 116u8, 56u8, 95u8, 116u8, 32u8, 97u8, 32u8]);
    assert(fields_fingerprint(e) =~= Seq::<u8>::empty());
    assert(seq![b].last() == b && seq![b, c].last() == c && ordered.last() == a);
    assert(fields_fingerprint(seq![b]) =~= field_fingerprint(b));
    assert(fields_fingerprint(seq![b, c]) =~= field_fingerprint(b) + field_fingerprint(c));
    assert(fields_fingerprint(ordered) =~= field_fingerprint(b) + field_fingerprint(c) + field_fingerprint(a));
    assert(seq![32u8] + fields_fingerprint(ordered) =~= seq![32u8, 117u8, 105u8, 110u8, 116u8, 51u8, 50u8, 95u8, 116u8, 32u8, 98u8, 32u8, 117u8, 105u8, 110u8, 116u8, 49u8, 54u8, 95u8, 116u8, 32u8, 99u8, 32u8, 117u8, 105u8, 110u8, 116u8, 56u8, 95u8, 116u8, 32u8, 97u8, 32u8]);
    assert(fingerprint_bytes(name, fs) =~= encode_utf8(name) + seq![32u8, 117u8, 105u8, 110u8, 116u8, 51u8, 50u8, 95u8, 116u8, 32u8, 98u8, 32u8, 117u8, 105u8, 110u8, 116u8, 49u8, 54u8, 95u8, 116u8, 32u8, 99u8, 32u8, 117u8, 105u8, 110u8, 116u8, 56u8, 95u8, 116u8, 32u8, 97u8, 32u8]);
}

/// Fields `0..c` are core fields, by non-increasing weight, and the others
/// extension fields.
pub open spec fn core_prefix(fs: Seq<MavField>, c: int) -> bool {
    &&& forall|i: int| 0 <= i < c ==> is_core(#[trigger] fs[i])
    &&& forall|i: int| c <= i < fs.len() ==> !is_core(#[trigger] fs[i])
    &&& forall|i: int, j: int| 0 <= i < j < c
        ==> order_weight(#[trigger] fs[i].mavtype) >= order_weight(#[trigger] fs[j].mavtype)
}

/// Whether fields stand in wire order: core fields first by non-increasing
/// weight, extension fields after them.
pub open spec fn layout_sorted(fs: Seq<MavField>) -> bool {
    exists|c: int| 0 <= c <= fs.len() && core_prefix(fs, c)
}

/// Resolved field order is wire order.
pub proof fn lemma_resolved_order_layout_sorted(fs: Seq<MavField>)
    requires
        fields_valid(fs),
    ensures
        layout_sorted(resolved_order(fs)),
{
    lemma_resolved_order_sorted(fs);
    let r = resolved_order(fs);
    let c = core_fields(fs).len() as int;
    let ex = extension_fields(fs);
    lemma_filter_elems(fs, extension_pred());
    assert forall|i: int| c <= i < r.len() implies !is_core(#[trigger] r[i]) by {
        assert(r[i] == r.subrange(c, r.len() as int)[i - c]);
        assert(r.subrange(c, r.len() as int)[i - c] == ex[i - c]);
    }
    assert(core_prefix(r, c));
}

/// Two field sequences with the same types and regions agree on wire order.
pub proof fn lemma_layout_sorted_same_shape(a: Seq<MavField>, b: Seq<MavField>)
    requires
        layout_sorted(a),
        a.len() == b.len(),
        forall|i: int| 0 <= i < a.len() ==> (#[trigger] a[i]).mavtype == b[i].mavtype && a[i].is_extension == b[i].is_extension,
    ensures
        layout_sorted(b),
{
    let c = choose|c: int| 0 <= c <= a.len() && core_prefix(a, c);
    assert forall|i: int, j: int| 0 <= i < j < c
        implies order_weight(#[trigger] b[i].mavtype) >= order_weight(#[trigger] b[j].mavtype) by {
        assert(order_weight(a[i].mavtype) >= order_weight(a[j].mavtype));
    }
    assert forall|i: int| 0 <= i < c implies is_core(#[trigger] b[i]) by {
        assert(is_core(a[i]));
    }
    assert forall|i: int| c <= i < b.len() implies !is_core(#[trigger] b[i]) by {
        assert(!is_core(a[i]));
    }
    assert(core_prefix(b, c));
}

/// Whether the fields stand in wire order.
pub fn fields_in_layout_order(fields: &Vec<MavField>) -> (r: bool)
    requires
        fields_valid(fields@),
    ensures
        r == layout_sorted(fields@),
{
    let ghost fs = fields@;
    let n = fields.len();
    let mut c: usize = 0;
    while c < n && !fields[c].is_extension
        invariant
            n == fs.len(),
            fs == fields@,
            0 <= c <= n,
            forall|i: int| 0 <= i < c ==> is_core(#[trigger] fs[i]),
        decreases n - c,
    {
        c = c + 1;
    }
    let mut k: usize = c;
    while k < n
        invariant
            n == fs.len(),
            fs == fields@,
            c <= k <= n,
            c < n ==> !is_core(fs[c as int]),
            forall|i: int| 0 <= i < c ==> is_core(#[trigger] fs[i]),
            forall|i: int| c <= i < k ==> !is_core(#[trigger] fs[i]),
        decreases n - k,
    {
        if !fields[k].is_extension {
            proof {
                assert forall|c2: int| 0 <= c2 <= fs.len() implies !core_prefix(fs, c2) by {
                    if core_prefix(fs, c2) {
                        if c2 <= c as int {
                            if c2 < c as int {
                                assert(is_core(fs[c2]));
                            }
                        }
                        if c2 > k as int {
                            assert(c < n ==> !is_core(fs[c as int]));
                        }
                        assert(!is_core(fs[k as int]) || c2 > k as int);
                    }
                }
            }
            return false;
        }
        k = k + 1;
    }
    let mut j: usize = 1;
    while j < c
        invariant
            n == fs.len(),
            fs == fields@,
            fields_valid(fs),
            c <= n,
            1 <= j || c == 0,
            j <= c || c == 0,
            c < n ==> !is_core(fs[c as int]),
            forall|i: int| c <= i < n ==> !is_core(#[trigger] fs[i]),
            forall|i: int| 0 <= i < c ==> is_core(#[trigger] fs[i]),
            forall|i: int, m: int| 0 <= i < m < j && m < c
                ==> order_weight(#[trigger] fs[i].mavtype) >= order_weight(#[trigger] fs[m].mavtype),
        decreases c - j,
    {
        assert(valid_type(fs[j - 1].mavtype) && valid_type(fs[j as int].mavtype));
        proof {
            lemma_valid_weight(fs[j - 1].mavtype);
            lemma_valid_weight(fs[j as int].mavtype);
        }
        let w0 = fields[j - 1].mavtype.order_len();
        let w1 = fields[j].mavtype.order_len();
        if w0 < w1 {
            proof {
                assert forall|c2: int| 0 <= c2 <= fs.len() implies !core_prefix(fs, c2) by {
                    if core_prefix(fs, c2) {
                        if c2 < c as int {
                            assert(!is_core(fs[c2]));
                        }
                        if c2 > c as int {
                            assert(!is_core(fs[c as int]));
                        }
                        assert(order_weight(fs[j - 1].mavtype) >= order_weight(fs[j as int].mavtype));
                    }
                }
            }
            return false;
        }
        j = j + 1;
    }
    assert(core_prefix(fs, c as int));
    true
}

} // verus!

//! The wire behaviour every generated message implementation must have,
//! as a reference codec over raw field values: fields in resolved order,
//! each element little-endian in its width, trailing zero bytes dropped
//! under the newer protocol version, short payloads zero-extended when read.
use vstd::prelude::*;
use vstd::string::*;

use crate::layout::fields_valid;
use crate::model::{enum_names_unique, find_enum, implied_values, opt_view, MavEnum, MavField};
use crate::text::str_eq;
use crate::types::{order_weight, valid_type, MavType};

verus! {

/// Width in bytes of one element of the type.
pub open spec fn elem_width(t: MavType) -> nat {
    order_weight(t)
}

/// Number of elements of the type: the declared length of arrays and
/// strings, one for scalars.
pub open spec fn elem_count(t: MavType) -> nat {
    match t {
        MavType::String(n) => n as nat,
        MavType::Array(_, n) => n as nat,
        _ => 1,
    }
}

/// `256^w`.
pub open spec fn byte_range(w: nat) -> nat
    decreases w,
{
    if w == 0 { 1 } else { 256 * byte_range((w - 1) as nat) }
}

/// The `w` low bytes of `v`, least significant first.
pub open spec fn le_bytes(v: nat, w: nat) -> Seq<u8>
    decreases w,
{
    if w == 0 {
        Seq::empty()
    } else {
        seq![(v % 256) as u8] + le_bytes(v / 256, (w - 1) as nat)
    }
}

/// The number whose little-endian bytes are `bs`.
pub open spec fn le_value(bs: Seq<u8>) -> nat
    decreases bs.len(),
{
    if bs.len() == 0 { 0 } else { bs[0] as nat + 256 * le_value(bs.drop_first()) }
}

/// The bytes of a run of elements of width `w`.
pub open spec fn elems_bytes(vals: Seq<u64>, w: nat) -> Seq<u8>
    decreases vals.len(),
{
    if vals.len() == 0 {
        Seq::empty()
    } else {
        le_bytes(vals[0] as nat, w) + elems_bytes(vals.drop_first(), w)
    }
}

/// The payload of field values `vals` laid out for fields `fs`, before truncation.
pub open spec fn fields_bytes(fs: Seq<MavField>, vals: Seq<Seq<u64>>) -> Seq<u8>
    decreases fs.len(),
{
    if fs.len() == 0 || vals.len() == 0 {
        Seq::empty()
    } else {
        elems_bytes(vals[0], elem_width(fs[0].mavtype)) + fields_bytes(fs.drop_first(), vals.drop_first())
    }
}

/// `bs` without its trailing zero bytes.
pub open spec fn strip_zeros(bs: Seq<u8>) -> Seq<u8>
    decreases bs.len(),
{
    if bs.len() > 0 && bs.last() == 0 { strip_zeros(bs.drop_last()) } else { bs }
}

/// Whether `vals` holds one run of elements per field, of the field's
/// element count, each element fitting in the field's element width.
pub open spec fn values_fit(fs: Seq<MavField>, vals: Seq<Seq<u64>>) -> bool {
    &&& vals.len() == fs.len()
    &&& forall|i: int| 0 <= i < fs.len() ==> {
        &&& (#[trigger] vals[i]).len() == elem_count(fs[i].mavtype)
        &&& forall|k: int| 0 <= k < vals[i].len() ==> (#[trigger] vals[i][k]) < byte_range(elem_width(fs[i].mavtype))
    }
}

/// The elements of width `w` read from `bs` from position `pos` on.
pub open spec fn read_elems(bs: Seq<u8>, pos: int, w: nat, count: nat) -> Seq<u64>
    decreases count,
{
    if count == 0 {
        Seq::empty()
    } else {
        seq![le_value(bs.subrange(pos, pos + w)) as u64] + read_elems(bs, pos + w, w, (count - 1) as nat)
    }
}

/// The field values read from `bs` from position `pos` on.
pub open spec fn read_fields(bs: Seq<u8>, pos: int, fs: Seq<MavField>) -> Seq<Seq<u64>>
    decreases fs.len(),
{
    if fs.len() == 0 {
        Seq::empty()
    } else {
        let t = fs[0].mavtype;
        seq![read_elems(bs, pos, elem_width(t), elem_count(t))]
            + read_fields(bs, pos + elem_width(t) * elem_count(t), fs.drop_first())
    }
}

/// `bs` extended with zero bytes to length `n`.
pub open spec fn zero_extended(bs: Seq<u8>, n: nat) -> Seq<u8> {
    if bs.len() >= n { bs } else { bs + Seq::new((n - bs.len()) as nat, |i: int| 0u8) }
}

proof fn lemma_le_bytes_len(v: nat, w: nat)
    ensures
        le_bytes(v, w).len() == w,
    decreases w,
{
    if w > 0 {
        lemma_le_bytes_len(v / 256, (w - 1) as nat);
    }
}

proof fn lemma_le_round_trip(v: nat, w: nat)
    requires
        v < byte_range(w),
    ensures
        le_value(le_bytes(v, w)) == v,
    decreases w,
{
    if w > 0 {
        let rest = le_bytes(v / 256, (w - 1) as nat);
        assert(v / 256 < byte_range((w - 1) as nat)) by (nonlinear_arith)
            requires v < 256 * byte_range((w - 1) as nat);
        lemma_le_round_trip(v / 256, (w - 1) as nat);
        assert(le_bytes(v, w).drop_first() =~= rest);
        assert(v == v % 256 + 256 * (v / 256)) by (nonlinear_arith);
    }
}

proof fn lemma_elems_bytes_len(vals: Seq<u64>, w: nat)
    ensures
        elems_bytes(vals, w).len() == vals.len() * w,
    decreases vals.len(),
{
    if vals.len() > 0 {
        lemma_le_bytes_len(vals[0] as nat, w);
        lemma_elems_bytes_len(vals.drop_first(), w);
        assert(vals.len() * w == w + (vals.len() - 1) * w) by (nonlinear_arith);
    }
}

/// Reading the elements back from their bytes, wherever they stand in a
/// longer sequence, gives the elements.
proof fn lemma_elems_round_trip(pre: Seq<u8>, vals: Seq<u64>, w: nat, post: Seq<u8>)
    requires
        forall|k: int| 0 <= k < vals.len() ==> (#[trigger] vals[k]) < byte_range(w),
        w <= 8,
    ensures
        read_elems(pre + elems_bytes(vals, w) + post, pre.len() as int, w, vals.len()) == vals,
    decreases vals.len(),
{
    if vals.len() > 0 {
        let v = vals[0];
        let b = le_bytes(v as nat, w);
        let rest = elems_bytes(vals.drop_first(), w);
        lemma_le_bytes_len(v as nat, w);
        assert(pre + elems_bytes(vals, w) + post =~= (pre + b) + rest + post);
        lemma_elems_round_trip(pre + b, vals.drop_first(), w, post);
        let all = pre + elems_bytes(vals, w) + post;
        assert(all.subrange(pre.len() as int, pre.len() + w as int) =~= b);
        lemma_le_round_trip(v as nat, w);
        assert(read_elems(all, pre.len() as int, w, vals.len()) =~= vals);
    }
}

/// Reading field values back from their payload bytes gives the values.
pub proof fn lemma_fields_round_trip(pre: Seq<u8>, fs: Seq<MavField>, vals: Seq<Seq<u64>>, post: Seq<u8>)
    requires
        fields_valid(fs),
        values_fit(fs, vals),
    ensures
        read_fields(pre + fields_bytes(fs, vals) + post, pre.len() as int, fs) == vals,
    decreases fs.len(),
{
    if fs.len() > 0 {
        let t = fs[0].mavtype;
        let w = elem_width(t);
        assert(valid_type(fs[0].mavtype));
        crate::types::lemma_valid_weight(t);
        let b = elems_bytes(vals[0], w);
        let rest = fields_bytes(fs.drop_first(), vals.drop_first());
        assert(pre + fields_bytes(fs, vals) + post =~= pre + b + (rest + post));
        lemma_elems_round_trip(pre, vals[0], w, rest + post);
        lemma_elems_bytes_len(vals[0], w);
        assert(vals[0].len() == elem_count(t));
        assert(vals[0].len() * w == w * elem_count(t)) by (nonlinear_arith)
            requires vals[0].len() == elem_count(t);
        assert(pre + fields_bytes(fs, vals) + post =~= (pre + b) + rest + post);
        assert(fields_valid(fs.drop_first()));
        assert(values_fit(fs.drop_first(), vals.drop_first())) by {
            assert forall|i: int| 0 <= i < fs.drop_first().len() implies {
                &&& (#[trigger] vals.drop_first()[i]).len() == elem_count(fs.drop_first()[i].mavtype)
                &&& forall|k: int| 0 <= k < vals.drop_first()[i].len() ==> (#[trigger] vals.drop_first()[i][k]) < byte_range(elem_width(fs.drop_first()[i].mavtype))
            } by {
                assert(vals.drop_first()[i] == vals[i + 1]);
                assert(fs.drop_first()[i] == fs[i + 1]);
            }
        }
        lemma_fields_round_trip(pre + b, fs.drop_first(), vals.drop_first(), post);
        assert(read_fields(pre + fields_bytes(fs, vals) + post, pre.len() as int, fs) =~= vals);
    }
}

/// Zero-extending the truncated bytes to their old length restores them.
proof fn lemma_strip_extend(bs: Seq<u8>)
    ensures
        strip_zeros(bs).len() <= bs.len(),
        zero_extended(strip_zeros(bs), bs.len()) == bs,
    decreases bs.len(),
{
    if bs.len() > 0 && bs.last() == 0 {
        lemma_strip_extend(bs.drop_last());
        let s = strip_zeros(bs.drop_last());
        assert(zero_extended(s, bs.len()) =~= zero_extended(s, bs.drop_last().len()).push(0u8));
        assert(bs.drop_last().push(0u8) =~= bs);
    } else {
        assert(zero_extended(bs, bs.len()) =~= bs);
    }
}

/// Encoding field values and decoding the payload again, with or without
/// the truncation of trailing zeros, gives the values back.
pub proof fn lemma_payload_round_trip(fs: Seq<MavField>, vals: Seq<Seq<u64>>, truncate: bool)
    requires
        fields_valid(fs),
        values_fit(fs, vals),
    ensures
        ({
            let full = fields_bytes(fs, vals);
            let sent = if truncate { strip_zeros(full) } else { full };
            read_fields(zero_extended(sent, full.len()), 0, fs) == vals
        }),
{
    let full = fields_bytes(fs, vals);
    lemma_strip_extend(full);
    assert(zero_extended(full, full.len()) =~= full);
    lemma_fields_round_trip(Seq::empty(), fs, vals, Seq::empty());
    assert(Seq::<u8>::empty() + full + Seq::<u8>::empty() =~= full);
}

/// The number of payload bytes of fields `fs`.
pub open spec fn frame_len(fs: Seq<MavField>) -> nat
    decreases fs.len(),
{
    if fs.len() == 0 {
        0
    } else {
        elem_width(fs[0].mavtype) * elem_count(fs[0].mavtype) + frame_len(fs.drop_first())
    }
}

/// The views of a list of element runs.
pub open spec fn values_view(v: Seq<Vec<u64>>) -> Seq<Seq<u64>> {
    v.map_values(|x: Vec<u64>| x@)
}

proof fn lemma_fields_bytes_len(fs: Seq<MavField>, vals: Seq<Seq<u64>>)
    requires
        values_fit(fs, vals),
    ensures
        fields_bytes(fs, vals).len() == frame_len(fs),
    decreases fs.len(),
{
    if fs.len() > 0 {
        lemma_elems_bytes_len(vals[0], elem_width(fs[0].mavtype));
        assert(vals[0].len() == elem_count(fs[0].mavtype));
        assert(vals[0].len() * elem_width(fs[0].mavtype) == elem_width(fs[0].mavtype) * elem_count(fs[0].mavtype)) by (nonlinear_arith)
            requires vals[0].len() == elem_count(fs[0].mavtype);
        assert(values_fit(fs.drop_first(), vals.drop_first())) by {
            assert forall|i: int| 0 <= i < fs.drop_first().len() implies {
                &&& (#[trigger] vals.drop_first()[i]).len() == elem_count(fs.drop_first()[i].mavtype)
                &&& forall|k: int| 0 <= k < vals.drop_first()[i].len() ==> (#[trigger] vals.drop_first()[i][k]) < byte_range(elem_width(fs.drop_first()[i].mavtype))
            } by {
                assert(vals.drop_first()[i] == vals[i + 1]);
                assert(fs.drop_first()[i] == fs[i + 1]);
            }
        }
        lemma_fields_bytes_len(fs.drop_first(), vals.drop_first());
    }
}

fn push_le(out: &mut Vec<u8>, v: u64, w: usize)
    ensures
        final(out)@ == old(out)@ + le_bytes(v as nat, w as nat),
{
    let mut x: u64 = v;
    let mut b: usize = 0;
    let ghost start = out@;
    while b < w
        invariant
            0 <= b <= w,
            out@ + le_bytes(x as nat, (w - b) as nat) == start + le_bytes(v as nat, w as nat),
        decreases w - b,
    {
        let ghost before = out@;
        proof {
            let rest = le_bytes(x as nat / 256, (w - b - 1) as nat);
            assert(le_bytes(x as nat, (w - b) as nat) == seq![(x as nat % 256) as u8] + rest);
            assert(before + le_bytes(x as nat, (w - b) as nat) =~= before.push((x % 256) as u8) + rest);
        }
        out.push((x % 256) as u8);
        x = x / 256;
        b = b + 1;
    }
    assert(le_bytes(x as nat, 0) =~= Seq::<u8>::empty());
    assert(out@ + Seq::<u8>::empty() =~= out@);
}

fn strip_trailing_zeros(bytes: &mut Vec<u8>)
    ensures
        final(bytes)@ == strip_zeros(old(bytes)@),
{
    while bytes.len() > 0 && bytes[bytes.len() - 1] == 0
        invariant
            strip_zeros(bytes@) == strip_zeros(old(bytes)@),
        decreases bytes@.len(),
    {
        let ghost before = bytes@;
        bytes.pop();
        assert(bytes@ =~= before.drop_last());
    }
}

/// The payload of a message with these field values: the fields in order,
/// each element little-endian in the element width; under the newer
/// protocol version (`v2`) the trailing zero bytes are dropped.
pub fn encode_payload(fields: &Vec<MavField>, values: &Vec<Vec<u64>>, v2: bool) -> (r: Vec<u8>)
    requires
        fields_valid(fields@),
        values_fit(fields@, values_view(values@)),
    ensures
        r@ == (if v2 { strip_zeros(fields_bytes(fields@, values_view(values@))) } else { fields_bytes(fields@, values_view(values@)) }),
{
    let ghost fs = fields@;
    let ghost vals = values_view(values@);
    let mut out: Vec<u8> = Vec::new();
    let mut i: usize = 0;
    assert(fs.skip(0) =~= fs);
    assert(vals.skip(0) =~= vals);
    assert(out@ + fields_bytes(fs, vals) =~= fields_bytes(fs, vals));
    while i < fields.len()
        invariant
            fs == fields@,
            vals == values_view(values@),
            values_fit(fs, vals),
            fields_valid(fs),
            0 <= i <= fs.len(),
            out@ + fields_bytes(fs.skip(i as int), vals.skip(i as int)) == fields_bytes(fs, vals),
        decreases fs.len() - i,
    {
        let t = &fields[i].mavtype;
        assert(valid_type(fs[i as int].mavtype));
        let w = t.order_len();
        proof {
            crate::types::lemma_valid_weight(fs[i as int].mavtype);
            assert(fs.skip(i as int)[0] == fs[i as int]);
            assert(vals.skip(i as int)[0] == vals[i as int]);
            assert(fs.skip(i as int).drop_first() =~= fs.skip(i + 1));
            assert(vals.skip(i as int).drop_first() =~= vals.skip(i + 1));
            assert(vals[i as int] == values@[i as int]@);
        }
        let run = &values[i];
        let ghost base = out@;
        let mut k: usize = 0;
        assert(run@.skip(0) =~= run@);
        while k < run.len()
            invariant
                0 <= k <= run@.len(),
                i < fs.len(),
                w as nat == elem_width(fs[i as int].mavtype),
                out@ + elems_bytes(run@.skip(k as int), w as nat) == base + elems_bytes(run@, w as nat),
            decreases run@.len() - k,
        {
            proof {
                assert(run@.skip(k as int)[0] == run@[k as int]);
                assert(run@.skip(k as int).drop_first() =~= run@.skip(k + 1));
            }
            let ghost before = out@;
            push_le(&mut out, run[k], w);
            proof {
                assert(before + elems_bytes(run@.skip(k as int), w as nat)
                    =~= out@ + elems_bytes(run@.skip(k + 1), w as nat));
            }
            k = k + 1;
        }
        proof {
            assert(fs.skip(i as int)[0] == fs[i as int]);
            assert(vals.skip(i as int)[0] == vals[i as int]);
            assert(fs.skip(i as int).drop_first() =~= fs.skip(i + 1));
            assert(vals.skip(i as int).drop_first() =~= vals.skip(i + 1));
            assert(vals[i as int] == values@[i as int]@);
            assert(run@.skip(k as int) =~= Seq::<u64>::empty());
            assert(out@ + Seq::<u8>::empty() =~= out@);
            assert(base + fields_bytes(fs.skip(i as int), vals.skip(i as int))
                =~= out@ + fields_bytes(fs.skip(i + 1), vals.skip(i + 1)));
        }
        i = i + 1;
    }
    proof {
        assert(fs.skip(i as int) =~= Seq::<MavField>::empty());
        assert(out@ + Seq::<u8>::empty() =~= out@);
    }
    if v2 {
        strip_trailing_zeros(&mut out);
    }
    out
}

proof fn lemma_le_value_bound(bs: Seq<u8>)
    ensures
        le_value(bs) < byte_range(bs.len()),
    decreases bs.len(),
{
    if bs.len() > 0 {
        lemma_le_value_bound(bs.drop_first());
        let r = byte_range(bs.drop_first().len());
        let v = le_value(bs.drop_first());
        assert(bs[0] as nat + 256 * v < 256 * r) by (nonlinear_arith)
            requires v < r, bs[0] < 256;
    }
}

proof fn lemma_byte_range_8()
    ensures
        byte_range(8) == 0x1_0000_0000_0000_0000,
{
    reveal_with_fuel(byte_range, 9);
}

proof fn lemma_byte_range_mono(a: nat, b: nat)
    requires
        a <= b,
    ensures
        byte_range(a) <= byte_range(b),
    decreases b,
{
    if a < b {
        lemma_byte_range_mono(a, (b - 1) as nat);
    }
}

/// Reads `w` bytes at `pos` as a little-endian number.
fn read_le(bs: &Vec<u8>, pos: usize, w: usize) -> (r: u64)
    requires
        w <= 8,
        pos + w <= bs@.len(),
    ensures
        r as nat == le_value(bs@.subrange(pos as int, pos + w)),
{
    let mut v: u64 = 0;
    let mut j: usize = w;
    let len = bs.len();
    proof {
        assert(bs@.subrange(pos + w, pos + w) =~= Seq::<u8>::empty());
    }
    while j > 0
        invariant
            w <= 8,
            pos + w <= bs@.len(),
            len == bs@.len(),
            0 <= j <= w,
            v as nat == le_value(bs@.subrange(pos + j, pos + w)),
        decreases j,
    {
        j = j - 1;
        let ghost tail = bs@.subrange(pos + j + 1, pos + w);
        let ghost here = bs@.subrange(pos + j, pos + w);
        proof {
            assert(here.drop_first() =~= tail);
            assert(here[0] == bs@[pos + j]);
            lemma_le_value_bound(tail);
            lemma_byte_range_mono(tail.len(), 7);
            reveal_with_fuel(byte_range, 8);
            assert(v < 0x100_0000_0000_0000);
        }
        v = bs[pos + j] as u64 + 256 * v;
    }
    v
}

/// Reads the raw field values of a payload: a payload shorter than the
/// fields' length is zero-extended first, bytes past it are ignored.
pub fn read_payload(fields: &Vec<MavField>, payload: &Vec<u8>) -> (r: Vec<Vec<u64>>)
    requires
        fields_valid(fields@),
        frame_len(fields@) <= usize::MAX,
    ensures
        values_view(r@) == read_fields(zero_extended(payload@, frame_len(fields@)), 0, fields@),
{
    let ghost fs = fields@;
    let ghost n = frame_len(fs);
    let total = frame_length(fields);
    assert(n <= usize::MAX);
    let mut ext: Vec<u8> = Vec::new();
    let mut c: usize = 0;
    while c < payload.len()
        invariant
            0 <= c <= payload@.len(),
            ext@ == payload@.take(c as int),
        decreases payload@.len() - c,
    {
        ext.push(payload[c]);
        c = c + 1;
        assert(ext@ =~= payload@.take(c as int));
    }
    assert(payload@.take(c as int) =~= payload@);
    while ext.len() < total
        invariant
            total as nat == n,
            ext@.len() >= payload@.len(),
            ext@.subrange(0, payload@.len() as int) == payload@,
            forall|q: int| payload@.len() <= q < ext@.len() ==> ext@[q] == 0u8,
            ext@.len() > payload@.len() ==> ext@.len() <= n,
        decreases n - ext@.len(),
    {
        ext.push(0u8);
        assert(ext@.subrange(0, payload@.len() as int) =~= payload@);
    }
    let ghost zx = zero_extended(payload@, n);
    assert(ext@ =~= zx);
    let mut out: Vec<Vec<u64>> = Vec::new();
    let mut pos: usize = 0;
    let mut i: usize = 0;
    assert(fs.skip(0) =~= fs);
    assert(values_view(out@) + read_fields(zx, 0, fs) =~= read_fields(zx, 0, fs));
    while i < fields.len()
        invariant
            fs == fields@,
            fields_valid(fs),
            ext@ == zx,
            zx.len() >= n,
            n <= usize::MAX,
            0 <= i <= fs.len(),
            pos + frame_len(fs.skip(i as int)) == n,
            values_view(out@) + read_fields(zx, pos as int, fs.skip(i as int)) == read_fields(zx, 0, fs),
        decreases fs.len() - i,
    {
        let t = &fields[i].mavtype;
        assert(valid_type(fs[i as int].mavtype));
        proof { crate::types::lemma_valid_weight(fs[i as int].mavtype); }
        let w = t.order_len();
        let count = match t {
            MavType::String(m) => *m,
            MavType::Array(_, m) => *m,
            _ => 1,
        };
        let ghost rest = fs.skip(i as int);
        let ghost start = pos as int;
        proof {
            assert(rest[0] == fs[i as int]);
            assert(rest.drop_first() =~= fs.skip(i + 1));
            assert(frame_len(rest) == w * count + frame_len(fs.skip(i + 1)));
        }
        let mut run: Vec<u64> = Vec::new();
        let mut k: usize = 0;
        assert(run@ + read_elems(zx, start, w as nat, count as nat) =~= read_elems(zx, start, w as nat, count as nat));
        while k < count
            invariant
                ext@ == zx,
                zx.len() >= n,
                w <= 8,
                n <= usize::MAX,
                0 <= k <= count,
                pos as int == start + k * w,
                start + w * count <= n,
                run@ + read_elems(zx, pos as int, w as nat, (count - k) as nat) == read_elems(zx, start, w as nat, count as nat),
            decreases count - k,
        {
            assert(pos + w <= n) by (nonlinear_arith)
                requires pos as int == start + k * w, start + w * count <= n, k < count;
            let v = read_le(&ext, pos, w);
            proof {
                lemma_le_value_bound(zx.subrange(pos as int, pos + w));
                assert(read_elems(zx, pos as int, w as nat, (count - k) as nat)
                    == seq![v] + read_elems(zx, pos + w, w as nat, (count - k - 1) as nat));
                assert(run@.push(v) + read_elems(zx, pos + w, w as nat, (count - k - 1) as nat)
                    =~= run@ + read_elems(zx, pos as int, w as nat, (count - k) as nat));
                assert(pos + w == start + (k + 1) * w) by (nonlinear_arith)
                    requires pos as int == start + k * w;
            }
            run.push(v);
            pos = pos + w;
            k = k + 1;
        }
        proof {
            assert(read_elems(zx, pos as int, w as nat, 0) =~= Seq::<u64>::empty());
            assert(run@ + Seq::<u64>::empty() =~= run@);
            assert(pos as int == start + w * count) by (nonlinear_arith)
                requires pos as int == start + k * w, k == count;
        }
        let ghost before = values_view(out@);
        out.push(run);
        proof {
            assert(values_view(out@) =~= before.push(run@));
            assert(read_fields(zx, start, rest) == seq![run@] + read_fields(zx, pos as int, fs.skip(i + 1)));
            assert(values_view(out@) + read_fields(zx, pos as int, fs.skip(i + 1))
                =~= before + read_fields(zx, start, rest));
        }
        i = i + 1;
    }
    proof {
        assert(fs.skip(i as int) =~= Seq::<MavField>::empty());
        assert(values_view(out@) + Seq::<Seq<u64>>::empty() =~= values_view(out@));
    }
    out
}

/// The payload length of the fields, computed.
fn frame_length(fields: &Vec<MavField>) -> (r: usize)
    requires
        fields_valid(fields@),
        frame_len(fields@) <= usize::MAX,
    ensures
        r as nat == frame_len(fields@),
{
    let ghost fs = fields@;
    let mut total: usize = 0;
    let mut i: usize = fields.len();
    assert(fs.skip(fs.len() as int) =~= Seq::<MavField>::empty());
    while i > 0
        invariant
            fs == fields@,
            fields_valid(fs),
            frame_len(fs) <= usize::MAX,
            0 <= i <= fs.len(),
            total as nat == frame_len(fs.skip(i as int)),
        decreases i,
    {
        i = i - 1;
        let t = &fields[i].mavtype;
        assert(valid_type(fs[i as int].mavtype));
        proof {
            crate::types::lemma_valid_weight(fs[i as int].mavtype);
            assert(fs.skip(i as int)[0] == fs[i as int]);
            assert(fs.skip(i as int).drop_first() =~= fs.skip(i + 1));
            lemma_frame_len_suffix(fs, i as int);
        }
        let w = t.order_len();
        let count = match t {
            MavType::String(m) => *m,
            MavType::Array(_, m) => *m,
            _ => 1,
        };
        total = w * count + total;
    }
    assert(fs.skip(0) =~= fs);
    total
}

proof fn lemma_frame_len_suffix(fs: Seq<MavField>, i: int)
    requires
        0 <= i <= fs.len(),
    ensures
        frame_len(fs.skip(i)) <= frame_len(fs),
    decreases i,
{
    if i > 0 {
        lemma_frame_len_suffix(fs, i - 1);
        assert(fs.skip(i - 1).drop_first() =~= fs.skip(i));
    } else {
        assert(fs.skip(0) =~= fs);
    }
}

/// A payload that decodes to no value of the message.
#[derive(Debug, Clone, PartialEq, Eq)]
pub enum DecodeError {
    /// An enum field holds a value that no entry of the enum has.
    InvalidEnum { enum_type: String, value: u64 },
    /// A bitmask field sets bits that no entry of the enum has.
    InvalidFlag { flag_type: String, value: u64 },
}

/// Index of the enum named `name`, if there is one.
pub open spec fn named_enum(enums: Seq<MavEnum>, name: Seq<char>) -> Option<int> {
    if exists|i: int| 0 <= i < enums.len() && enums[i].name@ == name {
        Some(choose|i: int| 0 <= i < enums.len() && enums[i].name@ == name)
    } else {
        None
    }
}

/// All bits of the values.
pub open spec fn flag_mask(vals: Seq<nat>) -> u64
    decreases vals.len(),
{
    if vals.len() == 0 { 0 } else { flag_mask(vals.drop_last()) | (vals.last() as u64) }
}

/// Whether every implied entry value of every enum fits in a `u32`.
pub open spec fn enums_fit(enums: Seq<MavEnum>) -> bool {
    forall|i: int, j: int| 0 <= i < enums.len() && 0 <= j < enums[i].entries@.len()
        ==> #[trigger] implied_values(enums[i].entries@)[j] <= u32::MAX
}

/// Whether a field is read as a bitmask.
pub open spec fn shown_as_bitmask(f: MavField) -> bool {
    opt_view(f.display) == Some("bitmask"@)
}

/// Why a field's raw value is refused: `Some(true)` for bits outside a
/// bitmask enum, `Some(false)` for a value no entry of a plain enum has,
/// `None` where it is accepted. Only non-array fields of a known enum are checked.
pub open spec fn field_rejection(f: MavField, enums: Seq<MavEnum>, run: Seq<u64>) -> Option<bool> {
    if f.enumtype is Some && !(f.mavtype is Array) && run.len() > 0 {
        match named_enum(enums, f.enumtype.unwrap()@) {
            None => None,
            Some(i) => {
                let vs = implied_values(enums[i].entries@);
                let v = run[0];
                if shown_as_bitmask(f) {
                    if v & !flag_mask(vs) != 0 { Some(true) } else { None }
                } else if exists|j: int| 0 <= j < vs.len() && vs[j] == v as nat {
                    None
                } else {
                    Some(false)
                }
            },
        }
    } else {
        None
    }
}

/// The value of a default-constructed message: zero everywhere, but the
/// first entry's value in a non-array field of a known enum with entries.
pub open spec fn default_values(fs: Seq<MavField>, enums: Seq<MavEnum>) -> Seq<Seq<u64>> {
    Seq::new(fs.len(), |i: int| {
        let f = fs[i];
        if f.enumtype is Some && !(f.mavtype is Array) && named_enum(enums, f.enumtype.unwrap()@) is Some
            && enums[named_enum(enums, f.enumtype.unwrap()@).unwrap()].entries@.len() > 0 {
            seq![implied_values(enums[named_enum(enums, f.enumtype.unwrap()@).unwrap()].entries@)[0] as u64]
        } else {
            Seq::new(elem_count(f.mavtype), |k: int| 0u64)
        }
    })
}

proof fn lemma_mask_covers_first(vals: Seq<nat>)
    requires
        vals.len() > 0,
    ensures
        (vals[0] as u64) & !flag_mask(vals) == 0,
    decreases vals.len(),
{
    let x = vals[0] as u64;
    if vals.len() == 1 {
        assert(flag_mask(vals.drop_last()) == 0);
        let m = flag_mask(vals);
        assert(m == (0u64 | x));
        assert((x & !(0u64 | x)) == 0) by (bit_vector);
    } else {
        lemma_mask_covers_first(vals.drop_last());
        assert(vals.drop_last()[0] == vals[0]);
        let m = flag_mask(vals.drop_last());
        let y = vals.last() as u64;
        assert(x & !m == 0);
        assert((x & !(m | y)) == 0) by (bit_vector)
            requires x & !m == 0;
    }
}

/// A default-constructed message survives encoding and decoding, with or
/// without the truncation of trailing zeros: its values come back and no
/// field is refused.
pub proof fn lemma_default_round_trip(fs: Seq<MavField>, enums: Seq<MavEnum>, truncate: bool)
    requires
        fields_valid(fs),
        enums_fit(enums),
        forall|k: int| 0 <= k < enums.len() ==> (#[trigger] enums[k]).entries@.len() > 0,
        values_fit(fs, default_values(fs, enums)),
    ensures
        ({
            let d = default_values(fs, enums);
            let full = fields_bytes(fs, d);
            let sent = if truncate { strip_zeros(full) } else { full };
            &&& read_fields(zero_extended(sent, full.len()), 0, fs) == d
            &&& forall|i: int| 0 <= i < fs.len() ==> field_rejection(#[trigger] fs[i], enums, d[i]) is None
        }),
{
    let d = default_values(fs, enums);
    lemma_payload_round_trip(fs, d, truncate);
    assert forall|i: int| 0 <= i < fs.len() implies field_rejection(#[trigger] fs[i], enums, d[i]) is None by {
        let f = fs[i];
        if f.enumtype is Some && !(f.mavtype is Array) && d[i].len() > 0 {
            match named_enum(enums, f.enumtype.unwrap()@) {
                None => {},
                Some(e) => {
                    let vs = implied_values(enums[e].entries@);
                    crate::model::lemma_implied_len(enums[e].entries@);
                    assert(enums[e].entries@.len() > 0);
                    assert(d[i] == seq![vs[0] as u64]);
                    assert(vs[0] <= u32::MAX);
                    if shown_as_bitmask(f) {
                        lemma_mask_covers_first(vs);
                    } else {
                        assert(vs[0] == d[i][0] as nat);
                        assert(0 <= 0 < vs.len() && vs[0] == d[i][0] as nat);
                    }
                },
            }
        }
    }
}

/// The values of an enum's entries, as the numbering rule gives them.
fn enum_values_of(e: &MavEnum) -> (r: Vec<u32>)
    requires
        forall|j: int| 0 <= j < e.entries@.len() ==> #[trigger] implied_values(e.entries@)[j] <= u32::MAX,
    ensures
        r@.len() == implied_values(e.entries@).len(),
        forall|j: int| 0 <= j < r@.len() ==> #[trigger] r@[j] as nat == implied_values(e.entries@)[j],
{
    proof { crate::model::lemma_implied_len(e.entries@); }
    match e.entry_values() {
        Some(v) => v,
        None => {
            proof {
                let j = choose|j: int| 0 <= j < e.entries@.len() && #[trigger] implied_values(e.entries@)[j] > u32::MAX;
            }
            Vec::new()
        },
    }
}

/// Checks one field's raw value against its enum.
fn check_field(f: &MavField, enums: &Vec<MavEnum>, run: &Vec<u64>) -> (r: Result<(), DecodeError>)
    requires
        enum_names_unique(enums@),
        enums_fit(enums@),
    ensures
        match field_rejection(*f, enums@, run@) {
            None => r is Ok,
            Some(true) => r matches Err(DecodeError::InvalidFlag { flag_type, value })
                && flag_type@ == f.enumtype.unwrap()@ && value == run@[0],
            Some(false) => r matches Err(DecodeError::InvalidEnum { enum_type, value })
                && enum_type@ == f.enumtype.unwrap()@ && value == run@[0],
        },
{
    let name = match &f.enumtype {
        Some(n) => n,
        None => {
            return Ok(());
        },
    };
    if let MavType::Array(_, _) = f.mavtype {
        return Ok(());
    }
    if run.len() == 0 {
        return Ok(());
    }
    let i = match find_enum(enums, name.as_str()) {
        Some(i) => i,
        None => {
            proof {
                assert(!(exists|i: int| 0 <= i < enums@.len() && enums@[i].name@ == name@));
            }
            return Ok(());
        },
    };
    proof {
        let k = choose|k: int| 0 <= k < enums@.len() && enums@[k].name@ == name@;
        assert(enums@[k].name@ == enums@[i as int].name@);
        assert(k == i as int);
        assert(named_enum(enums@, name@) == Some(i as int));
        assert forall|j: int| 0 <= j < enums@[i as int].entries@.len()
            implies #[trigger] implied_values(enums@[i as int].entries@)[j] <= u32::MAX by {
            assert(implied_values(enums@[i as int].entries@)[j] <= u32::MAX);
        }
    }
    let values = enum_values_of(&enums[i]);
    let ghost vs = implied_values(enums@[i as int].entries@);
    let v = run[0];
    let bitmask = match &f.display {
        Some(d) => str_eq(d.as_str(), "bitmask"),
        None => false,
    };
    if bitmask {
        let mut mask: u64 = 0;
        let mut j: usize = 0;
        while j < values.len()
            invariant
                0 <= j <= values@.len(),
                values@.len() == vs.len(),
                vs == implied_values(enums@[i as int].entries@),
                i < enums@.len(),
                named_enum(enums@, f.enumtype.unwrap()@) == Some(i as int),
                f.enumtype is Some,
                !(f.mavtype is Array),
                run@.len() > 0,
                v == run@[0],
                bitmask == shown_as_bitmask(*f),
                forall|q: int| 0 <= q < values@.len() ==> #[trigger] values@[q] as nat == vs[q],
                mask == flag_mask(vs.take(j as int)),
                bitmask,
            decreases values@.len() - j,
        {
            proof {
                assert(vs.take(j + 1).drop_last() =~= vs.take(j as int));
                assert(vs.take(j + 1).last() == vs[j as int]);
            }
            mask = mask | (values[j] as u64);
            j = j + 1;
        }
        assert(vs.take(j as int) =~= vs);
        if v & !mask != 0 {
            return Err(DecodeError::InvalidFlag { flag_type: name.clone(), value: v });
        }
        Ok(())
    } else {
        let mut j: usize = 0;
        while j < values.len()
            invariant
                0 <= j <= values@.len(),
                values@.len() == vs.len(),
                vs == implied_values(enums@[i as int].entries@),
                i < enums@.len(),
                named_enum(enums@, f.enumtype.unwrap()@) == Some(i as int),
                f.enumtype is Some,
                !(f.mavtype is Array),
                run@.len() > 0,
                v == run@[0],
                bitmask == shown_as_bitmask(*f),
                forall|q: int| 0 <= q < values@.len() ==> #[trigger] values@[q] as nat == vs[q],
                forall|q: int| 0 <= q < j ==> vs[q] != v as nat,
                !bitmask,
            decreases values@.len() - j,
        {
            if values[j] as u64 == v {
                assert(vs[j as int] == v as nat);
                assert(0 <= j < vs.len() && vs[j as int] == v as nat);
                return Ok(());
            }
            j = j + 1;
        }
        Err(DecodeError::InvalidEnum { enum_type: name.clone(), value: v })
    }
}

/// Decodes a payload: reads the raw field values (zero-extending a short
/// payload), then refuses the first field, in order, whose value its enum
/// does not accept. Never fabricates a value for a refused field.
pub fn decode_payload(fields: &Vec<MavField>, enums: &Vec<MavEnum>, payload: &Vec<u8>) -> (r: Result<Vec<Vec<u64>>, DecodeError>)
    requires
        fields_valid(fields@),
        frame_len(fields@) <= usize::MAX,
        enum_names_unique(enums@),
        enums_fit(enums@),
    ensures
        ({
            let raw = read_fields(zero_extended(payload@, frame_len(fields@)), 0, fields@);
            &&& (forall|i: int| 0 <= i < fields@.len() ==> field_rejection(#[trigger] fields@[i], enums@, raw[i]) is None)
                ==> r is Ok && values_view(r->Ok_0@) == raw
            &&& r is Err ==> exists|i: int| 0 <= i < fields@.len() && {
                &&& (forall|j: int| 0 <= j < i ==> field_rejection(#[trigger] fields@[j], enums@, raw[j]) is None)
                &&& match field_rejection(#[trigger] fields@[i], enums@, raw[i]) {
                    None => false,
                    Some(true) => r->Err_0 matches DecodeError::InvalidFlag { flag_type, value }
                        && flag_type@ == fields@[i].enumtype.unwrap()@ && value == raw[i][0],
                    Some(false) => r->Err_0 matches DecodeError::InvalidEnum { enum_type, value }
                        && enum_type@ == fields@[i].enumtype.unwrap()@ && value == raw[i][0],
                }
            }
            &&& (exists|i: int| 0 <= i < fields@.len() && field_rejection(#[trigger] fields@[i], enums@, raw[i]) is Some) ==> r is Err
        }),
{
    let values = read_payload(fields, payload);
    let ghost raw = read_fields(zero_extended(payload@, frame_len(fields@)), 0, fields@);
    proof {
        lemma_read_fields_len(zero_extended(payload@, frame_len(fields@)), 0, fields@);
    }
    let mut i: usize = 0;
    while i < fields.len()
        invariant
            raw == read_fields(zero_extended(payload@, frame_len(fields@)), 0, fields@),
            values_view(values@) == raw,
            raw.len() == fields@.len(),
            enum_names_unique(enums@),
            enums_fit(enums@),
            0 <= i <= fields@.len(),
            forall|j: int| 0 <= j < i ==> field_rejection(#[trigger] fields@[j], enums@, raw[j]) is None,
        decreases fields@.len() - i,
    {
        assert(values@[i as int]@ == raw[i as int]);
        match check_field(&fields[i], enums, &values[i]) {
            Ok(()) => {},
            Err(e) => {
                proof {
                    let ii = i as int;
                    assert(values@[ii]@ == raw[ii]);
                    let rej = field_rejection(fields@[ii], enums@, raw[ii]);
                    assert(rej is Some);
                    assert(match rej {
                        None => false,
                        Some(true) => e matches DecodeError::InvalidFlag { flag_type, value }
                            && flag_type@ == fields@[ii].enumtype.unwrap()@ && value == raw[ii][0],
                        Some(false) => e matches DecodeError::InvalidEnum { enum_type, value }
                            && enum_type@ == fields@[ii].enumtype.unwrap()@ && value == raw[ii][0],
                    });
                    assert(forall|j: int| 0 <= j < ii ==> field_rejection(#[trigger] fields@[j], enums@, raw[j]) is None);
                    assert(!(forall|q: int| 0 <= q < fields@.len() ==> field_rejection(#[trigger] fields@[q], enums@, raw[q]) is None));
                    assert(exists|q: int| 0 <= q < fields@.len() && {
                        &&& (forall|j: int| 0 <= j < q ==> field_rejection(#[trigger] fields@[j], enums@, raw[j]) is None)
                        &&& match field_rejection(#[trigger] fields@[q], enums@, raw[q]) {
                            None => false,
                            Some(true) => e matches DecodeError::InvalidFlag { flag_type, value }
                                && flag_type@ == fields@[q].enumtype.unwrap()@ && value == raw[q][0],
                            Some(false) => e matches DecodeError::InvalidEnum { enum_type, value }
                                && enum_type@ == fields@[q].enumtype.unwrap()@ && value == raw[q][0],
                        }
                    });
                }
                return Err(e);
            },
        }
        i = i + 1;
    }
    Ok(values)
}

proof fn lemma_read_fields_len(bs: Seq<u8>, pos: int, fs: Seq<MavField>)
    ensures
        read_fields(bs, pos, fs).len() == fs.len(),
    decreases fs.len(),
{
    if fs.len() > 0 {
        let t = fs[0].mavtype;
        lemma_read_fields_len(bs, pos + elem_width(t) * elem_count(t), fs.drop_first());
    }
}

} // verus!

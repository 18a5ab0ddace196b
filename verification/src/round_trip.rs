//! What reading a packet gives back of what was written into it.
//!
//! A packet written value by value with [`crate::packet::PacketWriter`]
//! leaves the bytes that [`write_from`] describes; the reader decodes them
//! with the reads of [`spec_read_plan`]. The law here says that the two
//! agree: the decoding gives back each value written.

use crate::metadata::{ValueDefView, ValueKind};
use crate::packet::{
    bit_chunks, bits_value, bool_run_end, bool_run_total, counts_nonzero, kind_of, lemma_header_read_back,
    lemma_packed_bools_read_back, lemma_packed_byte_value, lemma_read_plan_exists, packed_byte, push_bit, spec_decode, spec_read_plan, unpack_bits,
    value_bytes, value_of, value_size, write_from, write_step, PacketHeader, ReadStep,
    PACKET_HEADER_SIZE,
};
use crate::value::PacketValue;
use crate::wire::{le16, le32, le64, splice};
use crate::BinaryDeserializeError;
use vstd::bytes::*;
use vstd::prelude::*;

verus! {

/// The kinds of the values that the definitions `vs` from index `i` on
/// list, each definition's kind `count` times.
pub open spec fn value_kinds(vs: Seq<ValueDefView>, i: int) -> Seq<ValueKind>
    decreases vs.len() - i,
{
    if i < 0 || i >= vs.len() {
        Seq::empty()
    } else {
        Seq::new(vs[i].count as nat, |k: int| vs[i].kind) + value_kinds(vs, i + 1)
    }
}

/// The packed bytes of the booleans `ws`: eight to a byte, the last byte
/// holding the rest.
pub open spec fn packed_chunks(ws: Seq<bool>) -> Seq<u8> {
    Seq::new(
        ((ws.len() + 7) / 8) as nat,
        |j: int|
            packed_byte(
                ws.subrange(
                    8 * j,
                    if 8 * j + 8 <= ws.len() {
                        8 * j + 8
                    } else {
                        ws.len() as int
                    },
                ),
            ),
    )
}

/// The bytes of the values `a`, none of them a boolean, one after the
/// other.
pub open spec fn values_bytes(a: Seq<PacketValue>) -> Seq<u8>
    decreases a.len(),
{
    if a.len() == 0 {
        Seq::empty()
    } else {
        value_bytes(a[0]) + values_bytes(a.drop_first())
    }
}

/// The reads of the values `a`, one each.
pub open spec fn value_steps(a: Seq<PacketValue>) -> Seq<ReadStep> {
    Seq::new(a.len(), |k: int| ReadStep::Value(kind_of(a[k])))
}

/// A value other than a boolean reads back from its bytes.
proof fn lemma_value_reads_back(v: PacketValue)
    requires
        kind_of(v) != ValueKind::Bool,
    ensures
        value_size(kind_of(v)) == value_bytes(v).len(),
        value_of(kind_of(v), value_bytes(v)) == v,
{
    crate::wire::lemma_le_lengths();
    match v {
        PacketValue::I8(x) => {
            assert((x as u8) as i8 == x) by (bit_vector);
        },
        PacketValue::I16(x) => {
            let y: u16 = x as u16;
            assert(le16(y).len() == 2);
            assert((x as u16) as i16 == x) by (bit_vector);
        },
        PacketValue::I32(x) => {
            let y: u32 = x as u32;
            assert(le32(y).len() == 4);
            assert((x as u32) as i32 == x) by (bit_vector);
        },
        PacketValue::U16(x) => {
            assert(le16(x).len() == 2);
        },
        PacketValue::U32(x) => {
            assert(le32(x).len() == 4);
        },
        PacketValue::F32(x) => {
            assert(le32(x).len() == 4);
        },
        PacketValue::U64(x) => {
            assert(le64(x).len() == 8);
        },
        _ => {},
    }
}

proof fn lemma_values_bytes_push(a: Seq<PacketValue>, v: PacketValue)
    ensures
        values_bytes(a.push(v)) == values_bytes(a) + value_bytes(v),
    decreases a.len(),
{
    if a.len() == 0 {
        assert(a.push(v)[0] == v);
        assert(a.push(v).drop_first() =~= Seq::<PacketValue>::empty());
        assert(values_bytes(Seq::<PacketValue>::empty()) =~= Seq::<u8>::empty());
        assert(a =~= Seq::<PacketValue>::empty());
        assert(values_bytes(a.push(v)) =~= values_bytes(a) + value_bytes(v));
    } else {
        assert(a.push(v).drop_first() =~= a.drop_first().push(v));
        lemma_values_bytes_push(a.drop_first(), v);
        assert(values_bytes(a.push(v)) =~= values_bytes(a) + value_bytes(v));
    }
}

/// Writing values one after the other from `s` is writing the first part,
/// then the second.
proof fn lemma_write_from_concat(s: (Seq<u8>, u8), a: Seq<PacketValue>, b: Seq<PacketValue>)
    ensures
        write_from(s, a + b) == write_from(write_from(s, a), b),
    decreases b.len(),
{
    if b.len() == 0 {
        assert(a + b =~= a);
    } else {
        assert((a + b).drop_last() =~= a + b.drop_last());
        assert((a + b).last() == b.last());
        lemma_write_from_concat(s, a, b.drop_last());
    }
}

/// Writing from bytes `p` with no booleans pending keeps `p` in front.
proof fn lemma_write_from_keeps(p: Seq<u8>, x: Seq<PacketValue>)
    ensures
        write_from((p, 0u8), x).0.len() >= p.len(),
        write_from((p, 0u8), x).0.take(p.len() as int) == p,
        write_from((p, 0u8), x).1 > 0 ==> write_from((p, 0u8), x).0.len() > p.len(),
    decreases x.len(),
{
    if x.len() == 0 {
        assert(p.take(p.len() as int) =~= p);
    } else {
        lemma_write_from_keeps(p, x.drop_last());
        let q = write_from((p, 0u8), x.drop_last()).0;
        let r = write_from((p, 0u8), x).0;
        assert(r.take(p.len() as int) =~= q.take(p.len() as int));
    }
}

/// Values other than booleans are written as their bytes, one after the
/// other.
proof fn lemma_write_values(p: Seq<u8>, a: Seq<PacketValue>)
    requires
        forall|k: int| 0 <= k < a.len() ==> kind_of(#[trigger] a[k]) != ValueKind::Bool,
    ensures
        write_from((p, 0u8), a) == (p + values_bytes(a), 0u8),
    decreases a.len(),
{
    if a.len() == 0 {
        assert(p + values_bytes(a) =~= p);
    } else {
        let d = a.drop_last();
        assert forall|k: int| 0 <= k < d.len() implies kind_of(#[trigger] d[k]) != ValueKind::Bool by {
            assert(d[k] == a[k]);
        }
        lemma_write_values(p, d);
        assert(a =~= d.push(a.last()));
        lemma_values_bytes_push(d, a.last());
        assert(kind_of(a[a.len() - 1]) != ValueKind::Bool);
        assert(p + values_bytes(d) + value_bytes(a.last()) =~= p + values_bytes(a));
    }
}

/// Booleans are written packed, eight to a byte.
proof fn lemma_write_bools(p: Seq<u8>, ws: Seq<bool>)
    ensures
        write_from((p, 0u8), ws.map_values(|w: bool| PacketValue::Bool(w))) == (
            p + packed_chunks(ws),
            (ws.len() % 8) as u8,
        ),
    decreases ws.len(),
{
    let f = |w: bool| PacketValue::Bool(w);
    let x = ws.map_values(f);
    if ws.len() == 0 {
        assert(packed_chunks(ws) =~= Seq::<u8>::empty());
        assert(p + packed_chunks(ws) =~= p);
    } else {
        let d = ws.drop_last();
        let w = ws.last();
        let n = d.len() as int;
        lemma_write_bools(p, d);
        assert(x.drop_last() =~= d.map_values(f));
        assert(x.last() == PacketValue::Bool(w));
        let pc = packed_chunks(d);
        let nc = packed_chunks(ws);
        if n % 8 == 0 {
            assert(nc.len() == pc.len() + 1);
            assert forall|j: int| 0 <= j < pc.len() implies nc[j] == pc[j] by {
                assert(ws.subrange(8 * j, 8 * j + 8) =~= d.subrange(8 * j, 8 * j + 8));
            }
            let last = ws.subrange(n, n + 1);
            assert(last.drop_last() =~= Seq::<bool>::empty());
            assert(packed_byte(Seq::<bool>::empty()) == 0u8);
            assert(last.last() == w);
            assert(nc[pc.len() as int] == packed_byte(last));
            assert(packed_byte(last) == push_bit(0u8, w));
            assert(p + nc =~= (p + pc).push(push_bit(0u8, w)));
        } else {
            assert(nc.len() == pc.len());
            let jl = n / 8;
            assert(pc.len() == jl + 1);
            assert forall|j: int| 0 <= j < jl implies nc[j] == pc[j] by {
                assert(ws.subrange(8 * j, 8 * j + 8) =~= d.subrange(8 * j, 8 * j + 8));
            }
            let old_chunk = d.subrange(8 * jl, n);
            let new_chunk = ws.subrange(8 * jl, n + 1);
            assert(new_chunk.drop_last() =~= old_chunk);
            assert(new_chunk.last() == w);
            assert(nc[jl] == push_bit(pc[jl], w));
            assert((p + pc).last() == pc[jl]);
            assert(p + nc =~= (p + pc).update((p + pc).len() - 1, push_bit((p + pc).last(), w)));
        }
    }
}

/// The reads of booleans packed eight to a byte give them back, and the
/// reads after them go on right after their bytes.
proof fn lemma_read_bools(buf: Seq<u8>, pos: int, ws: Seq<bool>, rest: Seq<ReadStep>)
    requires
        ws.len() >= 1,
        0 <= pos,
        pos + packed_chunks(ws).len() <= buf.len(),
        buf.subrange(pos, pos + packed_chunks(ws).len()) == packed_chunks(ws),
    ensures
        spec_decode(buf, pos, bit_chunks(ws.len() as int) + rest) == ws.map_values(
            |w: bool| Ok::<PacketValue, BinaryDeserializeError>(PacketValue::Bool(w)),
        ) + spec_decode(buf, pos + packed_chunks(ws).len(), rest),
    decreases ws.len(),
{
    let g = |w: bool| Ok::<PacketValue, BinaryDeserializeError>(PacketValue::Bool(w));
    let t = ws.len() as int;
    let pc = packed_chunks(ws);
    assert(buf[pos] == pc[0]);
    let steps = bit_chunks(t) + rest;
    if t <= 8 {
        assert(bit_chunks(t) =~= seq![ReadStep::Bits(t as u8)]);
        assert(ws.subrange(0, t) =~= ws);
        lemma_packed_bools_read_back(ws);
        assert(pc.len() == 1);
        assert(steps[0] == ReadStep::Bits(t as u8));
        assert(steps.drop_first() =~= rest);
    } else {
        let head = ws.take(8);
        let tail = ws.skip(8);
        assert(ws.subrange(0, 8) =~= head);
        lemma_packed_bools_read_back(head);
        let tc = packed_chunks(tail);
        assert(tc.len() == pc.len() - 1);
        assert forall|j: int| 0 <= j < tc.len() implies tc[j] == pc[j + 1] by {
            let hi = if 8 * j + 8 <= tail.len() {
                8 * j + 8
            } else {
                tail.len() as int
            };
            assert(tail.subrange(8 * j, hi) =~= ws.subrange(8 * j + 8, hi + 8));
        }
        assert(buf.subrange(pos + 1, pos + 1 + tc.len()) =~= tc);
        lemma_read_bools(buf, pos + 1, tail, rest);
        assert(bit_chunks(t).drop_first() =~= bit_chunks(t - 8));
        assert(steps[0] == ReadStep::Bits(8));
        assert(steps.drop_first() =~= bit_chunks(t - 8) + rest);
        assert(ws.map_values(g) =~= head.map_values(g) + tail.map_values(g));
    }
}

/// The reads of values other than booleans give them back, and the reads
/// after them go on right after their bytes.
proof fn lemma_read_values(buf: Seq<u8>, pos: int, a: Seq<PacketValue>, rest: Seq<ReadStep>)
    requires
        forall|k: int| 0 <= k < a.len() ==> kind_of(#[trigger] a[k]) != ValueKind::Bool,
        0 <= pos,
        pos + values_bytes(a).len() <= buf.len(),
        buf.subrange(pos, pos + values_bytes(a).len()) == values_bytes(a),
    ensures
        spec_decode(buf, pos, value_steps(a) + rest) == a.map_values(
            |v: PacketValue| Ok::<PacketValue, BinaryDeserializeError>(v),
        ) + spec_decode(buf, pos + values_bytes(a).len(), rest),
    decreases a.len(),
{
    let g = |v: PacketValue| Ok::<PacketValue, BinaryDeserializeError>(v);
    if a.len() == 0 {
        assert(value_steps(a) + rest =~= rest);
        assert(a.map_values(g) + spec_decode(buf, pos, rest) =~= spec_decode(buf, pos, rest));
    } else {
        let v = a[0];
        let d = a.drop_first();
        let size = value_size(kind_of(v));
        lemma_value_reads_back(v);
        assert forall|k: int| 0 <= k < d.len() implies kind_of(#[trigger] d[k]) != ValueKind::Bool by {
            assert(d[k] == a[k + 1]);
        }
        let vb = values_bytes(a);
        assert(vb == value_bytes(v) + values_bytes(d));
        assert(buf.subrange(pos, pos + size) =~= vb.subrange(0, size));
        assert(vb.subrange(0, size) =~= value_bytes(v));
        assert(vb.subrange(size, vb.len() as int) =~= values_bytes(d));
        assert(buf.subrange(pos + size, pos + size + values_bytes(d).len()) =~= vb.subrange(size, vb.len() as int));
        lemma_read_values(buf, pos + size, d, rest);
        let steps = value_steps(a) + rest;
        assert(steps[0] == ReadStep::Value(kind_of(v)));
        assert(steps.drop_first() =~= value_steps(d) + rest);
        assert(a.map_values(g) =~= seq![g(v)] + d.map_values(g));
    }
}

/// A run of `Bool` definitions starting at `i`: it ends at
/// `bool_run_end(vs, i)`, before a definition of another kind or at the end,
/// and its values are its booleans, followed by those of the definitions
/// after it.
proof fn lemma_bool_run(vs: Seq<ValueDefView>, i: int)
    requires
        0 <= i < vs.len(),
        vs[i].kind == ValueKind::Bool,
    ensures
        bool_run_end(vs, i) == bool_run_end(vs, i + 1),
        i < bool_run_end(vs, i) <= vs.len(),
        bool_run_end(vs, i) < vs.len() ==> vs[bool_run_end(vs, i)].kind != ValueKind::Bool,
        value_kinds(vs, i) == Seq::new(bool_run_total(vs, i) as nat, |k: int| ValueKind::Bool) + value_kinds(
            vs,
            bool_run_end(vs, i),
        ),
        bool_run_total(vs, i) >= vs[i].count,
    decreases vs.len() - i,
{
    let b = |k: int| ValueKind::Bool;
    if i + 1 < vs.len() && vs[i + 1].kind == ValueKind::Bool {
        lemma_bool_run(vs, i + 1);
        let end = bool_run_end(vs, i);
        assert(value_kinds(vs, i) =~= Seq::new(bool_run_total(vs, i) as nat, b) + value_kinds(vs, end));
    } else {
        assert(bool_run_end(vs, i + 1) == i + 1);
        assert(bool_run_total(vs, i + 1) == 0);
        assert(value_kinds(vs, i) =~= Seq::new(bool_run_total(vs, i) as nat, b) + value_kinds(vs, i + 1));
    }
}

/// After values of which the first is not a boolean, or after no values,
/// the booleans that were pending do not matter to the bytes.
proof fn lemma_pending_bits_ended(q: Seq<u8>, bits: u8, y: Seq<PacketValue>)
    requires
        y.len() == 0 || kind_of(y[0]) != ValueKind::Bool,
    ensures
        write_from((q, bits), y).0 == write_from((q, 0u8), y).0,
{
    if y.len() > 0 {
        let first = seq![y[0]];
        assert(y =~= first + y.drop_first());
        lemma_write_from_concat((q, bits), first, y.drop_first());
        lemma_write_from_concat((q, 0u8), first, y.drop_first());
        assert(first.drop_last() =~= Seq::<PacketValue>::empty());
        assert(first.last() == y[0]);
        assert(write_from((q, bits), Seq::<PacketValue>::empty()) == (q, bits));
        assert(write_from((q, 0u8), Seq::<PacketValue>::empty()) == (q, 0u8));
        assert(write_from((q, bits), first) == write_step((q, bits), y[0]));
        assert(write_from((q, 0u8), first) == write_step((q, 0u8), y[0]));
        assert(write_step((q, bits), y[0]) == (q + value_bytes(y[0]), 0u8));
    }
}

/// The decoding from definition `i` on gives back the values written for
/// those definitions after the bytes `pre`.
#[verifier::spinoff_prover]
#[verifier::rlimit(40)]
proof fn lemma_decode_from(vs: Seq<ValueDefView>, i: int, pre: Seq<u8>, x: Seq<PacketValue>, buf: Seq<u8>)
    requires
        0 <= i <= vs.len(),
        spec_read_plan(vs, i) is Some,
        x.map_values(|v: PacketValue| kind_of(v)) == value_kinds(vs, i),
        write_from((pre, 0u8), x).0.len() <= buf.len(),
        buf.take(write_from((pre, 0u8), x).0.len() as int) == write_from((pre, 0u8), x).0,
    ensures
        spec_decode(buf, pre.len() as int, spec_read_plan(vs, i)->0) == x.map_values(
            |v: PacketValue| Ok::<PacketValue, BinaryDeserializeError>(v),
        ),
    decreases vs.len() - i,
{
    let g = |v: PacketValue| Ok::<PacketValue, BinaryDeserializeError>(v);
    let kf = |v: PacketValue| kind_of(v);
    let out = write_from((pre, 0u8), x).0;
    lemma_write_from_keeps(pre, x);
    if i == vs.len() {
        assert(value_kinds(vs, i) =~= Seq::<ValueKind>::empty());
        assert(x.map_values(kf).len() == x.len());
        assert(x.len() == 0);
        assert(x.map_values(g) =~= Seq::<Result<PacketValue, BinaryDeserializeError>>::empty());
    } else if vs[i].kind != ValueKind::Bool {
        let c = vs[i].count as int;
        let a = x.take(c);
        let y = x.skip(c);
        assert(x.map_values(kf).len() == c + value_kinds(vs, i + 1).len());
        assert forall|k: int| 0 <= k < a.len() implies kind_of(#[trigger] a[k]) == vs[i].kind by {
            assert(x.map_values(kf)[k] == value_kinds(vs, i)[k]);
        }
        assert(y.map_values(kf) =~= value_kinds(vs, i + 1)) by {
            assert forall|k: int| 0 <= k < y.len() implies #[trigger] y.map_values(kf)[k] == value_kinds(vs, i + 1)[k] by {
                assert(x.map_values(kf)[k + c] == value_kinds(vs, i)[k + c]);
            }
        }
        assert(x =~= a + y);
        lemma_write_from_concat((pre, 0u8), a, y);
        lemma_write_values(pre, a);
        let pre2 = pre + values_bytes(a);
        lemma_decode_from(vs, i + 1, pre2, y, buf);
        lemma_write_from_keeps(pre2, y);
        assert(buf.subrange(pre.len() as int, pre.len() as int + values_bytes(a).len()) =~= values_bytes(a)) by {
            let p0 = pre.len() as int;
            let p2 = pre2.len() as int;
            assert(write_from((pre, 0u8), x) == write_from((pre2, 0u8), y));
            assert(out.take(p2) == pre2);
            assert forall|k: int| 0 <= k < p2 - p0 implies #[trigger] buf.subrange(p0, p2)[k] == values_bytes(a)[k] by {
                assert(buf.take(out.len() as int)[p0 + k] == out[p0 + k]);
                assert(out.take(p2)[p0 + k] == pre2[p0 + k]);
            }
        }
        let rest = spec_read_plan(vs, i + 1)->0;
        lemma_read_values(buf, pre.len() as int, a, rest);
        assert(value_steps(a) =~= Seq::new(vs[i].count as nat, |k: int| ReadStep::Value(vs[i].kind)));
        assert(x.map_values(g) =~= a.map_values(g) + y.map_values(g));
    } else {
        lemma_bool_run(vs, i);
        let t = bool_run_total(vs, i);
        let end = bool_run_end(vs, i);
        let rest = spec_read_plan(vs, end)->0;
        assert(spec_read_plan(vs, end) is Some);
        assert(spec_read_plan(vs, i)->0 == bit_chunks(t) + rest);
        let a = x.take(t);
        let y = x.skip(t);
        assert(x.map_values(kf).len() == x.len());
        assert(x.len() == t + value_kinds(vs, end).len());
        let ws = Seq::new(a.len(), |k: int| a[k] matches PacketValue::Bool(b) && b);
        assert forall|k: int| 0 <= k < a.len() implies #[trigger] a[k] == PacketValue::Bool(ws[k]) by {
            assert(x.map_values(kf)[k] == kind_of(x[k]));
            assert(value_kinds(vs, i)[k] == ValueKind::Bool);
            assert(kind_of(a[k]) == ValueKind::Bool);
        }
        assert(a =~= ws.map_values(|w: bool| PacketValue::Bool(w)));
        assert(y.map_values(kf) =~= value_kinds(vs, end)) by {
            assert forall|k: int| 0 <= k < y.len() implies #[trigger] y.map_values(kf)[k] == value_kinds(vs, end)[k] by {
                assert(x.map_values(kf)[k + t] == value_kinds(vs, i)[k + t]);
            }
        }
        if y.len() > 0 {
            assert(end < vs.len()) by {
                if end >= vs.len() {
                    assert(value_kinds(vs, end) =~= Seq::<ValueKind>::empty());
                }
            }
            assert(vs[end].count > 0);
            assert(value_kinds(vs, end)[0] == vs[end].kind);
            assert(y.map_values(kf)[0] == kind_of(y[0]));
        }
        assert(x =~= a + y);
        lemma_write_from_concat((pre, 0u8), a, y);
        lemma_write_bools(pre, ws);
        let pc = packed_chunks(ws);
        let pre2 = pre + pc;
        lemma_pending_bits_ended(pre2, (ws.len() % 8) as u8, y);
        assert(out == write_from((pre2, 0u8), y).0);
        lemma_decode_from(vs, end, pre2, y, buf);
        lemma_write_from_keeps(pre2, y);
        assert(buf.subrange(pre.len() as int, pre.len() as int + pc.len()) =~= pc) by {
            let p0 = pre.len() as int;
            let p2 = pre2.len() as int;
            assert(out.take(p2) == pre2);
            assert forall|k: int| 0 <= k < p2 - p0 implies #[trigger] buf.subrange(p0, p2)[k] == pc[k] by {
                assert(buf.take(out.len() as int)[p0 + k] == out[p0 + k]);
                assert(out.take(p2)[p0 + k] == pre2[p0 + k]);
            }
        }
        assert(ws.len() >= 1);
        lemma_read_bools(buf, pre.len() as int, ws, rest);
        assert(x.map_values(g) =~= a.map_values(g) + y.map_values(g));
        assert(a.map_values(g) =~= ws.map_values(
            |w: bool| Ok::<PacketValue, BinaryDeserializeError>(PacketValue::Bool(w)),
        ));
    }
}

/// What writing values after some bytes leaves is those bytes followed by
/// what writing the values alone leaves.
pub proof fn lemma_write_after(p: Seq<u8>, x: Seq<PacketValue>)
    ensures
        write_from((p, 0u8), x) == (p + write_from((Seq::empty(), 0u8), x).0, write_from((Seq::empty(), 0u8), x).1),
    decreases x.len(),
{
    let e = Seq::<u8>::empty();
    if x.len() == 0 {
        assert(p + e =~= p);
    } else {
        let d = x.drop_last();
        lemma_write_after(p, d);
        lemma_write_from_keeps(e, d);
        let q = write_from((e, 0u8), d).0;
        let v = x.last();
        match v {
            PacketValue::Bool(b) => {
                if write_from((e, 0u8), d).1 == 0 {
                    assert((p + q).push(push_bit(0u8, b)) =~= p + q.push(push_bit(0u8, b)));
                } else {
                    assert((p + q).last() == q.last());
                    assert((p + q).update((p + q).len() - 1, push_bit(q.last(), b)) =~= p + q.update(
                        q.len() - 1,
                        push_bit(q.last(), b),
                    ));
                }
            },
            _ => {
                assert(p + q + value_bytes(v) =~= p + (q + value_bytes(v)));
            },
        }
    }
}

/// Setting a packet's timestamp after writing its values, as
/// [`crate::packet::PacketWriter::set_timestamp`] does, leaves what writing
/// them under a header with that timestamp from the start leaves.
pub proof fn lemma_timestamp_after_values(h: PacketHeader, timestamp: u16, vals: Seq<PacketValue>)
    ensures
        (
            splice(write_from((h.spec_encoding(), 0u8), vals).0, 1, le16(timestamp)),
            write_from((h.spec_encoding(), 0u8), vals).1,
        ) == write_from((PacketHeader { id: h.id, timestamp }.spec_encoding(), 0u8), vals),
{
    let h2 = PacketHeader { id: h.id, timestamp };
    lemma_write_after(h.spec_encoding(), vals);
    lemma_write_after(h2.spec_encoding(), vals);
    crate::wire::lemma_le_lengths();
    let q = write_from((Seq::<u8>::empty(), 0u8), vals).0;
    assert(le16(timestamp).len() == 2);
    assert(le16(h.timestamp).len() == 2);
    assert(splice(h.spec_encoding() + q, 1, le16(timestamp)) =~= h2.spec_encoding() + q);
}

/// A packet written value by value, one value for each that its definition
/// lists and of the kind listed, reads back as written: the header as the
/// header, and the decoding that [`crate::packet::PacketValueReader::read_values`]
/// makes with the definition's values as the values written, in order.
///
/// This holds wherever that decoding is defined: where no definition that
/// starts a read has a count of zero.
pub proof fn lemma_written_packet_reads_back(
    h: PacketHeader,
    vs: Seq<ValueDefView>,
    vals: Seq<PacketValue>,
    buf: Seq<u8>,
)
    requires
        spec_read_plan(vs, 0) is Some,
        vals.map_values(|v: PacketValue| kind_of(v)) == value_kinds(vs, 0),
        write_from((h.spec_encoding(), 0u8), vals).0.len() <= buf.len(),
        buf.take(write_from((h.spec_encoding(), 0u8), vals).0.len() as int) == write_from(
            (h.spec_encoding(), 0u8),
            vals,
        ).0,
    ensures
        buf[0] == h.id,
        spec_u16_from_le_bytes(buf.subrange(1, 3)) == h.timestamp,
        spec_decode(buf, PACKET_HEADER_SIZE as int, spec_read_plan(vs, 0)->0) == vals.map_values(
            |v: PacketValue| Ok::<PacketValue, BinaryDeserializeError>(v),
        ),
{
    let pre = h.spec_encoding();
    crate::wire::lemma_le_lengths();
    assert(pre.len() == PACKET_HEADER_SIZE);
    lemma_write_from_keeps(pre, vals);
    let out = write_from((pre, 0u8), vals).0;
    assert(buf.take(PACKET_HEADER_SIZE as int) =~= out.take(PACKET_HEADER_SIZE as int));
    lemma_header_read_back(h, buf);
    lemma_decode_from(vs, 0, pre, vals, buf);
}

/// Writing one to eight booleans, one after the other, with none pending
/// before, claims one byte after the bytes written before. That byte holds
/// the sum of each boolean's bit shifted by the number of booleans written
/// after it, and booleans are still pending exactly when fewer than eight
/// were written.
pub proof fn lemma_write_up_to_eight_bools(p: Seq<u8>, ws: Seq<bool>)
    requires
        1 <= ws.len() <= 8,
    ensures
        write_from((p, 0u8), ws.map_values(|w: bool| PacketValue::Bool(w))).0 == p.push(packed_byte(ws)),
        packed_byte(ws) as int == bits_value(ws),
        (write_from((p, 0u8), ws.map_values(|w: bool| PacketValue::Bool(w))).1 > 0) <==> ws.len() < 8,
{
    lemma_write_bools(p, ws);
    let pc = packed_chunks(ws);
    assert(pc.len() == 1);
    assert(ws.subrange(0, ws.len() as int) =~= ws);
    assert(pc[0] == packed_byte(ws));
    assert(p + pc =~= p.push(packed_byte(ws)));
    lemma_packed_byte_value(ws);
}

/// A packet whose definitions all have a nonzero count, in any order of
/// kinds, always decodes, and a packet written value by value for those
/// definitions reads back as written.
pub proof fn lemma_written_packet_with_counts_reads_back(
    h: PacketHeader,
    vs: Seq<ValueDefView>,
    vals: Seq<PacketValue>,
    buf: Seq<u8>,
)
    requires
        counts_nonzero(vs),
        vals.map_values(|v: PacketValue| kind_of(v)) == value_kinds(vs, 0),
        write_from((h.spec_encoding(), 0u8), vals).0.len() <= buf.len(),
        buf.take(write_from((h.spec_encoding(), 0u8), vals).0.len() as int) == write_from(
            (h.spec_encoding(), 0u8),
            vals,
        ).0,
    ensures
        spec_read_plan(vs, 0) is Some,
        buf[0] == h.id,
        spec_u16_from_le_bytes(buf.subrange(1, 3)) == h.timestamp,
        spec_decode(buf, PACKET_HEADER_SIZE as int, spec_read_plan(vs, 0)->0) == vals.map_values(
            |v: PacketValue| Ok::<PacketValue, BinaryDeserializeError>(v),
        ),
{
    lemma_read_plan_exists(vs, 0);
    lemma_written_packet_reads_back(h, vs, vals, buf);
}

} // verus!

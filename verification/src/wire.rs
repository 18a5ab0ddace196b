//! Byte-level helpers shared by the serializers and deserializers: copying
//! a run of bytes into a buffer and the little-endian integer encodings.

use crate::{BinarySerializable, BinarySerializeError};
use vstd::bytes::*;
use vstd::prelude::*;

verus! {

/// `s` with the bytes starting at `at` replaced by `data`.
pub open spec fn splice(s: Seq<u8>, at: int, data: Seq<u8>) -> Seq<u8> {
    s.take(at) + data + s.skip(at + data.len())
}

/// `new` is `old` with some prefix of `bytes` written over its start.
///
/// This is what a serializer leaves behind when it runs out of room: every
/// byte it wrote is the byte the full encoding has at that place.
pub open spec fn holds_prefix_of(old: Seq<u8>, new: Seq<u8>, bytes: Seq<u8>) -> bool {
    exists|k: int|
        0 <= k <= bytes.len() && k <= old.len() && #[trigger] splice(old, 0, bytes.take(k)) == new
}

/// The bytes up to the end of a splice are those before it and the data.
pub proof fn lemma_splice_take(s: Seq<u8>, at: int, data: Seq<u8>)
    requires
        0 <= at,
        at + data.len() <= s.len(),
    ensures
        splice(s, at, data).take(at + data.len()) == s.take(at) + data,
{
    assert(splice(s, at, data).take(at + data.len()) =~= s.take(at) + data);
}

/// Little-endian encoding of a `u16`.
pub open spec fn le16(v: u16) -> Seq<u8> {
    spec_u16_to_le_bytes(v)
}

/// Little-endian encoding of a `u32`.
pub open spec fn le32(v: u32) -> Seq<u8> {
    spec_u32_to_le_bytes(v)
}

/// Little-endian encoding of a `u64`.
pub open spec fn le64(v: u64) -> Seq<u8> {
    spec_u64_to_le_bytes(v)
}

pub proof fn lemma_le_lengths()
    ensures
        forall|v: u16| #[trigger] le16(v).len() == 2 && spec_u16_from_le_bytes(le16(v)) == v,
        forall|v: u32| #[trigger] le32(v).len() == 4 && spec_u32_from_le_bytes(le32(v)) == v,
        forall|v: u64| #[trigger] le64(v).len() == 8 && spec_u64_from_le_bytes(le64(v)) == v,
{
    lemma_auto_spec_u16_to_from_le_bytes();
    lemma_auto_spec_u32_to_from_le_bytes();
    lemma_auto_spec_u64_to_from_le_bytes();
    assert forall|v: u16| #[trigger] le16(v).len() == 2 && spec_u16_from_le_bytes(le16(v)) == v by {
        assert(spec_u16_to_le_bytes(v).len() == 2);
    }
    assert forall|v: u32| #[trigger] le32(v).len() == 4 && spec_u32_from_le_bytes(le32(v)) == v by {
        assert(spec_u32_to_le_bytes(v).len() == 4);
    }
    assert forall|v: u64| #[trigger] le64(v).len() == 8 && spec_u64_from_le_bytes(le64(v)) == v by {
        assert(spec_u64_to_le_bytes(v).len() == 8);
    }
}

/// A serializer that has written the first `mid` bytes of `whole` over
/// `start` and then, into the bytes after them, a prefix of the next piece of
/// `whole`, has written a prefix of `whole`.
pub proof fn lemma_prefix_extends(start: Seq<u8>, mid: int, whole: Seq<u8>, piece: Seq<u8>, new_tail: Seq<u8>)
    requires
        0 <= mid <= start.len(),
        mid + piece.len() <= whole.len(),
        whole.subrange(mid, mid + piece.len()) == piece,
        holds_prefix_of(splice(start, 0, whole.take(mid)).skip(mid), new_tail, piece),
    ensures
        holds_prefix_of(start, splice(start, 0, whole.take(mid)).take(mid) + new_tail, whole),
{
    let cur = splice(start, 0, whole.take(mid));
    let k = choose|k: int|
        0 <= k <= piece.len() && k <= cur.skip(mid).len() && #[trigger] splice(cur.skip(mid), 0, piece.take(k))
            == new_tail;
    assert(splice(start, 0, whole.take(mid + k)) =~= cur.take(mid) + new_tail);
}

/// Copies `src` into `buf` starting at `at`.
pub fn copy_into(buf: &mut [u8], at: usize, src: &[u8])
    requires
        at + src@.len() <= old(buf)@.len(),
    ensures
        final(buf)@ == splice(old(buf)@, at as int, src@),
{
    let n = src.len();
    let blen = buf.len();
    let mut i: usize = 0;
    while i < n
        invariant
            0 <= i <= n,
            n == src@.len(),
            blen == buf@.len(),
            buf@.len() == old(buf)@.len(),
            at + n <= buf@.len(),
            buf@ == splice(old(buf)@, at as int, src@.take(i as int)),
        decreases n - i,
    {
        buf[at + i] = src[i];
        assert(buf@ =~= splice(old(buf)@, at as int, src@.take(i + 1)));
        i = i + 1;
    }
    assert(src@.take(n as int) =~= src@);
}

/// Writes `v` in little-endian order at `at`.
pub fn put_u16(buf: &mut [u8], at: usize, v: u16)
    requires
        at + 2 <= old(buf)@.len(),
    ensures
        final(buf)@ == splice(old(buf)@, at as int, le16(v)),
{
    let bytes = u16_to_le_bytes(v);
    proof {
        lemma_le_lengths();
    }
    copy_into(buf, at, bytes.as_slice());
}

/// Writes `v` in little-endian order at `at`.
pub fn put_u32(buf: &mut [u8], at: usize, v: u32)
    requires
        at + 4 <= old(buf)@.len(),
    ensures
        final(buf)@ == splice(old(buf)@, at as int, le32(v)),
{
    let bytes = u32_to_le_bytes(v);
    proof {
        lemma_le_lengths();
    }
    copy_into(buf, at, bytes.as_slice());
}

/// Writes `v` in little-endian order at `at`.
pub fn put_u64(buf: &mut [u8], at: usize, v: u64)
    requires
        at + 8 <= old(buf)@.len(),
    ensures
        final(buf)@ == splice(old(buf)@, at as int, le64(v)),
{
    let bytes = u64_to_le_bytes(v);
    proof {
        lemma_le_lengths();
    }
    copy_into(buf, at, bytes.as_slice());
}

/// The encodings of `items`, one after the other.
pub open spec fn spec_concat<T: BinarySerializable>(items: Seq<T>) -> Seq<u8>
    decreases items.len(),
{
    if items.len() == 0 {
        Seq::empty()
    } else {
        spec_concat(items.drop_last()) + items.last().spec_encoding()
    }
}

/// The encodings of the first `j` items start the encodings of them all.
pub proof fn lemma_concat_prefix<T: BinarySerializable>(items: Seq<T>, j: int)
    requires
        0 <= j <= items.len(),
    ensures
        spec_concat(items.take(j)).len() <= spec_concat(items).len(),
        spec_concat(items).take(spec_concat(items.take(j)).len() as int) == spec_concat(items.take(j)),
    decreases items.len(),
{
    if j == items.len() {
        assert(items.take(j) =~= items);
        assert(spec_concat(items).take(spec_concat(items).len() as int) =~= spec_concat(items));
    } else {
        let d = items.drop_last();
        assert(items.take(j) =~= d.take(j));
        lemma_concat_prefix(d, j);
        let e = spec_concat(items);
        let ed = spec_concat(d);
        let ej = spec_concat(d.take(j));
        assert(e.take(ej.len() as int) =~= ed.take(ej.len() as int));
    }
}

/// One more item's encoding.
pub proof fn lemma_concat_step<T: BinarySerializable>(items: Seq<T>, i: int)
    requires
        0 <= i < items.len(),
    ensures
        spec_concat(items.take(i + 1)) == spec_concat(items.take(i)) + items[i].spec_encoding(),
{
    assert(items.take(i + 1).drop_last() =~= items.take(i));
}

/// A serializer that had written the first `mid` bytes of `whole` over
/// `start`, keeps them, and writes a prefix of the rest of `whole` after
/// them, has written a prefix of `whole`.
pub proof fn lemma_prefix_continues(start: Seq<u8>, mid: int, whole: Seq<u8>, new: Seq<u8>)
    requires
        0 <= mid <= start.len(),
        mid <= whole.len(),
        new.len() == start.len(),
        new.take(mid) == whole.take(mid),
        holds_prefix_of(start.skip(mid), new.skip(mid), whole.skip(mid)),
    ensures
        holds_prefix_of(start, new, whole),
{
    let piece = whole.skip(mid);
    let k = choose|k: int|
        0 <= k <= piece.len() && k <= start.skip(mid).len() && #[trigger] splice(start.skip(mid), 0, piece.take(k))
            == new.skip(mid);
    assert(new =~= new.take(mid) + new.skip(mid));
    assert(whole.take(mid + k) =~= whole.take(mid) + piece.take(k));
    assert(splice(start, 0, whole.take(mid + k)) =~= new);
}

/// Serializes `items` one after the other into `buf`, starting at `at`.
///
/// Returns where the last encoding ends, or fails exactly when they do not
/// all fit, having then written a prefix of their encodings after `at`. The
/// bytes before `at` stay.
pub fn serialize_all<T: BinarySerializable>(items: &[T], buf: &mut [u8], at: usize) -> (r: Result<usize, BinarySerializeError>)
    requires
        at <= old(buf)@.len(),
    ensures
        final(buf)@.len() == old(buf)@.len(),
        final(buf)@.take(at as int) == old(buf)@.take(at as int),
        r is Ok <==> at + spec_concat(items@).len() <= old(buf)@.len(),
        r matches Ok(n) ==> n == at + spec_concat(items@).len() && final(buf)@ == splice(
            old(buf)@,
            at as int,
            spec_concat(items@),
        ),
        r is Err ==> holds_prefix_of(old(buf)@.skip(at as int), final(buf)@.skip(at as int), spec_concat(items@)),
{
    let ghost start = buf@;
    let ghost all = spec_concat(items@);
    let len = buf.len();
    let n = items.len();
    let mut offset = at;
    let mut i: usize = 0;
    proof {
        lemma_concat_prefix(items@, n as int);
        assert(items@.take(n as int) =~= items@);
        assert(items@.take(0) =~= Seq::<T>::empty());
        assert(splice(start, at as int, spec_concat(items@.take(0))) =~= start);
    }
    while i < n
        invariant
            0 <= i <= n,
            n == items@.len(),
            len == buf@.len(),
            start == old(buf)@,
            start.len() == len,
            at <= offset <= len,
            all == spec_concat(items@),
            spec_concat(items@.take(n as int)) == all,
            offset == at + spec_concat(items@.take(i as int)).len(),
            buf@ == splice(start, at as int, spec_concat(items@.take(i as int))),
        decreases n - i,
    {
        let ghost before = buf@;
        let ghost done = spec_concat(items@.take(i as int));
        let ghost upto = spec_concat(items@.take(i + 1));
        let ghost piece = items@[i as int].spec_encoding();
        proof {
            lemma_concat_step(items@, i as int);
            lemma_concat_prefix(items@, i + 1);
            assert(upto =~= done + piece);
        }
        let ghost rest_after: Seq<u8>;
        let result = {
            let (first, rest) = buf.split_at_mut(offset);
            let res = items[i].serialize(rest);
            proof {
                rest_after = rest@;
            }
            res
        };
        assert(buf@ == before.take(offset as int) + rest_after);
        assert(rest_after.len() == len - offset);
        let size = match result {
            Ok(size) => size,
            Err(e) => {
                proof {
                    let k = choose|k: int|
                        0 <= k <= piece.len() && k <= before.skip(offset as int).len() && #[trigger] splice(
                            before.skip(offset as int),
                            0,
                            piece.take(k),
                        ) == rest_after;
                    assert(all.take(upto.len() as int) =~= upto);
                    assert(splice(start.skip(at as int), 0, all.take(done.len() + k)) =~= buf@.skip(at as int));
                    assert(buf@.take(at as int) =~= start.take(at as int));
                }
                return Err(e);
            },
        };
        assert(buf@ =~= splice(start, at as int, upto));
        offset = offset + size;
        i = i + 1;
    }
    assert(buf@.take(at as int) =~= start.take(at as int));
    Ok(offset)
}

} // verus!

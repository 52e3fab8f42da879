//! Facts about the GroupBinary layout.

use crate::gb_layout::{
    after_push, byte_width, decoded_deltas, decoding, delta_bytes, encoding, field,
    first_group_size, gaps, group_bytes, group_descriptor, group_payload, lanes,
    last_descriptor_position, last_group, last_group_start, le_byte, length_i, nondecreasing,
    packed, padded_group, previous, running_values, scalar_lanes, selector, shuffle_mask,
    shuffled, shuffled_byte, slot_bytes, slot_offset, slot_value, stream_bytes, surplus,
    takes_safe_path, total, total_length, width_field,
};
use crate::top_of;
use vstd::prelude::*;

verus! {

/// The width that a descriptor gives a slot, in terms of bits: the
/// descriptor moved two bits down for each slot in front, its two lowest
/// bits then, plus one.
pub proof fn lemma_length_i_by_bits(descriptor: u8)
    ensures
        length_i(descriptor, 0) == ((descriptor >> 0u8) & 3u8) + 1,
        length_i(descriptor, 1) == ((descriptor >> 2u8) & 3u8) + 1,
        length_i(descriptor, 2) == ((descriptor >> 4u8) & 3u8) + 1,
        length_i(descriptor, 3) == ((descriptor >> 6u8) & 3u8) + 1,
{
    assert(((descriptor >> 0u8) & 3u8) == descriptor % 4) by (bit_vector);
    assert(((descriptor >> 2u8) & 3u8) == (descriptor / 4) % 4) by (bit_vector);
    assert(((descriptor >> 4u8) & 3u8) == (descriptor / 16) % 4) by (bit_vector);
    assert(((descriptor >> 6u8) & 3u8) == (descriptor / 64) % 4) by (bit_vector);
}

/// The payload length that a descriptor gives a full group is the sum of the
/// widths of its four slots, each of them from one to four.
pub proof fn lemma_total_length(descriptor: u8)
    ensures
        total_length(descriptor) == length_i(descriptor, 0) + length_i(descriptor, 1) + length_i(
            descriptor,
            2,
        ) + length_i(descriptor, 3),
        total_length(descriptor) == slot_offset(descriptor, 4),
        forall|i: int| 0 <= i < 4 ==> 1 <= #[trigger] length_i(descriptor, i) <= 4,
        4 <= total_length(descriptor) <= 16,
{
}

/// The bytes of the little-endian form of a distance, in terms of bits.
pub proof fn lemma_le_byte_by_bits(delta: u32)
    ensures
        le_byte(delta, 0) == (delta >> 0u32) & 0xffu32,
        le_byte(delta, 1) == (delta >> 8u32) & 0xffu32,
        le_byte(delta, 2) == (delta >> 16u32) & 0xffu32,
        le_byte(delta, 3) == (delta >> 24u32) & 0xffu32,
{
    assert(((delta >> 0u32) & 0xffu32) == delta % 0x100) by (bit_vector);
    assert(((delta >> 8u32) & 0xffu32) == (delta / 0x100) % 0x100) by (bit_vector);
    assert(((delta >> 16u32) & 0xffu32) == (delta / 0x1_0000) % 0x100) by (bit_vector);
    assert(((delta >> 24u32) & 0xffu32) == (delta / 0x100_0000) % 0x100) by (bit_vector);
}

/// The bytes of a distance spell the distance, and the bytes of its
/// little-endian form above its width are zero.
pub proof fn lemma_delta_bytes(delta: u32)
    ensures
        delta_bytes(delta).len() == byte_width(delta),
        1 <= byte_width(delta) <= 4,
        packed(delta_bytes(delta), 0, byte_width(delta)) == delta,
        forall|i: int| byte_width(delta) <= i < 4 ==> le_byte(delta, i) == 0,
{
    let d = delta as int;
    assert(d == d % 0x100 + 0x100 * ((d / 0x100) % 0x100) + 0x1_0000 * ((d / 0x1_0000) % 0x100)
        + 0x100_0000 * ((d / 0x100_0000) % 0x100));
    assert(le_byte(delta, 0) == d % 0x100);
    assert(le_byte(delta, 1) == (d / 0x100) % 0x100);
    assert(le_byte(delta, 2) == (d / 0x1_0000) % 0x100);
    assert(le_byte(delta, 3) == (d / 0x100_0000) % 0x100);
}

/// The width of a distance is the number of its little-endian bytes up to
/// the last one that is not zero, and at least one.
pub proof fn lemma_width_by_bytes(delta: u32, width: int)
    requires
        1 <= width <= 4,
        forall|i: int| width <= i < 4 ==> le_byte(delta, i) == 0,
        width == 1 || le_byte(delta, width - 1) != 0,
    ensures
        width == byte_width(delta),
{
    let d = delta as int;
    assert(le_byte(delta, 0) == d % 0x100);
    assert(le_byte(delta, 1) == (d / 0x100) % 0x100);
    assert(le_byte(delta, 2) == (d / 0x1_0000) % 0x100);
    assert(le_byte(delta, 3) == (d / 0x100_0000) % 0x100);
}

/// Where the bytes of a distance stand at index `at` of `bytes`, they spell
/// the distance there.
pub proof fn lemma_packed_at(bytes: Seq<u8>, at: int, delta: u32)
    requires
        0 <= at,
        at + byte_width(delta) <= bytes.len(),
        bytes.subrange(at, at + byte_width(delta)) == delta_bytes(delta),
    ensures
        packed(bytes, at, byte_width(delta)) == delta,
{
    lemma_delta_bytes(delta);
    let piece = bytes.subrange(at, at + byte_width(delta));
    assert forall|i: int| 0 <= i < byte_width(delta) implies bytes[at + i] == delta_bytes(
        delta,
    )[i] by {
        assert(piece[i] == bytes[at + i]);
    }
}

/// The descriptor of a group gives each slot that is taken the width of its
/// distance, and each open slot the width one.
pub proof fn lemma_group_descriptor(group: Seq<u32>)
    requires
        group.len() <= 4,
    ensures
        group_descriptor(group) == width_field(group, 0) + width_field(group, 1) + width_field(
            group,
            2,
        ) + width_field(group, 3),
        forall|i: int|
            0 <= i < 4 ==> #[trigger] length_i(group_descriptor(group), i) == (if i < group.len() {
                byte_width(group[i])
            } else {
                1
            }),
{
    let f0 = width_field(group, 0);
    let f1 = width_field(group, 1);
    let f2 = width_field(group, 2);
    let f3 = width_field(group, 3);
    assert(0 <= f0 <= 3 && f0 % 1 == 0);
    assert(0 <= f1 <= 12 && f1 % 4 == 0);
    assert(0 <= f2 <= 48 && f2 % 16 == 0);
    assert(0 <= f3 <= 192 && f3 % 64 == 0);
    let d = group_descriptor(group);
    assert(d == f0 + f1 + f2 + f3);
    assert(length_i(d, 0) == f0 + 1);
    assert(length_i(d, 1) == f1 / 4 + 1);
    assert(length_i(d, 2) == f2 / 16 + 1);
    assert(length_i(d, 3) == f3 / 64 + 1);
}

/// The payload of a group is as long as its widths say, and each distance
/// stands in it behind those of the slots before it.
pub proof fn lemma_group_payload(group: Seq<u32>)
    requires
        group.len() <= 4,
    ensures
        group_payload(group).len() == slot_offset(group_descriptor(group), group.len() as int),
        forall|i: int|
            0 <= i < group.len() ==> #[trigger] group_payload(group).subrange(
                slot_offset(group_descriptor(group), i),
                slot_offset(group_descriptor(group), i) + byte_width(group[i]),
            ) == delta_bytes(group[i]),
{
    lemma_group_descriptor(group);
    let d = group_descriptor(group);
    let payload = group_payload(group);
    assert forall|i: int| 0 <= i < 4 implies slot_bytes(group, i).len() == (if i < group.len() {
        length_i(d, i)
    } else {
        0
    }) by {
        if i < group.len() {
            lemma_delta_bytes(group[i]);
        }
    }
    assert(length_i(d, 0) >= 1 && length_i(d, 1) >= 1 && length_i(d, 2) >= 1 && length_i(d, 3)
        >= 1);
    assert forall|i: int| 0 <= i < group.len() implies #[trigger] payload.subrange(
        slot_offset(d, i),
        slot_offset(d, i) + byte_width(group[i]),
    ) == delta_bytes(group[i]) by {
        assert(payload.subrange(slot_offset(d, i), slot_offset(d, i) + byte_width(group[i]))
            =~= slot_bytes(group, i));
    }
}

/// A byte-by-byte reader finds in the bytes of a group, whatever follows
/// them, each distance of the group in its slot; and zero in each open slot
/// where nothing follows.
pub proof fn lemma_scalar_reads_group(group: Seq<u32>, rest: Seq<u8>)
    requires
        1 <= group.len() <= 4,
        group.len() < 4 ==> rest.len() == 0,
    ensures
        forall|i: int|
            0 <= i < group.len() ==> #[trigger] slot_value(
                group_descriptor(group),
                group_payload(group) + rest,
                i,
            ) == group[i],
        forall|i: int|
            group.len() <= i < 4 ==> #[trigger] slot_value(
                group_descriptor(group),
                group_payload(group) + rest,
                i,
            ) == 0,
{
    reveal(slot_value);
    lemma_group_descriptor(group);
    lemma_group_payload(group);
    let d = group_descriptor(group);
    let payload = group_payload(group);
    let bytes = payload + rest;
    assert forall|i: int| 0 <= i < group.len() implies #[trigger] slot_value(d, bytes, i)
        == group[i] by {
        let at = slot_offset(d, i);
        let w = byte_width(group[i]);
        assert(length_i(d, i) == w);
        assert(slot_offset(d, i + 1) == at + w);
        assert(slot_offset(d, i + 1) <= slot_offset(d, group.len() as int));
        assert(payload.subrange(at, at + w) == delta_bytes(group[i]));
        assert(bytes.subrange(at, at + w) =~= payload.subrange(at, at + w));
        lemma_packed_at(bytes, at, group[i]);
    }
    assert forall|i: int| group.len() <= i < 4 implies #[trigger] slot_value(d, bytes, i) == 0 by {
        assert(bytes =~= payload);
        assert(length_i(d, i) == 1);
        assert(slot_offset(d, i + 1) > slot_offset(d, group.len() as int));
    }
}

/// A sequence of distances cut at a multiple of four: the bytes of the whole
/// are the bytes of the front followed by the bytes of the back.
pub proof fn lemma_stream_split(deltas: Seq<u32>, k: int)
    requires
        0 <= k <= deltas.len(),
        k % 4 == 0,
    ensures
        stream_bytes(deltas) == stream_bytes(deltas.take(k)) + stream_bytes(deltas.skip(k)),
    decreases k,
{
    reveal(stream_bytes);
    if k == 0 {
        assert(deltas.take(0) =~= Seq::<u32>::empty());
        assert(deltas.skip(0) =~= deltas);
        assert(stream_bytes(deltas.take(0)) =~= Seq::<u8>::empty());
        assert(stream_bytes(deltas) =~= stream_bytes(deltas.take(k)) + stream_bytes(
            deltas.skip(k),
        ));
    } else if k == deltas.len() {
        assert(deltas.take(k) =~= deltas);
        assert(deltas.skip(k) =~= Seq::<u32>::empty());
        assert(stream_bytes(deltas.skip(k)) =~= Seq::<u8>::empty());
        assert(stream_bytes(deltas) =~= stream_bytes(deltas.take(k)) + stream_bytes(
            deltas.skip(k),
        ));
    } else {
        // 4 <= k < deltas.len()
        let front = deltas.take(k);
        let tail = deltas.skip(4);
        lemma_stream_split(tail, k - 4);
        assert(tail.take(k - 4) =~= front.skip(4));
        assert(tail.skip(k - 4) =~= deltas.skip(k));
        assert(front.take(4) =~= deltas.take(4));
        if k == 4 {
            assert(front.skip(4) =~= Seq::<u32>::empty());
            assert(stream_bytes(front) == group_bytes(front));
            assert(stream_bytes(front.skip(4)) =~= Seq::<u8>::empty());
            assert(front =~= deltas.take(4));
        } else {
            assert(stream_bytes(front) == group_bytes(front.take(4)) + stream_bytes(
                front.skip(4),
            ));
        }
        assert(stream_bytes(deltas) =~= stream_bytes(front) + stream_bytes(deltas.skip(k)));
    }
}

/// The bytes of a sequence of distances end with the bytes of its last group.
pub proof fn lemma_stream_last_group(deltas: Seq<u32>)
    requires
        deltas.len() > 0,
    ensures
        1 <= deltas.skip(last_group_start(deltas.len() as int)).len() <= 4,
        stream_bytes(deltas) == stream_bytes(deltas.take(last_group_start(deltas.len() as int)))
            + group_bytes(deltas.skip(last_group_start(deltas.len() as int))),
        0 <= last_descriptor_position(deltas) < stream_bytes(deltas).len(),
        stream_bytes(deltas)[last_descriptor_position(deltas)] == group_descriptor(
            deltas.skip(last_group_start(deltas.len() as int)),
        ),
{
    let start = last_group_start(deltas.len() as int);
    lemma_stream_split(deltas, start);
    reveal(stream_bytes);
}

/// One more distance in a group that has an open slot: the descriptor gains
/// the field of that slot, which was zero, and the payload gains the bytes of
/// the distance.
pub proof fn lemma_group_push(group: Seq<u32>, delta: u32)
    requires
        group.len() < 4,
    ensures
        (group_descriptor(group) as int) < field(1, group.len() as int),
        group_descriptor(group.push(delta)) == group_descriptor(group) + field(
            byte_width(delta) - 1,
            group.len() as int,
        ),
        group_payload(group.push(delta)) == group_payload(group) + delta_bytes(delta),
        surplus(group.push(delta)) == surplus(group) + byte_width(delta) - 1,
        0 <= surplus(group) <= 3 * group.len(),
{
    let grown = group.push(delta);
    let slot = group.len() as int;
    lemma_group_descriptor(group);
    lemma_group_descriptor(grown);
    lemma_delta_bytes(delta);
    assert forall|i: int| 0 <= i < 4 implies width_field(grown, i) == (if i == slot {
        field(byte_width(delta) - 1, slot)
    } else {
        width_field(group, i)
    }) by {
        if i < slot {
            assert(grown[i] == group[i]);
        }
    }
    assert forall|i: int| 0 <= i < 4 implies slot_bytes(grown, i) == (if i == slot {
        delta_bytes(delta)
    } else {
        slot_bytes(group, i)
    }) by {
        if i < slot {
            assert(grown[i] == group[i]);
        }
    }
    assert forall|i: int| 0 <= i < 4 implies slot_bytes(group, i).len() == (if i < slot {
        byte_width(group[i])
    } else {
        0
    }) by {
        if i < slot {
            lemma_delta_bytes(group[i]);
        }
    }
    assert(group_payload(grown) =~= group_payload(group) + delta_bytes(delta));
}

/// Bytes put behind a sequence and a byte changed in the middle of it.
proof fn lemma_append_then_update(
    front: Seq<u8>,
    old_byte: u8,
    new_byte: u8,
    middle: Seq<u8>,
    back: Seq<u8>,
)
    ensures
        ((front + (seq![old_byte] + middle)) + back).update(front.len() as int, new_byte) == front
            + (seq![new_byte] + (middle + back)),
        (front + (seq![old_byte] + middle))[front.len() as int] == old_byte,
{
    assert(((front + (seq![old_byte] + middle)) + back).update(front.len() as int, new_byte)
        =~= front + (seq![new_byte] + (middle + back)));
}

/// A group of one distance: a descriptor that holds the width of the
/// distance, less one, and the bytes of the distance.
proof fn lemma_single_group(delta: u32)
    ensures
        group_bytes(seq![delta]) == seq![(byte_width(delta) - 1) as u8] + delta_bytes(delta),
        surplus(seq![delta]) == byte_width(delta) - 1,
{
    let single = seq![delta];
    lemma_delta_bytes(delta);
    assert(width_field(single, 0) == byte_width(delta) - 1);
    assert(group_payload(single) =~= delta_bytes(delta));
}

/// One more distance where the number of distances is a multiple of four: a
/// new group of one follows the bytes so far.
proof fn lemma_stream_push_new_group(deltas: Seq<u32>, delta: u32)
    requires
        deltas.len() % 4 == 0,
    ensures
        last_descriptor_position(deltas.push(delta)) == stream_bytes(deltas).len(),
        last_group(deltas.push(delta)) == seq![delta],
        stream_bytes(deltas.push(delta)) == stream_bytes(deltas) + group_bytes(seq![delta]),
{
    let n = deltas.len() as int;
    let more = deltas.push(delta);
    assert(last_group_start(n + 1) == n);
    assert(more.take(n) =~= deltas);
    assert(more.skip(n) =~= seq![delta]);
    lemma_stream_split(more, n);
    assert(stream_bytes(seq![delta]) == group_bytes(seq![delta])) by {
        reveal(stream_bytes);
    }
}

/// One more distance where the last group has an open slot: the distance goes
/// into the group.
proof fn lemma_stream_push_open_group(deltas: Seq<u32>, delta: u32)
    requires
        deltas.len() % 4 != 0,
    ensures
        last_group(deltas).len() == deltas.len() % 4,
        last_descriptor_position(deltas.push(delta)) == last_descriptor_position(deltas),
        last_group(deltas.push(delta)) == last_group(deltas).push(delta),
        0 <= last_descriptor_position(deltas) < stream_bytes(deltas).len(),
        stream_bytes(deltas) == stream_bytes(
            deltas.take(last_group_start(deltas.len() as int)),
        ) + group_bytes(last_group(deltas)),
        stream_bytes(deltas.push(delta)) == stream_bytes(
            deltas.take(last_group_start(deltas.len() as int)),
        ) + group_bytes(last_group(deltas).push(delta)),
{
    let n = deltas.len() as int;
    let more = deltas.push(delta);
    let start = last_group_start(n);
    assert(last_group_start(n + 1) == start);
    assert(more.take(start) =~= deltas.take(start));
    assert(more.skip(start) =~= deltas.skip(start).push(delta));
    lemma_stream_last_group(deltas);
    lemma_stream_last_group(more);
}

/// What one more distance does to the bytes and to the last group.
pub proof fn lemma_stream_push(deltas: Seq<u32>, delta: u32)
    ensures
        last_descriptor_position(deltas.push(delta)) == (if deltas.len() % 4 == 0 {
            stream_bytes(deltas).len() as int
        } else {
            last_descriptor_position(deltas)
        }),
        stream_bytes(deltas.push(delta)) == after_push(
            stream_bytes(deltas),
            last_descriptor_position(deltas.push(delta)),
            deltas.len() as int % 4,
            delta,
        ),
        surplus(last_group(deltas.push(delta))) == (if deltas.len() % 4 == 0 {
            0
        } else {
            surplus(last_group(deltas))
        }) + byte_width(delta) - 1,
        deltas.len() % 4 != 0 ==> 0 <= last_descriptor_position(deltas) < stream_bytes(
            deltas,
        ).len(),
        deltas.len() % 4 != 0 ==> (stream_bytes(deltas)[last_descriptor_position(deltas)] as int)
            < field(1, deltas.len() as int % 4),
        deltas.len() % 4 != 0 ==> 0 <= surplus(last_group(deltas)) <= 9,
{
    let before = stream_bytes(deltas);
    let bytes = delta_bytes(delta);
    let width = byte_width(delta);
    if deltas.len() % 4 == 0 {
        lemma_stream_push_new_group(deltas, delta);
        lemma_single_group(delta);
        assert(after_push(before, before.len() as int, 0, delta) =~= before + (seq![
            (width - 1) as u8,
        ] + bytes));
    } else {
        let slot = deltas.len() as int % 4;
        let group = last_group(deltas);
        let front = stream_bytes(deltas.take(last_group_start(deltas.len() as int)));
        let position = last_descriptor_position(deltas);
        lemma_stream_push_open_group(deltas, delta);
        lemma_group_push(group, delta);
        let old_byte = group_descriptor(group);
        let new_byte = group_descriptor(group.push(delta));
        assert(position == front.len());
        assert(new_byte == (old_byte + field(width - 1, slot)) as u8);
        assert(before == front + (seq![old_byte] + group_payload(group)));
        assert(stream_bytes(deltas.push(delta)) == front + (seq![new_byte] + (group_payload(group)
            + bytes)));
        assert(after_push(before, position, slot, delta) == front + (seq![new_byte] + (
        group_payload(group) + bytes))) by {
            lemma_append_then_update(front, old_byte, new_byte, group_payload(group), bytes);
        }
    }
}

/// The group that is open while the number of values is no multiple of four:
/// where its descriptor stands, that the fields of its open slots are zero,
/// and how many bytes it has beyond one for each value.
pub proof fn lemma_open_group(values: Seq<u32>)
    requires
        values.len() % 4 != 0,
    ensures
        0 <= last_descriptor_position(gaps(0, values)) < encoding(values).len(),
        (encoding(values)[last_descriptor_position(gaps(0, values))] as int) < field(
            1,
            values.len() as int % 4,
        ),
        0 <= surplus(last_group(gaps(0, values))) <= 9,
{
    lemma_stream_push(gaps(0, values), 0);
}

/// What one more value does to a sequence, its bytes and its last group.
pub proof fn lemma_push_value(values: Seq<u32>, x: u32)
    requires
        nondecreasing(0, values),
        x >= top_of(values),
    ensures
        nondecreasing(0, values.push(x)),
        top_of(values.push(x)) == x,
        last_descriptor_position(gaps(0, values.push(x))) == (if values.len() % 4 == 0 {
            encoding(values).len() as int
        } else {
            last_descriptor_position(gaps(0, values))
        }),
        encoding(values.push(x)) == after_push(
            encoding(values),
            last_descriptor_position(gaps(0, values.push(x))),
            values.len() as int % 4,
            (x - top_of(values)) as u32,
        ),
        surplus(last_group(gaps(0, values.push(x)))) == (if values.len() % 4 == 0 {
            0
        } else {
            surplus(last_group(gaps(0, values)))
        }) + byte_width((x - top_of(values)) as u32) - 1,
{
    let more = values.push(x);
    assert(gaps(0, more) =~= gaps(0, values).push((x - top_of(values)) as u32));
    lemma_stream_push(gaps(0, values), (x - top_of(values)) as u32);
}

/// Only the empty sequence has no bytes; any other has a descriptor and at
/// least one byte for each distance.
pub proof fn lemma_stream_length(deltas: Seq<u32>)
    ensures
        deltas.len() == 0 ==> stream_bytes(deltas).len() == 0,
        deltas.len() > 0 ==> stream_bytes(deltas).len() > deltas.len(),
    decreases deltas.len(),
{
    reveal(stream_bytes);
    if deltas.len() > 0 {
        let size = first_group_size(deltas.len() as int);
        let group = deltas.take(size);
        lemma_group_payload(group);
        lemma_group_descriptor(group);
        assert(group_payload(group).len() >= size);
        if deltas.len() <= 4 {
            assert(group =~= deltas);
        } else {
            lemma_stream_length(deltas.skip(4));
        }
    }
}

/// The front of the bytes of a sequence of distances: the descriptor of the
/// first group, its payload, then the bytes of the distances behind the
/// group. A byte-by-byte reader finds the distances of the group behind the
/// descriptor, and zero in the slots that the group leaves open.
pub proof fn lemma_stream_head(deltas: Seq<u32>)
    requires
        deltas.len() > 0,
    ensures
        stream_bytes(deltas).len() > 0,
        stream_bytes(deltas)[0] == group_descriptor(
            deltas.take(first_group_size(deltas.len() as int)),
        ),
        stream_bytes(deltas).skip(1) == group_payload(
            deltas.take(first_group_size(deltas.len() as int)),
        ) + stream_bytes(deltas.skip(first_group_size(deltas.len() as int))),
        group_payload(deltas.take(first_group_size(deltas.len() as int))).len() == slot_offset(
            stream_bytes(deltas)[0],
            first_group_size(deltas.len() as int),
        ),
        forall|i: int|
            0 <= i < 4 ==> #[trigger] slot_value(
                stream_bytes(deltas)[0],
                stream_bytes(deltas).skip(1),
                i,
            ) == (if i < deltas.len() {
                deltas[i]
            } else {
                0
            }),
{
    reveal(stream_bytes);
    let size = first_group_size(deltas.len() as int);
    let group = deltas.take(size);
    let rest = stream_bytes(deltas.skip(size));
    if deltas.len() <= 4 {
        assert(group =~= deltas);
        assert(deltas.skip(size) =~= Seq::<u32>::empty());
        assert(rest =~= Seq::<u8>::empty());
    }
    assert(stream_bytes(deltas) =~= group_bytes(group) + rest);
    assert(stream_bytes(deltas).skip(1) =~= group_payload(group) + rest);
    lemma_group_payload(group);
    lemma_scalar_reads_group(group, rest);
    assert forall|i: int| 0 <= i < 4 implies #[trigger] slot_value(
        stream_bytes(deltas)[0],
        stream_bytes(deltas).skip(1),
        i,
    ) == (if i < deltas.len() {
        deltas[i]
    } else {
        0
    }) by {
        if i < size {
            assert(group[i] == deltas[i]);
        }
    }
}

/// The values behind the first `k`, seen from the value in front of them.
pub proof fn lemma_skip_values(base: u32, values: Seq<u32>, k: int)
    requires
        nondecreasing(base, values),
        0 <= k <= values.len(),
    ensures
        nondecreasing(previous(base, values, k), values.skip(k)),
        gaps(previous(base, values, k), values.skip(k)) == gaps(base, values).skip(k),
{
    assert(gaps(previous(base, values, k), values.skip(k)) =~= gaps(base, values).skip(k));
}

/// What stands at the front of the bytes of values that follow `base`: a
/// descriptor; behind it, for a byte-by-byte reader, distances that add up
/// one after the other from `base` to the values of the first group, and
/// zeros in the slots that the group leaves open; and, behind a full group,
/// the bytes of the values that follow the group. A group that is not full
/// ends the bytes, short of the length that its descriptor gives.
pub proof fn lemma_first_group(base: u32, values: Seq<u32>)
    requires
        nondecreasing(base, values),
        values.len() > 0,
    ensures
        stream_bytes(gaps(base, values)).len() > 0,
        ({
            let bytes = stream_bytes(gaps(base, values));
            let found = scalar_lanes(bytes[0], bytes.skip(1));
            let group = padded_group(values);
            &&& base + found[0] == group[0]
            &&& group[0] + found[1] == group[1]
            &&& group[1] + found[2] == group[2]
            &&& group[2] + found[3] == group[3]
            &&& values.len() >= 4 ==> 1 + total_length(bytes[0]) <= bytes.len()
            &&& values.len() >= 4 ==> bytes.skip(1 + total_length(bytes[0])) == stream_bytes(
                gaps(values[3], values.skip(4)),
            )
            &&& values.len() >= 4 ==> nondecreasing(values[3], values.skip(4))
            &&& values.len() < 4 ==> bytes.len() < 1 + total_length(bytes[0])
            &&& values.len() < 4 ==> bytes.len() < 17
        }),
{
    let deltas = gaps(base, values);
    let bytes = stream_bytes(deltas);
    let size = first_group_size(values.len() as int);
    lemma_stream_head(deltas);
    lemma_skip_values(base, values, size);
    let found = scalar_lanes(bytes[0], bytes.skip(1));
    assert forall|i: int| 0 <= i < 4 implies found[i] == (if i < values.len() {
        values[i] - previous(base, values, i)
    } else {
        0
    }) by {
        assert(found[i] == slot_value(bytes[0], bytes.skip(1), i));
    }
    let payload = group_payload(deltas.take(size));
    lemma_group_descriptor(deltas.take(size));
    if values.len() >= 4 {
        assert(slot_offset(bytes[0], 4) == total_length(bytes[0]));
        assert(bytes.skip(1 + total_length(bytes[0])) =~= bytes.skip(1).skip(
            total_length(bytes[0]),
        ));
        assert((payload + stream_bytes(deltas.skip(4))).skip(payload.len() as int)
            =~= stream_bytes(deltas.skip(4)));
    } else {
        assert(deltas.skip(size) =~= Seq::<u32>::empty());
        lemma_stream_length(deltas.skip(size));
        assert(bytes.skip(1).len() == payload.len());
        assert(slot_offset(bytes[0], size) < total_length(bytes[0]));
    }
}

/// A reader finds in the bytes of a sequence of distances those distances,
/// and behind them nothing but what the open slots of the last group give.
pub proof fn lemma_decoded_deltas(deltas: Seq<u32>)
    ensures
        decoded_deltas(stream_bytes(deltas)).len() >= deltas.len(),
        decoded_deltas(stream_bytes(deltas)).take(deltas.len() as int) == deltas,
    decreases deltas.len(),
{
    reveal(decoded_deltas);
    let bytes = stream_bytes(deltas);
    let found = decoded_deltas(bytes);
    lemma_stream_length(deltas);
    if deltas.len() > 0 {
        lemma_stream_head(deltas);
        let size = first_group_size(deltas.len() as int);
        let first = scalar_lanes(bytes[0], bytes.skip(1));
        assert forall|i: int| 0 <= i < size implies first[i] == deltas[i] by {
            assert(first[i] == slot_value(bytes[0], bytes.skip(1), i));
        }
        let behind = deltas.skip(size);
        lemma_stream_length(behind);
        lemma_group_descriptor(deltas.take(size));
        assert(slot_offset(bytes[0], 4) == total_length(bytes[0]));
        if deltas.len() > 4 {
            lemma_decoded_deltas(behind);
            assert(bytes.skip(1 + total_length(bytes[0])) =~= bytes.skip(1).skip(
                total_length(bytes[0]),
            ));
            assert(bytes.skip(1).skip(total_length(bytes[0])) =~= stream_bytes(behind));
            assert(found == first + decoded_deltas(stream_bytes(behind)));
            assert(found.take(deltas.len() as int) =~= deltas) by {
                let back = decoded_deltas(stream_bytes(behind));
                assert forall|i: int| 0 <= i < deltas.len() implies found[i] == deltas[i] by {
                    if i >= 4 {
                        assert(back.take(behind.len() as int)[i - 4] == behind[i - 4]);
                    }
                }
            }
        } else {
            assert(found == first);
            assert(found.take(deltas.len() as int) =~= deltas);
        }
    } else {
        assert(found.take(0) =~= deltas);
    }
}

/// Adding up the distances of values gives the values.
pub proof fn lemma_running_values(base: u32, values: Seq<u32>)
    requires
        nondecreasing(base, values),
    ensures
        running_values(base, gaps(base, values)) == values,
    decreases values.len(),
{
    reveal(running_values);
    let deltas = gaps(base, values);
    if values.len() > 0 {
        lemma_skip_values(base, values, 1);
        lemma_running_values(values[0], values.skip(1));
        assert(running_values(base, deltas) =~= values);
    } else {
        assert(running_values(base, deltas) =~= values);
    }
}

/// Reading the bytes of a sequence gives the sequence.
pub proof fn lemma_round_trip(values: Seq<u32>)
    requires
        nondecreasing(0, values),
    ensures
        decoding(encoding(values), values.len()) == values,
{
    lemma_decoded_deltas(gaps(0, values));
    lemma_running_values(0, values);
}

/// The last group of a sequence is always decoded byte by byte: its
/// descriptor has fewer than sixteen bytes and one more behind it.
pub proof fn lemma_last_group_takes_safe_path(deltas: Seq<u32>)
    requires
        deltas.len() > 0,
    ensures
        takes_safe_path(last_descriptor_position(deltas), stream_bytes(deltas).len() as int),
{
    lemma_stream_last_group(deltas);
    let group = last_group(deltas);
    lemma_group_payload(group);
    lemma_group_descriptor(group);
}

/// A group that is decoded with the byte shuffle has the sixteen bytes that
/// the shuffle reads, and they give what a byte-by-byte reader finds.
pub proof fn lemma_fast_path_is_safe(bytes: Seq<u8>, position: int)
    requires
        0 <= position < bytes.len(),
        !takes_safe_path(position, bytes.len() as int),
    ensures
        position + 1 + 16 <= bytes.len(),
        lanes(
            shuffled(bytes.subrange(position + 1, position + 17), shuffle_mask(bytes[position])),
        ) == scalar_lanes(bytes[position], bytes.skip(position + 1)),
{
    lemma_shuffle_matches_scalar(bytes[position], bytes.skip(position + 1));
    assert(bytes.subrange(position + 1, position + 17) =~= bytes.skip(position + 1).take(16));
}

/// A sum of distances is not negative.
pub proof fn lemma_total(deltas: Seq<u32>)
    ensures
        total(deltas) >= 0,
    decreases deltas.len(),
{
    if deltas.len() > 0 {
        lemma_total(deltas.skip(1));
    }
}

/// Output byte `n` of lane `k` of the byte shuffle with the mask of a
/// descriptor: payload byte `n` of slot `k` where the slot is that wide, else
/// zero.
proof fn lemma_shuffled_byte_of_lane(descriptor: u8, payload: Seq<u8>, k: int, n: int)
    requires
        payload.len() >= 16,
        0 <= k < 4,
        0 <= n < 4,
    ensures
        shuffled(payload.take(16), shuffle_mask(descriptor))[4 * k + n] == (if n < length_i(
            descriptor,
            k,
        ) {
            payload[slot_offset(descriptor, k) + n]
        } else {
            0u8
        }),
{
    let source = payload.take(16);
    let mask = shuffle_mask(descriptor);
    let out = shuffled(source, mask);
    let at = slot_offset(descriptor, k);
    let w = length_i(descriptor, k);
    let j = 4 * k + n;
    assert(0 <= at && at + w <= 16);
    assert(j / 4 == k && j % 4 == n);
    assert(mask[j] == selector(descriptor, j));
    assert(out[j] == shuffled_byte(source, mask[j]));
    if n < w {
        assert(mask[j] == at + n);
        assert(source[at + n] == payload[at + n]);
    }
}

/// The byte shuffle with the mask of a descriptor gives what a byte-by-byte
/// reader finds, wherever sixteen bytes can be had behind the descriptor.
pub proof fn lemma_shuffle_matches_scalar(descriptor: u8, payload: Seq<u8>)
    requires
        payload.len() >= 16,
    ensures
        lanes(shuffled(payload.take(16), shuffle_mask(descriptor))) == scalar_lanes(
            descriptor,
            payload,
        ),
{
    reveal(slot_value);
    reveal(lanes);
    let out = shuffled(payload.take(16), shuffle_mask(descriptor));
    let found = scalar_lanes(descriptor, payload);
    assert forall|k: int| 0 <= k < 4 implies lanes(out)[k] == found[k] by {
        let at = slot_offset(descriptor, k);
        let w = length_i(descriptor, k);
        assert(0 <= at && at + w <= 16);
        assert(slot_offset(descriptor, k + 1) == at + w);
        lemma_shuffled_byte_of_lane(descriptor, payload, k, 0);
        lemma_shuffled_byte_of_lane(descriptor, payload, k, 1);
        lemma_shuffled_byte_of_lane(descriptor, payload, k, 2);
        lemma_shuffled_byte_of_lane(descriptor, payload, k, 3);
        assert(packed(out, 4 * k, 4) == packed(payload, at, w));
    }
    assert(lanes(out) =~= scalar_lanes(descriptor, payload));
}

} // verus!

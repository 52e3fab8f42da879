//! The GroupBinary layout.
//!
//! ```text
//! buffer     := group*
//! group      := descriptor payload
//! descriptor := one byte, two bits a slot, slot 0 lowest: width - 1
//! payload    := the distances of the group in slot order, each in its
//!               width, little-endian
//! ```
//!
//! A distance is the difference between a value and the value before it
//! (zero before the first). Its width is the number of little-endian bytes
//! left when the zero bytes at the high end are dropped, and at least one.
//! Every group but the last holds four distances; the last holds one to four,
//! and the slots it leaves open read as width one in its descriptor and have
//! no bytes in its payload.

use vstd::prelude::*;

verus! {

/// The value in front of `values[i]`, where `base` stands in front of the
/// first.
pub open spec fn previous(base: u32, values: Seq<u32>, i: int) -> u32 {
    if i <= 0 {
        base
    } else {
        values[i - 1]
    }
}

/// No value is below `base`, nor below a value in front of it.
pub open spec fn nondecreasing(base: u32, values: Seq<u32>) -> bool {
    &&& forall|i: int| 0 <= i < values.len() ==> base <= #[trigger] values[i]
    &&& forall|i: int, j: int| 0 <= i <= j < values.len() ==> values[i] <= values[j]
}

/// The distance of each value to the one in front of it.
pub open spec fn gaps(base: u32, values: Seq<u32>) -> Seq<u32> {
    Seq::new(values.len(), |i: int| (values[i] - previous(base, values, i)) as u32)
}

/// Number of bytes a distance is stored in.
pub open spec fn byte_width(delta: u32) -> int {
    if delta < 0x100 {
        1
    } else if delta < 0x1_0000 {
        2
    } else if delta < 0x100_0000 {
        3
    } else {
        4
    }
}

/// Byte `i` of the little-endian form of `delta`: `delta` divided by 256 to
/// the power `i`, the remainder by 256 of that.
pub open spec fn le_byte(delta: u32, i: int) -> u8 {
    if i <= 0 {
        (delta % 0x100) as u8
    } else if i == 1 {
        ((delta / 0x100) % 0x100) as u8
    } else if i == 2 {
        ((delta / 0x1_0000) % 0x100) as u8
    } else {
        ((delta / 0x100_0000) % 0x100) as u8
    }
}

/// The bytes a distance is stored in.
pub open spec fn delta_bytes(delta: u32) -> Seq<u8> {
    Seq::new(byte_width(delta) as nat, |i: int| le_byte(delta, i))
}

/// `value` moved to the place of slot `slot` in a descriptor: `value` times 4
/// to the power `slot`, which is `value << 2 * slot`.
pub open spec fn field(value: int, slot: int) -> int {
    if slot <= 0 {
        value
    } else if slot == 1 {
        4 * value
    } else if slot == 2 {
        16 * value
    } else if slot == 3 {
        64 * value
    } else {
        256 * value
    }
}

/// What slot `slot` contributes to the descriptor of `group`.
pub open spec fn width_field(group: Seq<u32>, slot: int) -> int {
    if slot < group.len() {
        field(byte_width(group[slot]) - 1, slot)
    } else {
        0
    }
}

/// The descriptor of a group of up to four distances.
pub open spec fn group_descriptor(group: Seq<u32>) -> u8 {
    (width_field(group, 0) + width_field(group, 1) + width_field(group, 2) + width_field(
        group,
        3,
    )) as u8
}

/// The payload bytes of slot `slot` of `group`: none where the slot is open.
pub open spec fn slot_bytes(group: Seq<u32>, slot: int) -> Seq<u8> {
    if slot < group.len() {
        delta_bytes(group[slot])
    } else {
        Seq::empty()
    }
}

/// The payload of a group of up to four distances.
pub open spec fn group_payload(group: Seq<u32>) -> Seq<u8> {
    slot_bytes(group, 0) + slot_bytes(group, 1) + slot_bytes(group, 2) + slot_bytes(group, 3)
}

/// The bytes of a group of up to four distances.
pub open spec fn group_bytes(group: Seq<u32>) -> Seq<u8> {
    seq![group_descriptor(group)] + group_payload(group)
}

/// The bytes of a sequence of distances: groups of four, the last one of one
/// to four.
#[verifier::opaque]
pub open spec fn stream_bytes(deltas: Seq<u32>) -> Seq<u8>
    decreases deltas.len(),
{
    if deltas.len() == 0 {
        Seq::empty()
    } else if deltas.len() <= 4 {
        group_bytes(deltas)
    } else {
        group_bytes(deltas.take(4)) + stream_bytes(deltas.skip(4))
    }
}

/// The bytes that stand for `values`.
pub open spec fn encoding(values: Seq<u32>) -> Seq<u8> {
    stream_bytes(gaps(0, values))
}

/// Width of slot `i` as the descriptor gives it: the two bits
/// `(descriptor >> 2 * i) & 3`, which are the base-4 digit `i` of the
/// descriptor, plus one.
pub open spec fn length_i(descriptor: u8, i: int) -> int {
    if i <= 0 {
        descriptor % 4 + 1
    } else if i == 1 {
        (descriptor / 4) % 4 + 1
    } else if i == 2 {
        (descriptor / 16) % 4 + 1
    } else {
        (descriptor / 64) % 4 + 1
    }
}

/// Number of payload bytes in front of slot `slot`.
pub open spec fn slot_offset(descriptor: u8, slot: int) -> int {
    (if slot > 0 {
        length_i(descriptor, 0)
    } else {
        0
    }) + (if slot > 1 {
        length_i(descriptor, 1)
    } else {
        0
    }) + (if slot > 2 {
        length_i(descriptor, 2)
    } else {
        0
    }) + (if slot > 3 {
        length_i(descriptor, 3)
    } else {
        0
    })
}

/// Number of payload bytes of a full group with this descriptor.
pub open spec fn total_length(descriptor: u8) -> int {
    length_i(descriptor, 0) + length_i(descriptor, 1) + length_i(descriptor, 2) + length_i(
        descriptor,
        3,
    )
}

/// The number that `width` bytes of `bytes` spell, from index `at` on, in
/// little-endian order.
pub open spec fn packed(bytes: Seq<u8>, at: int, width: int) -> int {
    (if width >= 1 {
        bytes[at] as int
    } else {
        0
    }) + (if width >= 2 {
        bytes[at + 1] * 0x100
    } else {
        0
    }) + (if width >= 3 {
        bytes[at + 2] * 0x1_0000
    } else {
        0
    }) + (if width >= 4 {
        bytes[at + 3] * 0x100_0000
    } else {
        0
    })
}

/// The distance in slot `slot` as a byte-by-byte reader finds it in
/// `payload`: what the slot's bytes spell, or zero where `payload` ends
/// before the slot does.
#[verifier::opaque]
pub open spec fn slot_value(descriptor: u8, payload: Seq<u8>, slot: int) -> u32 {
    if slot_offset(descriptor, slot + 1) <= payload.len() {
        packed(payload, slot_offset(descriptor, slot), length_i(descriptor, slot)) as u32
    } else {
        0
    }
}

/// The four distances of a group as a byte-by-byte reader finds them.
pub open spec fn scalar_lanes(descriptor: u8, payload: Seq<u8>) -> Seq<u32> {
    Seq::new(4, |slot: int| slot_value(descriptor, payload, slot))
}

/// The distances that a reader finds in `bytes`, four for each group: behind
/// each descriptor it reads the four slots byte by byte, and goes on behind
/// the payload length that the descriptor gives, as long as bytes are left.
#[verifier::opaque]
pub open spec fn decoded_deltas(bytes: Seq<u8>) -> Seq<u32>
    decreases bytes.len(),
{
    if bytes.len() == 0 {
        Seq::empty()
    } else if 1 + total_length(bytes[0]) >= bytes.len() {
        scalar_lanes(bytes[0], bytes.skip(1))
    } else {
        scalar_lanes(bytes[0], bytes.skip(1)) + decoded_deltas(
            bytes.skip(1 + total_length(bytes[0])),
        )
    }
}

/// The values that `deltas` lead to from `base`: each distance is added to
/// the value in front of it. The values end where one would pass the largest
/// `u32`.
#[verifier::opaque]
pub open spec fn running_values(base: u32, deltas: Seq<u32>) -> Seq<u32>
    decreases deltas.len(),
{
    if deltas.len() == 0 || base + deltas[0] > u32::MAX {
        Seq::empty()
    } else {
        seq![(base + deltas[0]) as u32] + running_values(
            (base + deltas[0]) as u32,
            deltas.skip(1),
        )
    }
}

/// The values that a reader finds in `bytes` when it stops behind `count`
/// of them.
pub open spec fn decoding(bytes: Seq<u8>, count: nat) -> Seq<u32> {
    let found = decoded_deltas(bytes);
    running_values(
        0,
        if count <= found.len() {
            found.take(count as int)
        } else {
            found
        },
    )
}

/// The selector of output byte `j` in the lane-selection mask for a
/// descriptor: the index of the payload byte that goes there, or -1 where the
/// output byte is to be zero. Output bytes `4 * slot .. 4 * slot + 4` make
/// the lane of the slot.
pub open spec fn selector(descriptor: u8, j: int) -> i8 {
    if j % 4 < length_i(descriptor, j / 4) {
        (slot_offset(descriptor, j / 4) + j % 4) as i8
    } else {
        -1i8
    }
}

/// The lane-selection mask for a descriptor, sixteen selectors.
pub open spec fn shuffle_mask(descriptor: u8) -> Seq<i8> {
    Seq::new(16, |j: int| selector(descriptor, j))
}

/// One output byte of a byte shuffle: zero where the selector is negative,
/// else the source byte that the selector's low four bits name.
pub open spec fn shuffled_byte(source: Seq<u8>, selector: i8) -> u8 {
    if selector < 0 {
        0
    } else {
        source[selector as int % 16]
    }
}

/// The sixteen output bytes of a byte shuffle of sixteen source bytes.
pub open spec fn shuffled(source: Seq<u8>, mask: Seq<i8>) -> Seq<u8> {
    Seq::new(16, |j: int| shuffled_byte(source, mask[j]))
}

/// Sixteen bytes read as four little-endian 32-bit lanes.
#[verifier::opaque]
pub open spec fn lanes(bytes: Seq<u8>) -> Seq<u32> {
    Seq::new(4, |k: int| packed(bytes, 4 * k, 4) as u32)
}

/// The boundary between the two ways to decode a group. The byte shuffle
/// reads the sixteen bytes behind a descriptor, whatever the group's length;
/// a group whose descriptor stands at `position` in `length` bytes is decoded
/// with it only where those sixteen bytes and one more are there. All other
/// groups go to the byte-by-byte reader.
pub open spec fn takes_safe_path(position: int, length: int) -> bool {
    position + 17 >= length
}

/// Number of values in the first group of a sequence of `count` values.
pub open spec fn first_group_size(count: int) -> int {
    if count < 4 {
        count
    } else {
        4
    }
}

/// The first four of `values`, with the last value repeated where there are
/// fewer than four: what the first group stands for when its open slots are
/// read as distance zero.
pub open spec fn padded_group(values: Seq<u32>) -> Seq<u32> {
    Seq::new(
        4,
        |i: int|
            if i < values.len() {
                values[i]
            } else {
                values.last()
            },
    )
}

/// Index of the first distance of the last group among `count` distances.
pub open spec fn last_group_start(count: int) -> int {
    if count <= 0 {
        0
    } else {
        4 * ((count - 1) / 4)
    }
}

/// The distances of the last group of `deltas`.
pub open spec fn last_group(deltas: Seq<u32>) -> Seq<u32> {
    deltas.skip(last_group_start(deltas.len() as int))
}

/// Index of the last group's descriptor in the bytes of `deltas`.
pub open spec fn last_descriptor_position(deltas: Seq<u32>) -> int {
    stream_bytes(deltas.take(last_group_start(deltas.len() as int))).len() as int
}

/// Number of payload bytes of a group beyond one for each distance.
pub open spec fn surplus(group: Seq<u32>) -> int {
    group_payload(group).len() - group.len()
}

/// The bytes after one more distance, from the bytes before it. The
/// distance goes into slot `slot`. Where that is slot 0, a descriptor is put
/// behind the bytes first; `position` is the index of the descriptor of the
/// group that the slot belongs to. The bytes of the distance are put at the
/// end, and the descriptor gains the width of the distance, less one, at the
/// place of the slot.
pub open spec fn after_push(before: Seq<u8>, position: int, slot: int, delta: u32) -> Seq<u8> {
    let begun = if slot == 0 {
        before.push(0u8)
    } else {
        before
    };
    (begun + delta_bytes(delta)).update(
        position,
        (begun[position] + field(byte_width(delta) - 1, slot)) as u8,
    )
}

/// The values that `deltas` lead to from `base` when a distance of zero is
/// passed over.
#[verifier::opaque]
pub open spec fn distinct_values(base: u32, deltas: Seq<u32>) -> Seq<u32>
    decreases deltas.len(),
{
    if deltas.len() == 0 {
        Seq::empty()
    } else if deltas[0] == 0 {
        distinct_values(base, deltas.skip(1))
    } else {
        seq![(base + deltas[0]) as u32] + distinct_values(
            (base + deltas[0]) as u32,
            deltas.skip(1),
        )
    }
}

/// The sum of `deltas`.
pub open spec fn total(deltas: Seq<u32>) -> int
    decreases deltas.len(),
{
    if deltas.len() == 0 {
        0
    } else {
        deltas[0] + total(deltas.skip(1))
    }
}

} // verus!

//! The SimpleUnary layout.
//!
//! ```text
//! buffer := entry*
//! entry  := continuation* final
//! ```
//!
//! An entry stands for one value by its gap: the distance to the value in
//! front of it (zero in front of the first), less one. A gap below 128 is
//! one final byte, the gap itself. Any other gap is a continuation byte,
//! 128 plus the gap's remainder by 128, followed by the entry of the gap's
//! quotient by 128, less one. A 32-bit gap never takes more than four
//! continuation bytes, and a reader takes the fifth byte of an entry as its
//! final byte whatever it holds.

use vstd::prelude::*;

verus! {

/// The bytes of the entry that stands for `gap`.
pub open spec fn entry_bytes(gap: nat) -> Seq<u8>
    decreases gap,
{
    if gap < 128 {
        seq![gap as u8]
    } else {
        seq![(128 + gap % 128) as u8] + entry_bytes((gap / 128 - 1) as nat)
    }
}

/// 128 to the power `round`, for `round` up to 4: what one unit of byte
/// `round` of an entry is worth.
pub open spec fn place(round: int) -> int {
    if round <= 0 {
        1
    } else if round == 1 {
        128
    } else if round == 2 {
        16384
    } else if round == 3 {
        2097152
    } else {
        268435456
    }
}

/// The least gap whose entry takes more than `room` continuation bytes.
pub open spec fn limit(room: int) -> int {
    if room <= 0 {
        128
    } else if room == 1 {
        16512
    } else if room == 2 {
        2113664
    } else if room == 3 {
        270549120
    } else {
        34630287488
    }
}

/// Every value is above `base` and above the values in front of it.
pub open spec fn ascending(base: u32, values: Seq<u32>) -> bool {
    &&& forall|i: int| 0 <= i < values.len() ==> base < #[trigger] values[i]
    &&& forall|i: int, j: int| 0 <= i < j < values.len() ==> values[i] < values[j]
}

/// The last of `values`, or `base` where there is none.
pub open spec fn last_from(base: u32, values: Seq<u32>) -> u32 {
    if values.len() == 0 {
        base
    } else {
        values.last()
    }
}

/// The bytes that stand for `values` behind a value `base`.
#[verifier::opaque]
pub open spec fn stream_bytes(base: u32, values: Seq<u32>) -> Seq<u8>
    decreases values.len(),
{
    if values.len() == 0 {
        Seq::empty()
    } else {
        entry_bytes((values[0] - base - 1) as nat) + stream_bytes(values[0], values.skip(1))
    }
}

/// The bytes that stand for `values`.
pub open spec fn encoding(values: Seq<u32>) -> Seq<u8> {
    stream_bytes(0, values)
}

/// What a reader finds at the front of `bytes`: the step that the first
/// entry stands for, which is its gap plus one, and the number of bytes of
/// the entry; or `None` where the bytes end before the entry does. `room` is
/// the number of continuation bytes that the entry may still have: four at
/// its first byte.
pub open spec fn read_entry(bytes: Seq<u8>, room: nat) -> Option<(nat, nat)>
    decreases room,
{
    if bytes.len() == 0 {
        None
    } else if bytes[0] < 128 || room == 0 {
        Some(((bytes[0] + 1) as nat, 1nat))
    } else {
        match read_entry(bytes.skip(1), (room - 1) as nat) {
            Some((step, used)) => Some(((bytes[0] - 127 + 128 * step) as nat, used + 1)),
            None => None,
        }
    }
}

/// The values that a reader finds in `bytes` behind a value `base`: each
/// entry adds its step to the value in front of it. The reader stops where
/// the bytes end, inside an entry too, and where a value would pass the
/// largest `u32`.
#[verifier::opaque]
pub open spec fn decoding(base: u32, bytes: Seq<u8>) -> Seq<u32>
    decreases bytes.len(),
{
    match read_entry(bytes, 4) {
        Some((step, used)) => if base + step <= u32::MAX && 0 < used <= bytes.len() {
            seq![(base + step) as u32] + decoding((base + step) as u32, bytes.skip(used as int))
        } else {
            Seq::empty()
        },
        None => Seq::empty(),
    }
}

} // verus!

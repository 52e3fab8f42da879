//! Facts about the SimpleUnary layout.

use crate::su_layout::{
    ascending, decoding, entry_bytes, last_from, limit, read_entry, stream_bytes,
};
use vstd::prelude::*;

verus! {

/// The entry of a gap below `limit(room)` has at most `room` continuation
/// bytes, each of them 128 or more, and a final byte below 128. A reader
/// with that much room finds the gap's step in it, whatever follows.
pub proof fn lemma_entry(gap: nat, room: int, rest: Seq<u8>)
    requires
        0 <= room <= 4,
        gap < limit(room),
    ensures
        1 <= entry_bytes(gap).len() <= room + 1,
        entry_bytes(gap).last() < 128,
        forall|i: int| 0 <= i < entry_bytes(gap).len() - 1 ==> entry_bytes(gap)[i] >= 128,
        read_entry(entry_bytes(gap) + rest, room as nat) == Some(
            ((gap + 1) as nat, entry_bytes(gap).len()),
        ),
    decreases room,
{
    let whole = entry_bytes(gap) + rest;
    if gap < 128 {
        assert(whole[0] == gap as u8);
    } else {
        let next = (gap / 128 - 1) as nat;
        lemma_entry(next, room - 1, rest);
        assert(whole[0] == (128 + gap % 128) as u8);
        assert(whole.skip(1) =~= entry_bytes(next) + rest);
        assert(gap + 1 == (128 + gap % 128) - 127 + 128 * (next + 1));
        assert forall|i: int| 0 <= i < entry_bytes(gap).len() - 1 implies entry_bytes(gap)[i]
            >= 128 by {
            if i > 0 {
                assert(entry_bytes(gap)[i] == entry_bytes(next)[i - 1]);
            }
        }
    }
}

/// The entry of a 32-bit gap has at most five bytes, and the last of them is
/// below 128: no such gap is cut short.
pub proof fn lemma_entry_of_u32(gap: u32)
    ensures
        1 <= entry_bytes(gap as nat).len() <= 5,
        entry_bytes(gap as nat).last() < 128,
{
    lemma_entry(gap as nat, 4, Seq::empty());
}

/// The number of bytes of an entry, by the size of its gap.
pub proof fn lemma_entry_length(gap: nat)
    ensures
        gap < 128 <==> entry_bytes(gap).len() == 1,
        128 <= gap < 16512 <==> entry_bytes(gap).len() == 2,
        16512 <= gap < 2113664 <==> entry_bytes(gap).len() == 3,
        2113664 <= gap < 270549120 <==> entry_bytes(gap).len() == 4,
        270549120 <= gap < 34630287488 <==> entry_bytes(gap).len() == 5,
    decreases gap,
{
    if gap >= 128 {
        lemma_entry_length((gap / 128 - 1) as nat);
    }
}

/// The bytes of values behind `base` begin with the entry of the first
/// value; the bytes of the values behind it follow.
pub proof fn lemma_stream_head(base: u32, values: Seq<u32>)
    requires
        ascending(base, values),
        values.len() > 0,
    ensures
        stream_bytes(base, values) == entry_bytes((values[0] - base - 1) as nat) + stream_bytes(
            values[0],
            values.skip(1),
        ),
        ascending(values[0], values.skip(1)),
{
    reveal(stream_bytes);
}

/// Only the empty sequence has no bytes.
pub proof fn lemma_stream_length(base: u32, values: Seq<u32>)
    requires
        ascending(base, values),
    ensures
        values.len() == 0 <==> stream_bytes(base, values).len() == 0,
{
    reveal(stream_bytes);
    if values.len() > 0 {
        lemma_entry((values[0] - base - 1) as nat, 4, Seq::empty());
    }
}

/// One more value behind the last: its entry follows the bytes so far.
pub proof fn lemma_stream_push(base: u32, values: Seq<u32>, x: u32)
    requires
        ascending(base, values),
        x > last_from(base, values),
    ensures
        ascending(base, values.push(x)),
        stream_bytes(base, values.push(x)) == stream_bytes(base, values) + entry_bytes(
            (x - last_from(base, values) - 1) as nat,
        ),
    decreases values.len(),
{
    reveal(stream_bytes);
    let more = values.push(x);
    if values.len() == 0 {
        assert(more.skip(1) =~= Seq::<u32>::empty());
        assert(stream_bytes(x, more.skip(1)) =~= Seq::<u8>::empty());
        assert(stream_bytes(base, more) =~= entry_bytes((x - base - 1) as nat));
        assert(stream_bytes(base, values) + entry_bytes((x - base - 1) as nat) =~= entry_bytes(
            (x - base - 1) as nat,
        ));
    } else {
        let tail = values.skip(1);
        assert(ascending(values[0], tail));
        assert(last_from(values[0], tail) == last_from(base, values));
        lemma_stream_push(values[0], tail, x);
        assert(more.skip(1) =~= tail.push(x));
        assert(more[0] == values[0]);
        assert(stream_bytes(base, more) =~= stream_bytes(base, values) + entry_bytes(
            (x - last_from(base, values) - 1) as nat,
        ));
    }
}

/// Reading the bytes of a sequence gives the sequence.
pub proof fn lemma_round_trip(base: u32, values: Seq<u32>)
    requires
        ascending(base, values),
    ensures
        decoding(base, stream_bytes(base, values)) == values,
    decreases values.len(),
{
    reveal(stream_bytes);
    reveal(decoding);
    let bytes = stream_bytes(base, values);
    if values.len() == 0 {
        assert(decoding(base, bytes) =~= values);
    } else {
        let gap = (values[0] - base - 1) as nat;
        let rest = stream_bytes(values[0], values.skip(1));
        lemma_entry(gap, 4, rest);
        lemma_round_trip(values[0], values.skip(1));
        assert(bytes.skip(entry_bytes(gap).len() as int) =~= rest);
        assert(decoding(base, bytes) =~= values);
    }
}

} // verus!

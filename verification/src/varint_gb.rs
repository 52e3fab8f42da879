//! GroupBinary: values in groups of four behind a descriptor byte.
//!
//! A [`VarintGBFactory`] takes the values, none below the one before it, and
//! hands over a [`VarintGB`], which owns the bytes. An [`Iter`] walks the
//! bytes group by group with the help of a [`DescriptorTable`], which holds
//! for each descriptor byte the payload length and the lane-selection mask of
//! its group. A group is decoded with a byte shuffle of the sixteen bytes
//! behind its descriptor where that many bytes and one more are left, and
//! byte by byte near the end; both give the same values.

use crate::gb_layout::{
    after_push, byte_width, decoding, delta_bytes, distinct_values, encoding, field,
    first_group_size, gaps, lanes, last_descriptor_position, last_group, le_byte, length_i,
    nondecreasing, packed, padded_group, previous, scalar_lanes, shuffle_mask, shuffled,
    shuffled_byte, slot_offset, slot_value, stream_bytes, surplus, takes_safe_path, total,
    total_length,
};
use crate::gb_lemmas::{
    lemma_first_group, lemma_open_group, lemma_push_value, lemma_round_trip,
    lemma_shuffle_matches_scalar, lemma_stream_length, lemma_total, lemma_width_by_bytes,
};
use crate::{accept, into_boxed_slice, top_of, with_distinct, with_value, OrderingViolation};
use vstd::prelude::*;

verus! {

/// A finished GroupBinary sequence: the bytes and the number of values.
pub struct VarintGB {
    byte_stream: Box<[u8]>,
    len: usize,
    values: Ghost<Seq<u32>>,
}

impl VarintGB {
    #[verifier::type_invariant]
    spec fn well_formed(self) -> bool {
        &&& nondecreasing(0, self.values@)
        &&& self.byte_stream@ == encoding(self.values@)
        &&& self.len == self.values@.len()
    }

    /// The values of the sequence, in order.
    pub closed spec fn view(&self) -> Seq<u32> {
        self.values@
    }

    /// The bytes that the sequence holds.
    pub closed spec fn encoded(&self) -> Seq<u8> {
        self.byte_stream@
    }

    /// The empty sequence.
    pub fn new() -> (sequence: Self)
        ensures
            sequence@ == Seq::<u32>::empty(),
            sequence.encoded() == Seq::<u8>::empty(),
    {
        proof {
            reveal(stream_bytes);
            assert(gaps(0, Seq::<u32>::empty()) =~= Seq::<u32>::empty());
        }
        VarintGB {
            byte_stream: into_boxed_slice(Vec::new()),
            len: 0,
            values: Ghost(Seq::empty()),
        }
    }

    /// An iterator over the values, from the first one on.
    pub fn iter<'a, 'b>(&'a self, shuffle_table: &'b DescriptorTable) -> (iter: Iter<'a, 'b>)
        ensures
            iter@ == self@,
            iter@ == decoding(self.encoded(), self@.len()),
            iter.total() == self@.len(),
    {
        proof {
            use_type_invariant(self);
            lemma_round_trip(self.values@);
            assert(self.byte_stream@.skip(0) =~= self.byte_stream@);
        }
        Iter {
            descriptor_table: shuffle_table,
            byte_stream: &self.byte_stream,
            descriptor_index: 0,
            last_top: 0,
            len: self.len,
            rest: Ghost(self.values@),
        }
    }

    /// All values of the sequence, in order. The bytes are walked group by
    /// group; a group near the end is read byte by byte, any other with the
    /// byte shuffle; the walk ends with the last value.
    pub fn get_values(&self, descriptor_table: &DescriptorTable) -> (output: Vec<u32>)
        ensures
            output@ == self@,
            output@ == decoding(self.encoded(), self@.len()),
    {
        proof {
            use_type_invariant(self);
            lemma_round_trip(self.values@);
            assert(self.byte_stream@.skip(0) =~= self.byte_stream@);
            assert(self.values@.skip(0) =~= self.values@);
            assert(self.values@.take(0) =~= Seq::<u32>::empty());
        }
        let ghost values = self.values@;
        let length = self.byte_stream.len();
        let mut output: Vec<u32> = Vec::with_capacity(self.len());
        let mut descriptor_index: usize = 0;
        let mut last: u32 = 0;
        while descriptor_index < length
            invariant
                values == self.values@,
                values == decoding(self.encoded(), values.len()),
                self.len == values.len(),
                length == self.byte_stream@.len(),
                descriptor_index <= length,
                output@.len() <= values.len(),
                output@ == values.take(output@.len() as int),
                nondecreasing(last, values.skip(output@.len() as int)),
                self.byte_stream@.skip(descriptor_index as int) == stream_bytes(
                    gaps(last, values.skip(output@.len() as int)),
                ),
            decreases length - descriptor_index,
        {
            let ghost done = output@.len() as int;
            let ghost rest = values.skip(done);
            let ghost base = last;
            let ghost tail = self.byte_stream@.skip(descriptor_index as int);
            proof {
                lemma_stream_length(gaps(last, rest));
                lemma_first_group(last, rest);
            }
            let descriptor = self.byte_stream[descriptor_index];
            assert(descriptor == tail[0]);
            let desc_entry = descriptor_table.get_entry_for_descriptor(descriptor);

            if near_end(descriptor_index, length) {
                let chunk_byte_stream = &self.byte_stream[descriptor_index + 1..length];
                assert(chunk_byte_stream@ =~= tail.skip(1));
                let ghost position = descriptor_index as int;
                descriptor_index = advance(descriptor_index, desc_entry.length + 1, length);
                assert(descriptor_index > position);
                let delta_chunk = decode_chunk_safe_non_simd(descriptor, chunk_byte_stream);

                for j in 0..4usize
                    invariant
                        values == self.values@,
                        values == decoding(self.encoded(), values.len()),
                        self.len == values.len(),
                        rest == values.skip(done),
                        0 <= done <= values.len(),
                        output@.len() == done + j,
                        output@.len() <= values.len(),
                        output@ == values.take(done + j),
                        last == previous(base, rest, j as int),
                        forall|i: int|
                            0 <= i < 4 && i < rest.len() ==> previous(base, rest, i)
                                + #[trigger] delta_chunk@[i] == rest[i],
                {
                    if output.len() == self.len {
                        assert(output@ =~= values);
                        return output;
                    }
                    last = last + delta_chunk[j];
                    output.push(last);
                    assert(output@ =~= values.take(done + j + 1));
                }
            } else {
                proof {
                    lemma_shuffle_matches_scalar(descriptor, tail.skip(1));
                    assert(self.byte_stream@.subrange(descriptor_index + 1, descriptor_index + 17)
                        =~= tail.skip(1).take(16));
                }
                let delta_chunk = decode_chunk_by_address(
                    &self.byte_stream,
                    descriptor_index + 1,
                    desc_entry.shuffle_sequence,
                );
                for j in 0..4usize
                    invariant
                        rest == values.skip(done),
                        0 <= done,
                        done + 4 <= values.len(),
                        output@.len() == done + j,
                        output@ == values.take(done + j),
                        last == previous(base, rest, j as int),
                        forall|i: int|
                            0 <= i < 4 ==> previous(base, rest, i) + #[trigger] delta_chunk@[i]
                                == rest[i],
                {
                    last = last + delta_chunk[j];
                    output.push(last);
                    assert(output@ =~= values.take(done + j + 1));
                }
                descriptor_index += (desc_entry.length + 1) as usize;
            }
            proof {
                assert(rest.len() >= 4);
                assert(rest.skip(4) =~= values.skip(done + 4));
                assert(self.byte_stream@.skip(descriptor_index as int) =~= tail.skip(
                    1 + total_length(descriptor),
                ));
            }
        }
        proof {
            let rest = values.skip(output@.len() as int);
            lemma_stream_length(gaps(last, rest));
            assert(output@ =~= values);
        }
        output
    }

    /// The bytes of the sequence. Read from the start, they give the values
    /// back.
    pub fn byte_stream(&self) -> (bytes: &[u8])
        ensures
            bytes@ == self.encoded(),
            bytes@ == encoding(self@),
            decoding(bytes@, self@.len()) == self@,
            nondecreasing(0, self@),
    {
        proof {
            use_type_invariant(self);
            lemma_round_trip(self.values@);
        }
        &self.byte_stream
    }

    /// The number of values.
    pub fn len(&self) -> (count: usize)
        ensures
            count == self@.len(),
    {
        proof {
            use_type_invariant(self);
        }
        self.len
    }
}

/// Iterator over a GroupBinary sequence, one group at a step.
pub struct Iter<'a, 'b> {
    descriptor_table: &'b DescriptorTable,
    byte_stream: &'a [u8],
    len: usize,
    descriptor_index: usize,
    last_top: u32,
    rest: Ghost<Seq<u32>>,
}

impl<'a, 'b> Iter<'a, 'b> {
    #[verifier::type_invariant]
    spec fn well_formed(self) -> bool {
        &&& nondecreasing(self.last_top, self.rest@)
        &&& self.descriptor_index <= self.byte_stream@.len()
        &&& self.byte_stream@.skip(self.descriptor_index as int) == stream_bytes(
            gaps(self.last_top, self.rest@),
        )
    }

    /// The values that are still to come, in order.
    pub closed spec fn view(&self) -> Seq<u32> {
        self.rest@
    }

    /// The number of values of the sequence that is iterated over.
    pub closed spec fn total(&self) -> nat {
        self.len as nat
    }

    /// The number of values of the whole sequence, those already handed out
    /// included.
    pub fn len(&self) -> (count: usize)
        ensures
            count == self.total(),
    {
        self.len
    }

    /// Hands out the next group as four values, or `None` where no value is
    /// left. Where fewer than four values are left, the last of them fills
    /// the slots behind it.
    pub fn next(&mut self) -> (chunk: Option<[u32; 4]>)
        ensures
            final(self).total() == old(self).total(),
            match chunk {
                Some(values) => {
                    &&& old(self)@.len() > 0
                    &&& values@ == padded_group(old(self)@)
                    &&& final(self)@ == old(self)@.skip(first_group_size(old(self)@.len() as int))
                },
                None => old(self)@.len() == 0 && final(self)@ == old(self)@,
            },
    {
        proof {
            use_type_invariant(&*self);
            lemma_stream_length(gaps(self.last_top, self.rest@));
        }
        if self.descriptor_index >= self.byte_stream.len() {
            return None;
        }
        let ghost rest = self.rest@;
        let ghost tail = self.byte_stream@.skip(self.descriptor_index as int);
        proof {
            lemma_first_group(self.last_top, rest);
        }

        let descriptor = self.byte_stream[self.descriptor_index];
        assert(descriptor == tail[0]);

        let desc_entry = self.descriptor_table.get_entry_for_descriptor(descriptor);
        let length = self.byte_stream.len();
        let mut delta_chunk: [u32; 4];
        let descriptor_index: usize;

        if near_end(self.descriptor_index, length) {
            // fewer than sixteen bytes and one more are left: byte by byte
            let chunk_byte_stream = &self.byte_stream[self.descriptor_index + 1..length];
            assert(chunk_byte_stream@ =~= tail.skip(1));
            descriptor_index = advance(self.descriptor_index, desc_entry.length + 1, length);
            delta_chunk = decode_chunk_safe_non_simd(descriptor, chunk_byte_stream);
        } else {
            proof {
                lemma_shuffle_matches_scalar(descriptor, tail.skip(1));
                assert(self.byte_stream@.subrange(
                    self.descriptor_index + 1,
                    self.descriptor_index + 17,
                ) =~= tail.skip(1).take(16));
            }
            delta_chunk = decode_chunk_by_address(
                self.byte_stream,
                self.descriptor_index + 1,
                desc_entry.shuffle_sequence,
            );
            descriptor_index = self.descriptor_index + (desc_entry.length + 1) as usize;
        }
        let ghost size = first_group_size(rest.len() as int);
        assert(self.byte_stream@.skip(descriptor_index as int) == stream_bytes(
            gaps(padded_group(rest)[3], rest.skip(size)),
        )) by {
            if rest.len() >= 4 {
                assert(self.byte_stream@.skip(descriptor_index as int) =~= tail.skip(
                    1 + total_length(descriptor),
                ));
            } else {
                assert(rest.skip(size) =~= Seq::<u32>::empty());
                assert(gaps(padded_group(rest)[3], rest.skip(size)) =~= Seq::<u32>::empty());
                lemma_stream_length(gaps(padded_group(rest)[3], rest.skip(size)));
                assert(self.byte_stream@.skip(descriptor_index as int) =~= Seq::<u8>::empty());
            }
        }

        delta_chunk_to_value_chunk(&mut delta_chunk, self.last_top);
        assert(delta_chunk@ =~= padded_group(rest));
        *self = Iter {
            descriptor_table: self.descriptor_table,
            byte_stream: self.byte_stream,
            len: self.len,
            descriptor_index,
            last_top: delta_chunk[3],
            rest: Ghost(rest.skip(size)),
        };
        Some(delta_chunk)
    }
}

/// Whether the group whose descriptor stands at `position` of `length` bytes
/// has to be decoded byte by byte: fewer than sixteen bytes and one more
/// stand behind its descriptor.
fn near_end(position: usize, length: usize) -> (near: bool)
    requires
        position < length,
    ensures
        near == takes_safe_path(position as int, length as int),
{
    length - position <= 17
}

/// The position behind a group: `step` bytes on, and no further than the
/// end.
fn advance(position: usize, step: u8, length: usize) -> (next: usize)
    requires
        position <= length,
    ensures
        next == (if position + step <= length {
            position + step
        } else {
            length as int
        }),
{
    if length - position < step as usize {
        length
    } else {
        position + step as usize
    }
}

/// Turns the four distances of a group into values: each distance is added
/// to the value in front of it, `last_top` in front of the first.
#[inline(always)]
fn delta_chunk_to_value_chunk(delta_chunk: &mut [u32; 4], last_top: u32)
    requires
        last_top + old(delta_chunk)@[0] + old(delta_chunk)@[1] + old(delta_chunk)@[2] + old(
            delta_chunk,
        )@[3] <= u32::MAX,
    ensures
        final(delta_chunk)@[0] == last_top + old(delta_chunk)@[0],
        final(delta_chunk)@[1] == final(delta_chunk)@[0] + old(delta_chunk)@[1],
        final(delta_chunk)@[2] == final(delta_chunk)@[1] + old(delta_chunk)@[2],
        final(delta_chunk)@[3] == final(delta_chunk)@[2] + old(delta_chunk)@[3],
{
    delta_chunk[0] += last_top;
    delta_chunk[1] += delta_chunk[0];
    delta_chunk[2] += delta_chunk[1];
    delta_chunk[3] += delta_chunk[2];
}

/// Takes values in order and builds the bytes of a GroupBinary sequence.
pub struct VarintGBFactory {
    byte_stream: Vec<u8>,
    top: u32,
    descriptor_index: usize,
    index_in_chunk: u8,
    bytes_in_current_chunk: u8,
    no_of_chunks: usize,
    len: usize,
    values: Ghost<Seq<u32>>,
}

impl VarintGBFactory {
    #[verifier::type_invariant]
    spec fn well_formed(self) -> bool {
        let deltas = gaps(0, self.values@);
        &&& nondecreasing(0, self.values@)
        &&& self.byte_stream@ == encoding(self.values@)
        &&& self.top == top_of(self.values@)
        &&& self.len == self.values@.len()
        &&& self.len <= self.byte_stream@.len()
        &&& self.index_in_chunk == self.len % 4
        &&& self.no_of_chunks == (self.len + 3) / 4
        &&& self.descriptor_index == last_descriptor_position(deltas)
        &&& self.bytes_in_current_chunk == surplus(last_group(deltas))
    }

    /// The values pushed so far, in order.
    pub closed spec fn view(&self) -> Seq<u32> {
        self.values@
    }

    /// The bytes built so far.
    pub closed spec fn encoded(&self) -> Seq<u8> {
        self.byte_stream@
    }

    /// A factory that holds no value.
    pub fn new() -> (factory: Self)
        ensures
            factory@ == Seq::<u32>::empty(),
            factory.encoded() == Seq::<u8>::empty(),
    {
        proof {
            reveal(stream_bytes);
            let none = Seq::<u32>::empty();
            assert(gaps(0, none) =~= none);
            assert(none.take(0) =~= none);
            assert(last_group(none) =~= none);
            assert(surplus(none) == 0);
        }
        VarintGBFactory {
            byte_stream: Vec::new(),
            top: 0,
            descriptor_index: 0,
            index_in_chunk: 0,
            bytes_in_current_chunk: 0,
            no_of_chunks: 0,
            len: 0,
            values: Ghost(Seq::empty()),
        }
    }

    /// The last value pushed, or zero where none was.
    pub fn get_top(&self) -> (top: u32)
        ensures
            top == top_of(self@),
    {
        proof {
            use_type_invariant(self);
        }
        self.top
    }

    /// The number of groups begun so far.
    pub fn no_of_chunks(&self) -> (count: usize)
        ensures
            count == (self@.len() + 3) / 4,
    {
        proof {
            use_type_invariant(self);
        }
        self.no_of_chunks
    }

    /// Pushes `num` unless it is the last value pushed (or zero, where none
    /// was).
    pub fn push_if_not_on_top(&mut self, num: u32) -> (result: Result<(), OrderingViolation>)
        ensures
            result == accept(top_of(old(self)@), num),
            final(self)@ == with_distinct(old(self)@, num),
            old(self).encoded() == encoding(old(self)@),
            final(self).encoded() == encoding(final(self)@),
    {
        proof {
            use_type_invariant(&*self);
        }
        if self.get_top() != num {
            self.push_int(num)
        } else {
            Ok(())
        }
    }

    /// Appends `x`, which must not be below the last value pushed. The
    /// distance to that value goes into the next slot: its bytes behind the
    /// bytes so far, its width into the group's descriptor, which is begun
    /// where the slot is the first of a group. A value below the last one is
    /// refused, and nothing changes.
    pub fn push_int(&mut self, x: u32) -> (result: Result<(), OrderingViolation>)
        ensures
            result == accept(top_of(old(self)@), x),
            final(self)@ == with_value(old(self)@, x),
            old(self).encoded() == encoding(old(self)@),
            final(self).encoded() == encoding(final(self)@),
    {
        proof {
            use_type_invariant(&*self);
        }
        if x < self.top {
            return Err(OrderingViolation { top: self.top, value: x });
        }
        let mut taken = VarintGBFactory::new();
        std::mem::swap(self, &mut taken);
        let VarintGBFactory {
            mut byte_stream,
            top,
            mut descriptor_index,
            index_in_chunk,
            mut bytes_in_current_chunk,
            mut no_of_chunks,
            len,
            values,
        } = taken;

        let delta = x - top;
        let ghost before = byte_stream@;

        // the first slot of a group: the group begins with a descriptor of zero
        if index_in_chunk == 0 {
            byte_stream.push(0);
            descriptor_index = byte_stream.len() - 1;
            bytes_in_current_chunk = 0;
            no_of_chunks = no_of_chunks + 1;
        }
        proof {
            if index_in_chunk != 0 {
                lemma_open_group(values@);
            }
        }
        let ghost begun = byte_stream@;
        let x_bytes_sized: [u8; 4] = le_bytes(delta);

        // leave out the zero bytes at the high end, but for the lowest byte
        let mut width: usize = 4;
        while width > 1 && x_bytes_sized[width - 1] == 0
            invariant
                1 <= width <= 4,
                forall|i: int| 0 <= i < 4 ==> x_bytes_sized@[i] == le_byte(delta, i),
                forall|i: int| width <= i < 4 ==> le_byte(delta, i) == 0,
            decreases width,
        {
            width -= 1;
        }
        assert(width == byte_width(delta)) by {
            assert(le_byte(delta, width - 1) == x_bytes_sized@[width - 1]);
            lemma_width_by_bytes(delta, width as int);
        }

        for i in 0..width
            invariant
                1 <= width <= 4,
                byte_stream@.len() == begun.len() + i,
                forall|j: int| 0 <= j < begun.len() ==> byte_stream@[j] == begun[j],
                forall|j: int| 0 <= j < i ==> byte_stream@[begun.len() + j] == x_bytes_sized@[j],
        {
            byte_stream.push(x_bytes_sized[i]);
        }
        assert(byte_stream@ =~= begun + delta_bytes(delta));
        assert(byte_stream@[descriptor_index as int] == begun[descriptor_index as int]);

        // the width, less one, goes into the descriptor at the place of the slot
        let mut int_len = (width - 1) as u8;
        bytes_in_current_chunk = bytes_in_current_chunk + int_len;

        proof {
            lemma_descriptor_gains_field(
                byte_stream@[descriptor_index as int],
                int_len,
                index_in_chunk,
            );
        }
        int_len <<= index_in_chunk * 2;

        byte_stream[descriptor_index] ^= int_len;

        assert(byte_stream@ == after_push(
            before,
            descriptor_index as int,
            index_in_chunk as int,
            delta,
        ));
        assert(len < byte_stream.len());
        proof {
            lemma_next_slot(len as int);
            lemma_push_value(values@, x);
        }
        *self = VarintGBFactory {
            byte_stream,
            top: x,
            descriptor_index,
            index_in_chunk: (index_in_chunk + 1) % 4,
            bytes_in_current_chunk,
            no_of_chunks,
            len: len + 1,
            values: Ghost(values@.push(x)),
        };
        Ok(())
    }

    /// Hands the bytes over as a finished sequence and leaves the factory as
    /// new: calling this again at once gives an empty sequence.
    pub fn into_varint_gb(&mut self) -> (sequence: VarintGB)
        ensures
            sequence@ == old(self)@,
            sequence.encoded() == old(self).encoded(),
            sequence.encoded() == encoding(old(self)@),
            nondecreasing(0, sequence@),
            final(self)@ == Seq::<u32>::empty(),
            final(self).encoded() == Seq::<u8>::empty(),
    {
        proof {
            use_type_invariant(&*self);
        }
        let mut taken = VarintGBFactory::new();
        std::mem::swap(self, &mut taken);
        VarintGB {
            byte_stream: into_boxed_slice(taken.byte_stream),
            len: taken.len,
            values: taken.values,
        }
    }
}

/// The slot and the number of groups behind one more value.
proof fn lemma_next_slot(len: int)
    requires
        0 <= len,
    ensures
        (len % 4 + 1) % 4 == (len + 1) % 4,
        (len + 1 + 3) / 4 == (len + 3) / 4 + (if len % 4 == 0 {
            1int
        } else {
            0
        }),
{
}

/// The four little-endian bytes of `delta`.
fn le_bytes(delta: u32) -> (bytes: [u8; 4])
    ensures
        forall|i: int| 0 <= i < 4 ==> bytes@[i] == le_byte(delta, i),
{
    [
        (delta % 0x100) as u8,
        ((delta / 0x100) % 0x100) as u8,
        ((delta / 0x1_0000) % 0x100) as u8,
        ((delta / 0x100_0000) % 0x100) as u8,
    ]
}

/// A two-bit value put with exclusive-or at the place of a slot of a
/// descriptor whose fields from that slot on are zero is added there.
proof fn lemma_descriptor_gains_field(descriptor: u8, value: u8, slot: u8)
    requires
        value < 4,
        slot < 4,
        (descriptor as int) < field(1, slot as int),
    ensures
        descriptor ^ (value << ((slot * 2) as u8)) == descriptor + field(value as int, slot as int),
{
    lemma_descriptor_xor(descriptor, value);
    if slot == 0 {
        assert((slot * 2) as u8 == 0u8);
    } else if slot == 1 {
        assert((slot * 2) as u8 == 2u8);
    } else if slot == 2 {
        assert((slot * 2) as u8 == 4u8);
    } else {
        assert((slot * 2) as u8 == 6u8);
    }
}

/// The same slot by slot, in terms of bits.
proof fn lemma_descriptor_xor(descriptor: u8, value: u8)
    by (bit_vector)
    requires
        value < 4,
    ensures
        descriptor < 1 ==> descriptor ^ (value << 0u8) == descriptor + value,
        descriptor < 4 ==> descriptor ^ (value << 2u8) == descriptor + value * 4,
        descriptor < 16 ==> descriptor ^ (value << 4u8) == descriptor + value * 16,
        descriptor < 64 ==> descriptor ^ (value << 6u8) == descriptor + value * 64,
{
}

/// Width in bytes of slot `index` of a group with this descriptor.
pub fn descriptor_length_i(descriptor: u8, index: usize) -> (len: u8)
    requires
        index < 4,
    ensures
        len == length_i(descriptor, index as int),
        1 <= len <= 4,
{
    let mut mask = 0b00000011u8;
    mask <<= index * 2;
    let len = descriptor & mask;
    proof {
        lemma_descriptor_fields(descriptor);
    }
    (len >> (index * 2)) + 1
}

/// Number of payload bytes of a full group with this descriptor.
pub fn descriptor_length_total(descriptor: u8) -> (length: u8)
    ensures
        length == total_length(descriptor),
        4 <= length <= 16,
{
    let mut length: u8 = 0;
    for i in 0..4usize
        invariant
            length == slot_offset(descriptor, i as int),
    {
        length += descriptor_length_i(descriptor, i);
    }
    length
}

/// The descriptor's two-bit fields, read with mask and shift, are its base-4
/// digits.
proof fn lemma_descriptor_fields(descriptor: u8)
    by (bit_vector)
    ensures
        (descriptor & (3u8 << 0u8)) >> 0u8 == descriptor % 4,
        (descriptor & (3u8 << 2u8)) >> 2u8 == (descriptor / 4) % 4,
        (descriptor & (3u8 << 4u8)) >> 4u8 == (descriptor / 16) % 4,
        (descriptor & (3u8 << 6u8)) >> 6u8 == (descriptor / 64) % 4,
{
}

/// The lane-selection mask for a descriptor: output byte `4 * slot + n` takes
/// payload byte `n` of the slot where the slot is that wide, and is marked to
/// read as zero where it is not.
pub fn shuffle_sequence_from_descriptor(descriptor: u8) -> (shuffle: [i8; 16])
    ensures
        shuffle@ == shuffle_mask(descriptor),
{
    let mut word_index: i8 = 0;
    let mut shuffle_index: usize = 0;
    let mut shuffle = [0_i8;16];

    for i in 0..4usize
        invariant
            shuffle_index == 4 * i,
            word_index == slot_offset(descriptor, i as int),
            forall|j: int| 0 <= j < 4 * i ==> shuffle@[j] == shuffle_mask(descriptor)[j],
    {
        let word_len = descriptor_length_i(descriptor, i);
        for n in 0..4u8
            invariant
                i < 4,
                word_len == length_i(descriptor, i as int),
                shuffle_index == 4 * i + n,
                word_index == slot_offset(descriptor, i as int) + (if n < word_len {
                    n
                } else {
                    word_len
                }),
                forall|j: int| 0 <= j < 4 * i + n ==> shuffle@[j] == shuffle_mask(descriptor)[j],
        {
            if n < word_len {
                shuffle[shuffle_index] = word_index;
                word_index += 1;
            } else {
                shuffle[shuffle_index] = -1;
            }
            shuffle_index += 1;
        }
    }

    assert(shuffle@ =~= shuffle_mask(descriptor));
    shuffle
}

/// What the decoder keeps for one descriptor byte: the lane-selection mask
/// that unpacks a group with that descriptor, and the length of its payload.
#[derive(Copy, Clone)]
pub struct DescriptorEntry {
    shuffle_sequence: [i8; 16],
    length: u8,
}

impl DescriptorEntry {
    /// The lane-selection mask, sixteen selectors.
    pub closed spec fn mask(&self) -> Seq<i8> {
        self.shuffle_sequence@
    }

    /// The number of payload bytes.
    pub closed spec fn payload_length(&self) -> int {
        self.length as int
    }

    /// The entry is the one that belongs to `descriptor`.
    pub open spec fn describes(&self, descriptor: u8) -> bool {
        &&& self.mask() == shuffle_mask(descriptor)
        &&& self.payload_length() == total_length(descriptor)
    }
}

/// The entries for all 256 descriptor bytes, built once and read from then on.
pub struct DescriptorTable {
    table: Vec<DescriptorEntry>,
}

impl DescriptorTable {
    #[verifier::type_invariant]
    spec fn well_formed(self) -> bool {
        &&& self.table@.len() == 256
        &&& forall|d: int| 0 <= d < 256 ==> (#[trigger] self.table@[d]).describes(d as u8)
    }

    /// The entries, the one of descriptor byte `d` at index `d`.
    pub closed spec fn view(&self) -> Seq<DescriptorEntry> {
        self.table@
    }

    /// Builds the table.
    pub fn new() -> (table: Self)
        ensures
            table@.len() == 256,
            forall|d: int| 0 <= d < 256 ==> (#[trigger] table@[d]).describes(d as u8),
    {
        let mut table: Vec<DescriptorEntry> = Vec::with_capacity(256);
        for descriptor in 0..256usize
            invariant
                table@.len() == descriptor,
                forall|d: int| 0 <= d < descriptor ==> (#[trigger] table@[d]).describes(d as u8),
        {
            table.push(Self::create_entry_for_descriptor(descriptor as u8))
        }

        DescriptorTable { table }
    }

    fn create_entry_for_descriptor(descriptor: u8) -> (entry: DescriptorEntry)
        ensures
            entry.describes(descriptor),
    {
        let shf = shuffle_sequence_from_descriptor(descriptor);
        let length = descriptor_length_total(descriptor);
        DescriptorEntry { shuffle_sequence: shf, length }
    }

    /// The entry of a descriptor byte.
    #[inline(always)]
    pub fn get_entry_for_descriptor(&self, descriptor: u8) -> (entry: DescriptorEntry)
        ensures
            entry == self@[descriptor as int],
            entry.describes(descriptor),
    {
        proof {
            use_type_invariant(self);
        }
        self.table[descriptor as usize]
    }

    /// The lane-selection mask of a descriptor byte.
    pub fn get_shuffle_for_descriptor(&mut self, descriptor: u8) -> (shuffle: [i8; 16])
        ensures
            shuffle@ == shuffle_mask(descriptor),
            *final(self) == *old(self),
    {
        self.get_entry_for_descriptor(descriptor).shuffle_sequence
    }

    /// The payload length of a full group with this descriptor byte: the sum
    /// of its four slot widths.
    pub fn get_length_for_descriptor(&mut self, descriptor: u8) -> (length: u8)
        ensures
            length == total_length(descriptor),
            length == length_i(descriptor, 0) + length_i(descriptor, 1) + length_i(descriptor, 2)
                + length_i(descriptor, 3),
            *final(self) == *old(self),
    {
        self.get_entry_for_descriptor(descriptor).length
    }
}

/// Decodes one group byte by byte. `byte_stream` starts behind the group's
/// descriptor. Each slot gives the number that its bytes spell in
/// little-endian order; where `byte_stream` ends before a slot does, that
/// slot and those behind it give zero.
#[inline(always)]
pub fn decode_chunk_safe_non_simd(descriptor: u8, byte_stream: &[u8]) -> (chunk: [u32; 4])
    ensures
        chunk@ == scalar_lanes(descriptor, byte_stream@),
{
    let mut chunk = [0u32;4];
    let mut index: usize = 0;
    for i in 0..4usize
        invariant
            index == slot_offset(descriptor, i as int),
            index <= byte_stream@.len(),
            forall|s: int| 0 <= s < i ==> chunk@[s] == slot_value(descriptor, byte_stream@, s),
            forall|s: int| i <= s < 4 ==> chunk@[s] == 0,
    {
        let len = descriptor_length_i(descriptor, i);
        let mut num: u32 = 0;
        for pos in 0..len
            invariant
                i < 4,
                len == length_i(descriptor, i as int),
                1 <= len <= 4,
                index == slot_offset(descriptor, i as int) + pos,
                index <= byte_stream@.len(),
                num == packed(byte_stream@, slot_offset(descriptor, i as int), pos as int),
                forall|s: int| 0 <= s < i ==> chunk@[s] == slot_value(descriptor, byte_stream@, s),
                forall|s: int| i <= s < 4 ==> chunk@[s] == 0,
        {
            if index >= byte_stream.len() {
                proof {
                    reveal(slot_value);
                }
                assert(chunk@ =~= scalar_lanes(descriptor, byte_stream@));
                return chunk;
            }
            proof {
                lemma_byte_shift(byte_stream@[index as int]);
            }
            num += (byte_stream[index] as u32) << pos * 8;
            index += 1;
        }
        proof {
            reveal(slot_value);
        }
        chunk[i] = num;
    }
    assert(chunk@ =~= scalar_lanes(descriptor, byte_stream@));
    chunk
}

/// Decodes one group with a byte shuffle: `chunk` holds the sixteen bytes
/// behind the group's descriptor, `shuffle_sequence` the lane-selection mask.
/// The shuffle puts a zero where a selector is negative and the chunk byte
/// that the selector's low four bits name where it is not; the sixteen
/// bytes that come out are read as four little-endian lanes.
pub fn decode_chunk(chunk: &[u8; 16], shuffle_sequence: [i8; 16]) -> (unshuffled: [u32; 4])
    ensures
        unshuffled@ == lanes(shuffled(chunk@, shuffle_sequence@)),
{
    let ghost out = shuffled(chunk@, shuffle_sequence@);
    let mut unshuffled = [0u32;4];
    for k in 0..4usize
        invariant
            out == shuffled(chunk@, shuffle_sequence@),
            forall|s: int| 0 <= s < k ==> unshuffled@[s] == packed(out, 4 * s, 4),
    {
        let mut lane: u32 = 0;
        for n in 0..4u8
            invariant
                k < 4,
                out == shuffled(chunk@, shuffle_sequence@),
                lane == packed(out, 4 * k, n as int),
        {
            let selector = shuffle_sequence[4 * k + n as usize];
            let byte = if selector < 0 {
                0u8
            } else {
                proof {
                    lemma_selector_index(selector);
                }
                chunk[(selector & 0x0f) as usize]
            };
            assert(byte == shuffled_byte(chunk@, shuffle_sequence@[4 * k + n]));
            assert(byte == out[4 * k + n]);
            proof {
                lemma_byte_shift(byte);
            }
            lane += (byte as u32) << n * 8;
        }
        unshuffled[k] = lane;
    }
    proof {
        reveal(lanes);
    }
    assert(unshuffled@ =~= lanes(out));
    unshuffled
}

/// Decodes one group with a byte shuffle of the sixteen bytes of
/// `byte_stream` that start at index `chunk_addr`.
#[inline(always)]
pub fn decode_chunk_by_address(
    byte_stream: &[u8],
    chunk_addr: usize,
    shuffle_sequence: [i8; 16],
) -> (unshuffled: [u32; 4])
    requires
        chunk_addr + 16 <= byte_stream.len(),
    ensures
        unshuffled@ == lanes(
            shuffled(
                byte_stream@.subrange(chunk_addr as int, chunk_addr + 16),
                shuffle_sequence@,
            ),
        ),
{
    let mut four_numbers = [0u8;16];
    for j in 0..16usize
        invariant
            chunk_addr + 16 <= byte_stream.len(),
            forall|t: int| 0 <= t < j ==> four_numbers@[t] == byte_stream@[chunk_addr + t],
    {
        four_numbers[j] = byte_stream[chunk_addr + j];
    }
    assert(four_numbers@ =~= byte_stream@.subrange(chunk_addr as int, chunk_addr + 16));
    decode_chunk(&four_numbers, shuffle_sequence)
}

/// Decodes one group with a byte shuffle, as `decode_chunk` does, and puts
/// the four lanes at the end of `destination_vec`.
pub fn decode_chunk_to(
    chunk: &[u8; 16],
    shuffle_sequence: [i8; 16],
    destination_vec: &mut Vec<[u32; 4]>,
)
    ensures
        final(destination_vec)@.len() == old(destination_vec)@.len() + 1,
        final(destination_vec)@.last()@ == lanes(shuffled(chunk@, shuffle_sequence@)),
        final(destination_vec)@.drop_last() == old(destination_vec)@,
{
    destination_vec.push(decode_chunk(chunk, shuffle_sequence));
    assert(destination_vec@.drop_last() =~= old(destination_vec)@);
}

/// Decodes one group with a byte shuffle, as `decode_chunk` does, and puts
/// the four lanes into `destination`.
pub fn decode_chunk_to_address(
    chunk: &[u8; 16],
    shuffle_sequence: [i8; 16],
    destination: &mut [u32; 4],
)
    ensures
        final(destination)@ == lanes(shuffled(chunk@, shuffle_sequence@)),
{
    *destination = decode_chunk(chunk, shuffle_sequence);
}

/// Decodes one group with a byte shuffle of the sixteen bytes of
/// `byte_stream` that start at index `chunk_addr`, and puts the four lanes
/// into `destination`.
pub fn decode_chunk_by_address_to_address(
    byte_stream: &[u8],
    chunk_addr: usize,
    shuffle_sequence: [i8; 16],
    destination: &mut [u32; 4],
)
    requires
        chunk_addr + 16 <= byte_stream.len(),
    ensures
        final(destination)@ == lanes(
            shuffled(
                byte_stream@.subrange(chunk_addr as int, chunk_addr + 16),
                shuffle_sequence@,
            ),
        ),
{
    *destination = decode_chunk_by_address(byte_stream, chunk_addr, shuffle_sequence);
}

/// A byte shifted to byte position `pos` of a 32-bit word is the byte times
/// 256 to the power `pos`.
proof fn lemma_byte_shift(byte: u8)
    by (bit_vector)
    ensures
        (byte as u32) << 0u8 == byte as u32,
        (byte as u32) << 8u8 == (byte as u32) * 0x100,
        (byte as u32) << 16u8 == (byte as u32) * 0x1_0000,
        (byte as u32) << 24u8 == (byte as u32) * 0x100_0000,
{
}

/// The low four bits of a selector that is not negative are its remainder
/// by 16.
proof fn lemma_selector_index(selector: i8)
    by (bit_vector)
    requires
        selector >= 0,
    ensures
        0 <= (selector & 0x0f) < 16,
        (selector & 0x0f) == selector % 16,
{
}

/// Adds up distances from zero and gives the values they lead to, passing
/// over each distance of zero.
pub fn deltas_to_values(deltas: &[u32]) -> (values: Vec<u32>)
    requires
        total(deltas@) <= u32::MAX,
    ensures
        values@ == distinct_values(0, deltas@),
{
    let mut values: Vec<u32> = Vec::with_capacity(deltas.len());
    let mut last: u32 = 0;
    proof {
        assert(deltas@.skip(0) =~= deltas@);
    }
    for i in 0..deltas.len()
        invariant
            last + total(deltas@.skip(i as int)) <= u32::MAX,
            values@ + distinct_values(last, deltas@.skip(i as int)) == distinct_values(0, deltas@),
    {
        proof {
            reveal(distinct_values);
            assert(deltas@.skip(i as int).skip(1) =~= deltas@.skip(i + 1));
            lemma_total(deltas@.skip(i + 1));
        }
        let delta = deltas[i];
        if delta != 0 {
            let ghost sent = values@;
            last += delta;
            values.push(last);
            assert(values@ + distinct_values(last, deltas@.skip(i + 1)) =~= sent + (seq![last]
                + distinct_values(last, deltas@.skip(i + 1))));
        }
    }
    proof {
        reveal(distinct_values);
        assert(values@ + distinct_values(last, deltas@.skip(deltas@.len() as int)) =~= values@);
    }
    values
}

} // verus!

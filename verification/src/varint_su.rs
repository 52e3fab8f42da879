//! SimpleUnary: one value at a time, one to five bytes each.
//!
//! A [`VarintSUFactory`] takes the values, each above the one before it, and
//! hands over a [`VarintSU`], which owns the bytes. An [`Iter`] reads the
//! values back one by one.

use crate::su_layout::{
    ascending, decoding, encoding, entry_bytes, last_from, limit, place, stream_bytes,
};
use crate::su_lemmas::{
    lemma_round_trip, lemma_entry, lemma_stream_head, lemma_stream_length,
    lemma_stream_push,
};
use crate::{accept, into_boxed_slice, top_of, with_distinct, OrderingViolation};
use vstd::prelude::*;

verus! {

/// A finished SimpleUnary sequence: the bytes and the number of values.
pub struct VarintSU {
    bytes: Box<[u8]>,
    len: u32,
    values: Ghost<Seq<u32>>,
}

impl VarintSU {
    #[verifier::type_invariant]
    spec fn well_formed(self) -> bool {
        &&& ascending(0, self.values@)
        &&& self.bytes@ == encoding(self.values@)
        &&& self.len == self.values@.len()
    }

    /// The values of the sequence, in order.
    pub closed spec fn view(&self) -> Seq<u32> {
        self.values@
    }

    /// The bytes that the sequence holds.
    pub closed spec fn encoded(&self) -> Seq<u8> {
        self.bytes@
    }

    /// The number of values.
    pub fn len(&self) -> (count: usize)
        ensures
            count == self@.len(),
    {
        proof {
            use_type_invariant(self);
        }
        self.len as usize
    }

    /// The bytes of the sequence. Read from the start, they give the values
    /// back.
    pub fn bytes(&self) -> (bytes: &[u8])
        ensures
            bytes@ == self.encoded(),
            bytes@ == encoding(self@),
            decoding(0, bytes@) == self@,
            ascending(0, self@),
    {
        proof {
            use_type_invariant(self);
            lemma_round_trip(0, self.values@);
        }
        &self.bytes
    }

    /// An iterator over the values, from the first one on.
    pub fn iter(&self) -> (iter: Iter<'_>)
        ensures
            iter@ == self@,
            iter@ == decoding(0, self.encoded()),
    {
        proof {
            use_type_invariant(self);
            lemma_round_trip(0, self.values@);
            assert(self.bytes@.skip(0) =~= self.bytes@);
        }
        Iter { int_vec: &self.bytes, next_index: 0, last_value: 0, rest: Ghost(self.values@) }
    }
}

/// Iterator over a SimpleUnary sequence, one value at a step.
pub struct Iter<'a> {
    int_vec: &'a [u8],
    next_index: usize,
    last_value: usize,
    rest: Ghost<Seq<u32>>,
}

/// A product with a continuation byte, and what is left behind it.
proof fn lemma_continuation(x: int, p: int, gap: int, byte: int, next: int)
    by (nonlinear_arith)
    requires
        gap >= 128,
        byte == 128 + gap % 128,
        next == gap / 128 - 1,
        p > 0,
    ensures
        x + (byte - 127) * p + (p * 128) * (next + 1) == x + p * (gap + 1),
        (byte - 127) * p <= 128 * p,
        (byte - 127) * p >= 0,
{
}

/// A product with a final byte.
proof fn lemma_final(x: int, p: int, gap: int, total: int)
    by (nonlinear_arith)
    requires
        p > 0,
        gap >= 0,
        x >= 0,
        x + p * (gap + 1) == total,
    ensures
        (gap + 1) * p >= 0,
        x + (gap + 1) * p == total,
{
}

/// The reader at byte `round` of an entry, `left` being the gap that the
/// bytes from there on stand for, and `x` what the bytes in front of it have
/// added up to at the place value `p`. Where the byte is a continuation
/// byte: there is a byte behind it, and what the step does to the sum.
proof fn lemma_read_continuation(
    tail: Seq<u8>,
    round: int,
    left: nat,
    behind: Seq<u8>,
    x: int,
    p: int,
    total: int,
)
    requires
        0 <= round < 4,
        round < tail.len(),
        tail.skip(round) == entry_bytes(left) + behind,
        left < limit(4 - round),
        tail[round] >= 128,
        p > 0,
        x + p * (left + 1) == total,
    ensures
        left >= 128,
        round + 1 < tail.len(),
        tail.skip(round + 1) == entry_bytes((left / 128 - 1) as nat) + behind,
        (left / 128 - 1) < limit(3 - round),
        0 <= (tail[round] - 127) * p <= 128 * p,
        x + (tail[round] - 127) * p + (p * 128) * ((left / 128 - 1) + 1) == total,
{
    let whole = entry_bytes(left) + behind;
    let next = (left / 128 - 1) as nat;
    assert(whole[0] == tail[round]);
    assert(left >= 128);
    lemma_entry(next, 3 - round, behind);
    assert(tail.skip(round + 1) =~= whole.skip(1));
    assert(whole.skip(1) =~= entry_bytes(next) + behind);
    assert((entry_bytes(next) + behind).len() > 0);
    lemma_continuation(x, p, left as int, tail[round] as int, next as int);
}

/// The same where the byte is the last of the entry: what the entry adds up
/// to, and where the bytes behind it begin.
proof fn lemma_read_final(
    tail: Seq<u8>,
    round: int,
    left: nat,
    behind: Seq<u8>,
    x: int,
    p: int,
    total: int,
)
    requires
        0 <= round <= 4,
        round < tail.len(),
        tail.skip(round) == entry_bytes(left) + behind,
        left < limit(4 - round),
        tail[round] < 128 || round == 4,
        p > 0,
        x >= 0,
        x + p * (left + 1) == total,
    ensures
        tail[round] == left,
        tail.skip(round + 1) == behind,
        (tail[round] + 1) * p >= 0,
        x + (tail[round] + 1) * p == total,
{
    let whole = entry_bytes(left) + behind;
    assert(whole[0] == tail[round]);
    assert(left < 128);
    assert(tail.skip(round + 1) =~= whole.skip(1));
    assert(whole.skip(1) =~= behind);
    lemma_final(x, p, left as int, total);
}

impl<'a> Iter<'a> {
    #[verifier::type_invariant]
    spec fn well_formed(self) -> bool {
        &&& self.last_value <= u32::MAX
        &&& ascending(self.last_value as u32, self.rest@)
        &&& self.next_index <= self.int_vec@.len()
        &&& self.int_vec@.skip(self.next_index as int) == stream_bytes(
            self.last_value as u32,
            self.rest@,
        )
    }

    /// The values that are still to come, in order.
    pub closed spec fn view(&self) -> Seq<u32> {
        self.rest@
    }

    /// Hands out the next value, or `None` where none is left. The value is
    /// the one in front of it plus the step of the entry: each continuation
    /// byte gives its low part plus one at its place value, the final byte
    /// itself plus one.
    pub fn next(&mut self) -> (item: Option<usize>)
        ensures
            match item {
                Some(value) => {
                    &&& old(self)@.len() > 0
                    &&& value == old(self)@[0]
                    &&& final(self)@ == old(self)@.skip(1)
                },
                None => old(self)@.len() == 0 && final(self)@ == old(self)@,
            },
    {
        proof {
            use_type_invariant(&*self);
            lemma_stream_length(self.last_value as u32, self.rest@);
        }
        if self.int_vec.len() <= self.next_index {
            return None;
        }
        let ghost rest = self.rest@;
        let ghost start = self.next_index as int;
        let ghost tail = self.int_vec@.skip(start);
        let ghost gap = (rest[0] - self.last_value - 1) as nat;
        let ghost behind = stream_bytes(rest[0], rest.skip(1));
        proof {
            lemma_stream_head(self.last_value as u32, rest);
            lemma_entry(gap, 4, behind);
        }

        let mut x: usize = 0;
        let mut p: usize = 1;
        let mut next_index = self.next_index;
        let mut b_word = self.int_vec[next_index] as usize;
        let ghost mut left: nat = gap;
        assert(b_word == tail[0]);

        let mut round: usize = 0;
        while round < 4 && b_word >= 128
            invariant
                round <= 4,
                0 <= start <= self.int_vec@.len(),
                tail == self.int_vec@.skip(start),
                start + round == next_index,
                next_index < self.int_vec.len(),
                b_word == tail[round as int],
                tail.skip(round as int) == entry_bytes(left) + behind,
                left < limit(4 - round),
                p == place(round as int),
                x + p * (left + 1) == gap + 1,
                gap + 1 <= u32::MAX,
            decreases 4 - round,
        {
            proof {
                lemma_read_continuation(
                    tail,
                    round as int,
                    left,
                    behind,
                    x as int,
                    p as int,
                    (gap + 1) as int,
                );
                left = (left / 128 - 1) as nat;
            }
            x += (b_word - 127) * p;
            p *= 128;
            next_index += 1;
            b_word = self.int_vec[next_index] as usize;
            round += 1;
        }
        proof {
            lemma_read_final(
                tail,
                round as int,
                left,
                behind,
                x as int,
                p as int,
                (gap + 1) as int,
            );
            assert(self.int_vec@.skip(next_index + 1) =~= tail.skip(round + 1));
        }
        x = x + (b_word + 1) * p + self.last_value;
        *self = Iter {
            int_vec: self.int_vec,
            next_index: next_index + 1,
            last_value: x,
            rest: Ghost(rest.skip(1)),
        };

        Some(x)
    }
}

/// Takes values in ascending order and builds the bytes of a SimpleUnary
/// sequence.
pub struct VarintSUFactory {
    vec: Vec<u8>,
    top: u32,
    len: u32,
    values: Ghost<Seq<u32>>,
}

impl VarintSUFactory {
    #[verifier::type_invariant]
    spec fn well_formed(self) -> bool {
        &&& ascending(0, self.values@)
        &&& self.vec@ == encoding(self.values@)
        &&& self.top == top_of(self.values@)
        &&& self.len == self.values@.len()
        &&& self.len <= self.top
    }

    /// The values pushed so far, in order.
    pub closed spec fn view(&self) -> Seq<u32> {
        self.values@
    }

    /// The bytes built so far.
    pub closed spec fn encoded(&self) -> Seq<u8> {
        self.vec@
    }

    /// A factory that holds no value.
    pub fn new() -> (factory: Self)
        ensures
            factory@ == Seq::<u32>::empty(),
            factory.encoded() == Seq::<u8>::empty(),
    {
        proof {
            reveal(stream_bytes);
        }
        VarintSUFactory { vec: Vec::new(), top: 0, len: 0, values: Ghost(Seq::empty()) }
    }

    /// The bytes so far.
    pub fn vec(&self) -> (bytes: &Vec<u8>)
        ensures
            bytes@ == self.encoded(),
            bytes@ == encoding(self@),
    {
        proof {
            use_type_invariant(self);
        }
        &self.vec
    }

    /// Hands the bytes over as a finished sequence and leaves the factory as
    /// new: calling this again at once gives an empty sequence.
    pub fn into_varint_su(&mut self) -> (sequence: VarintSU)
        ensures
            sequence@ == old(self)@,
            sequence.encoded() == old(self).encoded(),
            sequence.encoded() == encoding(old(self)@),
            ascending(0, sequence@),
            final(self)@ == Seq::<u32>::empty(),
            final(self).encoded() == Seq::<u8>::empty(),
    {
        proof {
            use_type_invariant(&*self);
        }
        let mut taken = VarintSUFactory::new();
        std::mem::swap(self, &mut taken);

        VarintSU { bytes: into_boxed_slice(taken.vec), len: taken.len, values: taken.values }
    }

    /// Pushes `num` unless it is the last value pushed (or zero, where none
    /// was).
    pub fn push_if_not_on_top(&mut self, num: u32) -> (result: Result<(), OrderingViolation>)
        ensures
            result == accept(top_of(old(self)@), num),
            final(self)@ == with_distinct(old(self)@, num),
            old(self).encoded() == encoding(old(self)@),
            final(self).encoded() == encoding(final(self)@),
    {
        proof {
            use_type_invariant(&*self);
        }
        if num != self.top {
            self.push_int(num)
        } else {
            Ok(())
        }
    }

    /// Appends `num`, which must be above the last value pushed. A repeat of
    /// the last value (zero, where none was pushed) changes nothing, and a
    /// value below it is refused. The gap to the last value is written in
    /// base 128 from the low end: while 128 or more is left, a byte of 128
    /// plus the remainder goes out and the quotient less one is left; what is
    /// left at the end goes out as it is.
    pub fn push_int(&mut self, num: u32) -> (result: Result<(), OrderingViolation>)
        ensures
            result == accept(top_of(old(self)@), num),
            final(self)@ == with_distinct(old(self)@, num),
            old(self).encoded() == encoding(old(self)@),
            final(self).encoded() == encoding(final(self)@),
    {
        proof {
            use_type_invariant(&*self);
        }
        if num == self.top {
            return Ok(());
        }
        if num < self.top {
            return Err(OrderingViolation { top: self.top, value: num });
        }
        let mut taken = VarintSUFactory::new();
        std::mem::swap(self, &mut taken);
        let VarintSUFactory { mut vec, top, len, values } = taken;

        let mut x = num - top - 1;
        let ghost gap = x as nat;
        let ghost before = vec@;

        let mut round: usize = 0;
        while round < 4 && x >= 128
            invariant
                round <= 4,
                x < limit(4 - round),
                vec@ + entry_bytes(x as nat) == before + entry_bytes(gap),
            decreases 4 - round,
        {
            let ghost sent = vec@;
            vec.push((128 + (x % 128)) as u8);
            assert(vec@ + entry_bytes((x / 128 - 1) as nat) =~= sent + entry_bytes(x as nat));
            x = (x / 128) - 1;
            round += 1;
        }

        let ghost sent = vec@;
        vec.push(x as u8);
        proof {
            assert(vec@ =~= sent + entry_bytes(x as nat));
            lemma_stream_push(0, values@, num);
            assert(last_from(0, values@) == top);
        }
        *self = VarintSUFactory { vec, top: num, len: len + 1, values: Ghost(values@.push(num)) };
        Ok(())
    }
}

} // verus!

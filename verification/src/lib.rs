//! Two byte encodings for ascending sequences of `u32` values.
//!
//! * [`varint_su`]: one value at a time, one to five bytes each, the
//!   distance to the value before it written in an escaping base-128 form.
//! * [`varint_gb`]: four values to a group, one descriptor byte that holds
//!   the four widths, then the distances in one to four bytes each.
//!
//! Each codec has a factory that takes the values in order, a sealed
//! sequence that owns the finished bytes, and an iterator that hands the
//! values back. [`su_layout`] and [`gb_layout`] say what the bytes are;
//! the contracts of the executable code are stated over them.

pub mod gb_layout;
pub mod gb_lemmas;
pub mod su_layout;
pub mod su_lemmas;
pub mod varint_gb;
pub mod varint_su;

use vstd::prelude::*;

verus! {

/// A value was pushed that is below the last value of the sequence.
#[derive(Clone, Copy, Debug, PartialEq, Eq)]
pub struct OrderingViolation {
    /// Last value of the sequence at the time of the push.
    pub top: u32,
    /// The value that was refused.
    pub value: u32,
}

/// The last of `values`, or zero where there is none: the value that a
/// factory measures the next one against.
pub open spec fn top_of(values: Seq<u32>) -> u32 {
    if values.len() == 0 {
        0
    } else {
        values.last()
    }
}

/// What a factory whose last value is `top` answers to a push of `value`.
pub open spec fn accept(top: u32, value: u32) -> Result<(), OrderingViolation> {
    if value < top {
        Err(OrderingViolation { top, value })
    } else {
        Ok(())
    }
}

/// What a push of `value` leaves of `values` where a repeat of the last
/// value is passed over, and a value below it refused.
pub open spec fn with_distinct(values: Seq<u32>, value: u32) -> Seq<u32> {
    if value > top_of(values) {
        values.push(value)
    } else {
        values
    }
}

/// What a push of `value` leaves of `values` where a repeat of the last
/// value is taken as any other, and a value below it refused.
pub open spec fn with_value(values: Seq<u32>, value: u32) -> Seq<u32> {
    if value >= top_of(values) {
        values.push(value)
    } else {
        values
    }
}

/// A value pushed twice in a row, where a repeat of the last value is
/// passed over, leaves what the first push left: the second push is
/// accepted, and changes neither the values nor their number. The same holds
/// where only the second push passes a repeat over.
pub proof fn lemma_repeat_is_passed_over(values: Seq<u32>, value: u32)
    ensures
        with_distinct(with_distinct(values, value), value) == with_distinct(values, value),
        with_distinct(with_value(values, value), value) == with_value(values, value),
        value >= top_of(values) ==> accept(top_of(with_distinct(values, value)), value) == Ok::<
            (),
            OrderingViolation,
        >(()),
        value >= top_of(values) ==> accept(top_of(with_value(values, value)), value) == Ok::<
            (),
            OrderingViolation,
        >(()),
{
}

/// Calls `Vec::into_boxed_slice` of the standard library. Taken on trust, not
/// proved: the boxed slice holds the bytes of the vector, all of them and in
/// their order.
#[verifier::external_body]
pub(crate) fn into_boxed_slice(bytes: Vec<u8>) -> (boxed: Box<[u8]>)
    ensures
        boxed@ == bytes@,
{
    bytes.into_boxed_slice()
}

} // verus!

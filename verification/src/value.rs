//! The encoding of values in a 64-bit word, shared by the code that the
//! compiler emits and by the runtime.
//!
//! A number `n` is the word `2 * n`, so its low bit is 0. Every other value
//! has the low bit 1: `nil` is 1, `false` is 3, `true` is 7, and a tuple is
//! the address of its first heap word plus 1.

use vstd::prelude::*;

verus! {

/// The word for `true`.
pub const TRUE_VAL: i64 = 7;

/// The word for `false`.
pub const FALSE_VAL: i64 = 3;

/// The word for `nil`.
pub const NIL_VAL: i64 = 1;

/// The mask of the bit that tells a number from every other value.
pub const NUMBER_MASK: i64 = 1;

/// What that bit is in the word of a number.
pub const NUMBER_TAG: i64 = 0;

/// The mask of the two bits that tell a boolean from a tuple or `nil`.
pub const KIND_MASK: i64 = 3;

/// What these two bits are in a reference to a tuple and in `nil`.
pub const TUPLE_TAG: i64 = 1;

/// What these two bits are in a boolean.
pub const BOOLEAN_TAG: i64 = 3;

/// What a reference to a tuple adds to the address of the tuple.
pub const REFERENCE_TAG: i64 = 1;

/// The number of bits by which a number is shifted in its word.
pub const NUMBER_SHIFT: i64 = 1;

/// The word of the number 1.
pub const ONE: i64 = 2;

/// The least number that has a word.
pub const INT_MIN: i64 = -4611686018427387904;

/// The greatest number that has a word.
pub const INT_MAX: i64 = 4611686018427387903;

/// Whether the word stands for a number.
pub open spec fn is_number(v: i64) -> bool {
    v % 2 == 0
}

/// Whether the word stands for a boolean.
pub open spec fn is_boolean(v: i64) -> bool {
    v == TRUE_VAL || v == FALSE_VAL
}

/// Whether the word is a reference to a tuple: its low bit is 1 and it is
/// none of `nil`, `false`, `true`.
pub open spec fn is_reference(v: i64) -> bool {
    v % 2 != 0 && v != NIL_VAL && v != FALSE_VAL && v != TRUE_VAL
}

/// Whether a number has a word.
pub open spec fn representable(n: int) -> bool {
    INT_MIN <= n <= INT_MAX
}

/// The word of a number.
pub open spec fn encode(n: int) -> int {
    2 * n
}

/// The number that a word of a number stands for.
pub open spec fn decode(v: i64) -> int {
    v / 2
}

/// Every word is of exactly one kind.
pub proof fn lemma_kinds_partition(v: i64)
    ensures
        is_number(v) || v == NIL_VAL || is_boolean(v) || is_reference(v),
        !(is_number(v) && (v == NIL_VAL || is_boolean(v) || is_reference(v))),
        !(v == NIL_VAL && (is_boolean(v) || is_reference(v))),
        !(is_boolean(v) && is_reference(v)),
{
}

/// A representable number and its word determine each other.
pub proof fn lemma_encode_decode(n: int)
    requires
        representable(n),
    ensures
        i64::MIN <= encode(n) <= i64::MAX,
        is_number(encode(n) as i64),
        decode(encode(n) as i64) == n,
{
}

/// Tells whether the word stands for a number.
pub fn word_is_number(v: i64) -> (b: bool)
    ensures
        b == is_number(v),
{
    v % 2 == 0
}

/// Tells whether the word is a reference to a tuple.
pub fn word_is_reference(v: i64) -> (b: bool)
    ensures
        b == is_reference(v),
{
    v % 2 != 0 && v != NIL_VAL && v != FALSE_VAL && v != TRUE_VAL
}

/// The word of a number, where it has one.
pub fn encode_number(n: i64) -> (r: Option<i64>)
    ensures
        r == (if representable(n as int) {
            Some(encode(n as int) as i64)
        } else {
            None
        }),
{
    if INT_MIN <= n && n <= INT_MAX {
        Some(2 * n)
    } else {
        None
    }
}

/// The number that the word of a number stands for.
pub fn decode_number(v: i64) -> (n: i64)
    requires
        is_number(v),
    ensures
        n == decode(v),
        representable(n as int),
        encode(n as int) == v,
{
    v / 2
}

} // verus!

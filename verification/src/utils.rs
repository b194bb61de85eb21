use vstd::prelude::*;
use crate::literal::{chars_of, is_float_literal, is_float_literal_chars};

verus! {

/// Whether the text is a number in the form the standard single-precision
/// float parser accepts.
pub fn is_num(s: &str) -> (r: bool)
    ensures
        r == is_float_literal(s@),
{
    is_float_literal_chars(&chars_of(s))
}

/// Whether `n` is divisible by two.
pub fn is_even(n: i64) -> (r: bool)
    ensures
        r == (n % 2 == 0),
{
    n % 2 == 0
}

/// Whether `n` is not divisible by two.
pub fn is_odd(n: i64) -> (r: bool)
    ensures
        r == (n % 2 != 0),
{
    !is_even(n)
}

/// Whether the byte is an ASCII decimal digit.
pub fn is_digit(c: u8) -> (r: bool)
    ensures
        r == (48 <= c <= 57),
{
    '0' as u8 <= c && c <= '9' as u8
}

/// Index of the last element of a non-empty slice.
pub fn last_index<T>(slice: &[T]) -> (r: usize)
    requires
        slice@.len() > 0,
    ensures
        r == slice@.len() - 1,
{
    slice.len() - 1
}

} // verus!

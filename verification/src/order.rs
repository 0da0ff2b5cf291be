//! A total order over `f64` bit patterns.
//!
//! Floating-point comparison is only a partial order: `NaN` compares with
//! nothing, so a plain `max` or sort over floats is nondeterministic or
//! panics.  This module orders the *bit patterns* of doubles instead.  Every
//! pattern is mapped by [`ord_key`] to a key whose unsigned order is:
//!
//! * non-`NaN` values in their numeric order
//!   (`-inf < ... < -0 == +0 < ... < +inf`),
//! * the two zeroes equal to each other, and
//! * every `NaN` pattern (either sign, any payload) equal to every other
//!   `NaN` and strictly greater than everything else.
//!
//! The rule "`NaN` greatest, all `NaN` alike, the zeroes alike" is applied
//! uniformly by `maxf`, `argmaxf`, `sortf` and `argsortf`, so ties are
//! resolved the same way everywhere.

use vstd::prelude::*;

verus! {

/// Sign bit of an `f64` bit pattern.
pub const SIGN_BIT: u64 = 0x8000_0000_0000_0000;

/// Exponent mask of an `f64` bit pattern.
pub const EXPONENT_MASK: u64 = 0x7ff0_0000_0000_0000;

/// Fraction (mantissa) mask of an `f64` bit pattern.
pub const FRACTION_MASK: u64 = 0x000f_ffff_ffff_ffff;

/// A bit pattern encodes `NaN` when the exponent is all ones and the
/// fraction is non-zero.
pub open spec fn is_nan_code(c: u64) -> bool {
    (c & EXPONENT_MASK) == EXPONENT_MASK && (c & FRACTION_MASK) != 0
}

/// The sort key of a bit pattern: unsigned comparison of keys realises the
/// order documented at module level.  Every `NaN` maps to `u64::MAX`; the
/// negative zero maps to the key of the positive zero; any other pattern is
/// made monotone by flipping the sign bit (non-negative values) or all bits
/// (negative values).
pub open spec fn ord_key(c: u64) -> u64 {
    if is_nan_code(c) {
        0xffff_ffff_ffff_ffffu64
    } else {
        let n = if c == SIGN_BIT {
            0u64
        } else {
            c
        };
        if n < SIGN_BIT {
            (n + SIGN_BIT) as u64
        } else {
            !n
        }
    }
}

/// `a` precedes or ties `b` in the documented order.
pub open spec fn key_le(a: u64, b: u64) -> bool {
    ord_key(a) <= ord_key(b)
}

/// Whether a bit pattern encodes `NaN`.
pub fn nan_code(c: u64) -> (r: bool)
    ensures
        r == is_nan_code(c),
{
    (c & EXPONENT_MASK) == EXPONENT_MASK && (c & FRACTION_MASK) != 0
}

/// Compute the sort key of a bit pattern.
pub fn sort_key(c: u64) -> (k: u64)
    ensures
        k == ord_key(c),
{
    if nan_code(c) {
        u64::MAX
    } else {
        let n: u64 = if c == SIGN_BIT {
            0
        } else {
            c
        };
        if n < SIGN_BIT {
            n + SIGN_BIT
        } else {
            !n
        }
    }
}

/// Compare two bit patterns in the documented order.
pub fn code_le(a: u64, b: u64) -> (r: bool)
    ensures
        r == key_le(a, b),
{
    sort_key(a) <= sort_key(b)
}

/// The order is total: any two bit patterns compare.
pub proof fn lemma_order_total(a: u64, b: u64)
    ensures
        key_le(a, b) || key_le(b, a),
{
}

/// The order is antisymmetric up to key equality: mutual `key_le` means the
/// two patterns occupy the same position in the order.
pub proof fn lemma_order_antisymmetric(a: u64, b: u64)
    ensures
        key_le(a, b) && key_le(b, a) ==> ord_key(a) == ord_key(b),
{
}

/// The order is transitive.
pub proof fn lemma_order_transitive(a: u64, b: u64, c: u64)
    ensures
        key_le(a, b) && key_le(b, c) ==> key_le(a, c),
{
}

/// A pattern sits at the top of the order exactly when it encodes `NaN`:
/// `NaN` is strictly greater than every non-`NaN` value.
pub proof fn lemma_nan_greatest(c: u64)
    ensures
        ord_key(c) == u64::MAX <==> is_nan_code(c),
{
    if !is_nan_code(c) {
        let n = if c == SIGN_BIT {
            0u64
        } else {
            c
        };
        if n < SIGN_BIT {
            if n + SIGN_BIT == 0xffff_ffff_ffff_ffff {
                assert(n == 0x7fff_ffff_ffff_ffffu64);
                assert((0x7fff_ffff_ffff_ffffu64 & 0x7ff0_0000_0000_0000u64)
                    == 0x7ff0_0000_0000_0000u64) by (bit_vector);
                assert((0x7fff_ffff_ffff_ffffu64 & 0x000f_ffff_ffff_ffffu64) != 0u64)
                    by (bit_vector);
                assert((0x8000_0000_0000_0000u64 & 0x7ff0_0000_0000_0000u64)
                    != 0x7ff0_0000_0000_0000u64) by (bit_vector);
                assert(false);
            }
        } else {
            assert(!n == 0xffff_ffff_ffff_ffffu64 ==> n == 0u64) by (bit_vector);
        }
    }
}

/// The two zero patterns share one key: `-0.0` and `+0.0` tie.
pub proof fn lemma_zeroes_tie()
    ensures
        ord_key(SIGN_BIT) == ord_key(0),
{
    assert((0x8000_0000_0000_0000u64 & 0x7ff0_0000_0000_0000u64)
        != 0x7ff0_0000_0000_0000u64) by (bit_vector);
    assert((0u64 & 0x7ff0_0000_0000_0000u64) != 0x7ff0_0000_0000_0000u64) by (bit_vector);
}

} // verus!

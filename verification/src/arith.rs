//! Facts of arithmetic that the proofs about the decoder rest on: powers of
//! two, and what doubling and subtracting do to the low bits of a number.

use crate::model::{two_to, value_modulus};
use vstd::prelude::*;

verus! {

/// The powers of two up to the eighth, by value.
pub proof fn lemma_two_to_small()
    ensures
        two_to(0) == 1,
        two_to(1) == 2,
        two_to(2) == 4,
        two_to(3) == 8,
        two_to(4) == 16,
        two_to(5) == 32,
        two_to(6) == 64,
        two_to(7) == 128,
        two_to(8) == 256,
{
    reveal_with_fuel(two_to, 9);
}

/// The powers of two are positive and grow with the exponent.
pub proof fn lemma_two_to_monotonic(low: nat, high: nat)
    requires
        low <= high,
    ensures
        0 < two_to(low) <= two_to(high),
    decreases high,
{
    if low < high {
        lemma_two_to_monotonic(low, (high - 1) as nat);
    } else if high > 0 {
        lemma_two_to_monotonic((low - 1) as nat, (high - 1) as nat);
    }
}

/// Taking a multiple of 256 off a number leaves its low `k` bits clear.
pub proof fn lemma_low_bits_less_multiple(value: int, units: int, k: nat)
    requires
        k < 8,
        value % two_to(k) == 0,
    ensures
        (value - 256 * units) % two_to(k) == 0,
{
    lemma_two_to_small();
    if k == 0 {
    } else if k == 1 {
        assert((value - 256 * units) % 2 == 0) by (nonlinear_arith)
            requires
                value % 2 == 0,
        ;
    } else if k == 2 {
        assert((value - 256 * units) % 4 == 0) by (nonlinear_arith)
            requires
                value % 4 == 0,
        ;
    } else if k == 3 {
        assert((value - 256 * units) % 8 == 0) by (nonlinear_arith)
            requires
                value % 8 == 0,
        ;
    } else if k == 4 {
        assert((value - 256 * units) % 16 == 0) by (nonlinear_arith)
            requires
                value % 16 == 0,
        ;
    } else if k == 5 {
        assert((value - 256 * units) % 32 == 0) by (nonlinear_arith)
            requires
                value % 32 == 0,
        ;
    } else if k == 6 {
        assert((value - 256 * units) % 64 == 0) by (nonlinear_arith)
            requires
                value % 64 == 0,
        ;
    } else {
        assert((value - 256 * units) % 128 == 0) by (nonlinear_arith)
            requires
                value % 128 == 0,
        ;
    }
}

/// Doubling a number modulo two to the 32nd clears one more of its low
/// bits.
pub proof fn lemma_low_bits_doubled(value: int, k: nat)
    requires
        k < 8,
        0 <= value,
        value % two_to(k) == 0,
    ensures
        ((2 * value) % value_modulus()) % two_to(k + 1) == 0,
{
    lemma_two_to_small();
    let doubled = (2 * value) % 0x1_0000_0000;
    if k == 0 {
        assert(doubled % 2 == 0) by (nonlinear_arith)
            requires
                doubled == (2 * value) % 0x1_0000_0000,
        ;
    } else if k == 1 {
        assert(doubled % 4 == 0) by (nonlinear_arith)
            requires
                value % 2 == 0,
                doubled == (2 * value) % 0x1_0000_0000,
        ;
    } else if k == 2 {
        assert(doubled % 8 == 0) by (nonlinear_arith)
            requires
                value % 4 == 0,
                doubled == (2 * value) % 0x1_0000_0000,
        ;
    } else if k == 3 {
        assert(doubled % 16 == 0) by (nonlinear_arith)
            requires
                value % 8 == 0,
                doubled == (2 * value) % 0x1_0000_0000,
        ;
    } else if k == 4 {
        assert(doubled % 32 == 0) by (nonlinear_arith)
            requires
                value % 16 == 0,
                doubled == (2 * value) % 0x1_0000_0000,
        ;
    } else if k == 5 {
        assert(doubled % 64 == 0) by (nonlinear_arith)
            requires
                value % 32 == 0,
                doubled == (2 * value) % 0x1_0000_0000,
        ;
    } else if k == 6 {
        assert(doubled % 128 == 0) by (nonlinear_arith)
            requires
                value % 64 == 0,
                doubled == (2 * value) % 0x1_0000_0000,
        ;
    } else {
        assert(doubled % 256 == 0) by (nonlinear_arith)
            requires
                value % 128 == 0,
                doubled == (2 * value) % 0x1_0000_0000,
        ;
    }
}

/// A multiple of 256 below another is a whole 256 below it.
pub proof fn lemma_room_for_a_byte(value: int, units: int)
    requires
        value % 256 == 0,
        value < 256 * units,
    ensures
        value + 256 <= 256 * units,
{
    assert(value + 256 <= 256 * units) by (nonlinear_arith)
        requires
            value % 256 == 0,
            value < 256 * units,
    ;
}

/// One step of spelling a literal, on its low eight bits: doubling them
/// modulo 256 and adding the new bit gives the low eight bits of the longer
/// literal.
pub proof fn lemma_literal_step(low: int, total: int, bit: int)
    requires
        0 <= total,
        low == total % 256,
        0 <= bit <= 1,
    ensures
        (2 * low) % 256 + bit == (2 * total + bit) % 256,
        (2 * low) % 256 + bit <= 255,
{
    assert((2 * low) % 256 + bit == (2 * total + bit) % 256 && (2 * low) % 256 + bit <= 255)
        by (nonlinear_arith)
        requires
            0 <= total,
            low == total % 256,
            0 <= bit <= 1,
    ;
}

} // verus!

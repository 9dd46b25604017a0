//! What holds of the decoder, whatever the stream and whatever is read from
//! it: proved of the model, and so of every decoder whose contract is stated
//! over it.

use crate::arith::{
    lemma_low_bits_doubled, lemma_low_bits_less_multiple, lemma_room_for_a_byte,
    lemma_two_to_monotonic, lemma_two_to_small,
};
use crate::model::{doublings, split_point, two_to, value_modulus, DecoderState};
use vstd::prelude::*;

verus! {

// The split

/// The cut never leaves either side of the interval empty: it lies in
/// `[1, range - 1]` for every normalized range and every probability.
pub proof fn lemma_split_point_bounds(range: int, probability: int)
    requires
        128 <= range <= 255,
        0 <= probability <= 255,
    ensures
        1 <= split_point(range, probability) <= range - 1,
{
    let product = (range - 1) * probability;
    assert(0 <= product <= (range - 1) * 255) by (nonlinear_arith)
        requires
            2 <= range,
            0 <= probability <= 255,
            product == (range - 1) * probability,
    ;
}

// The state between reads

/// A decoder seeded with two bytes or more is ready.
pub proof fn lemma_initial_ready(bytes: Seq<u8>)
    requires
        bytes.len() >= 2,
    ensures
        DecoderState::initial(bytes).ready(),
{
    lemma_two_to_small();
}

/// Narrowing keeps a ready state coherent, and its range positive.
pub proof fn lemma_narrowed_coherent(s: DecoderState, probability: u8)
    requires
        s.ready(),
    ensures
        s.narrowed(probability).coherent(),
{
    lemma_split_point_bounds(s.range, probability as int);
    lemma_low_bits_less_multiple(s.value, s.split(probability), s.bit_count);
}

/// A renormalization step keeps a state coherent, as long as its range is
/// below 128.
pub proof fn lemma_shifted_coherent(s: DecoderState)
    requires
        s.coherent(),
        s.range < 128,
    ensures
        s.shifted().coherent(),
{
    lemma_low_bits_doubled(s.value, s.bit_count);
    lemma_two_to_small();
    let doubled = (2 * s.value) % value_modulus();
    if s.bit_count + 1 == 8 {
        assert(doubled + 255 < value_modulus()) by (nonlinear_arith)
            requires
                doubled % 256 == 0,
                doubled < 0x1_0000_0000,
        ;
    }
}

/// Renormalizing a coherent state gives a ready one.
pub proof fn lemma_renormalized_ready(s: DecoderState)
    requires
        s.coherent(),
    ensures
        s.renormalized().ready(),
    decreases 256 - s.range,
{
    if s.range < 128 {
        lemma_shifted_coherent(s);
        lemma_renormalized_ready(s.shifted());
    }
}

/// Between reads the range is always in `[128, 255]`: a read takes a ready
/// state to a ready state.
pub proof fn lemma_after_bool_ready(s: DecoderState, probability: u8)
    requires
        s.ready(),
    ensures
        s.after_bool(probability).ready(),
        128 <= s.after_bool(probability).range <= 255,
{
    lemma_narrowed_coherent(s, probability);
    lemma_renormalized_ready(s.narrowed(probability));
}

/// Any number of reads takes a ready state to a ready state.
pub proof fn lemma_after_bools_ready(s: DecoderState, probabilities: Seq<u8>)
    requires
        s.ready(),
    ensures
        s.after_bools(probabilities).ready(),
    decreases probabilities.len(),
{
    if probabilities.len() > 0 {
        lemma_after_bools_ready(s, probabilities.drop_last());
        lemma_after_bool_ready(s.after_bools(probabilities.drop_last()), probabilities.last());
    }
}

/// From a valid seeding on, whatever booleans are read and with whatever
/// probabilities, the range is in `[128, 255]` between any two reads.
pub proof fn lemma_range_between_reads(bytes: Seq<u8>, probabilities: Seq<u8>)
    requires
        bytes.len() >= 2,
    ensures
        128 <= DecoderState::initial(bytes).after_bools(probabilities).range <= 255,
{
    lemma_initial_ready(bytes);
    lemma_after_bools_ready(DecoderState::initial(bytes), probabilities);
}

/// Reading a literal takes a ready state to a ready state.
pub proof fn lemma_after_literal_ready(s: DecoderState, n: nat)
    requires
        s.ready(),
    ensures
        s.after_literal(n).ready(),
    decreases n,
{
    if n > 0 {
        lemma_after_literal_ready(s, (n - 1) as nat);
        lemma_after_bool_ready(s.after_literal((n - 1) as nat), 128);
    }
}

// The buffer and the cursor

/// A range of `two_to(7 - k)` or more is back at 128 after `k` doublings at
/// most.
proof fn lemma_doublings_from(range: int, k: nat)
    requires
        k <= 7,
        two_to((7 - k) as nat) <= range,
    ensures
        doublings(range) <= k,
    decreases k,
{
    lemma_two_to_small();
    if k > 0 && range < 128 {
        lemma_doublings_from(2 * range, (k - 1) as nat);
    }
}

/// No range takes more than seven doublings to renormalize.
pub proof fn lemma_doublings_bound(range: int)
    requires
        1 <= range,
    ensures
        doublings(range) <= 7,
{
    lemma_two_to_small();
    lemma_doublings_from(range, 7);
}

/// Renormalization leaves the buffer alone and moves the cursor forward
/// only: by one byte for every eight doublings counted in `bit_count`, or by
/// less at the end of the buffer.
pub proof fn lemma_renormalized_progress(s: DecoderState)
    requires
        s.bit_count < 8,
    ensures
        s.renormalized().buffer == s.buffer,
        s.cursor <= s.renormalized().cursor <= s.cursor + (s.bit_count + doublings(s.range)) / 8,
        s.renormalized().bit_count == (s.bit_count + doublings(s.range)) % 8,
    decreases 256 - s.range,
{
    if 0 < s.range < 128 {
        lemma_renormalized_progress(s.shifted());
    }
}

/// A read leaves the buffer alone and moves the cursor forward by one byte
/// at most.
pub proof fn lemma_after_bool_progress(s: DecoderState, probability: u8)
    requires
        s.ready(),
    ensures
        s.after_bool(probability).buffer == s.buffer,
        s.cursor <= s.after_bool(probability).cursor <= s.cursor + 1,
{
    lemma_narrowed_coherent(s, probability);
    lemma_doublings_bound(s.narrowed(probability).range);
    lemma_renormalized_progress(s.narrowed(probability));
}

/// Any number of reads leaves the buffer alone and moves the cursor forward
/// by one byte for each at most.
pub proof fn lemma_after_bools_progress(s: DecoderState, probabilities: Seq<u8>)
    requires
        s.ready(),
    ensures
        s.after_bools(probabilities).buffer == s.buffer,
        s.cursor <= s.after_bools(probabilities).cursor <= s.cursor + probabilities.len(),
    decreases probabilities.len(),
{
    if probabilities.len() > 0 {
        let front = probabilities.drop_last();
        lemma_after_bools_progress(s, front);
        lemma_after_bools_ready(s, front);
        lemma_after_bool_progress(s.after_bools(front), probabilities.last());
    }
}

/// Reading a literal leaves the buffer alone and moves the cursor forward
/// by one byte for each of its bits at most.
pub proof fn lemma_after_literal_progress(s: DecoderState, n: nat)
    requires
        s.ready(),
    ensures
        s.after_literal(n).buffer == s.buffer,
        s.cursor <= s.after_literal(n).cursor <= s.cursor + n,
    decreases n,
{
    if n > 0 {
        lemma_after_literal_progress(s, (n - 1) as nat);
        lemma_after_literal_ready(s, (n - 1) as nat);
        lemma_after_bool_progress(s.after_literal((n - 1) as nat), 128);
    }
}

// The accumulator inside the interval

/// A renormalization step keeps the accumulator inside the interval, and
/// doubles it without a wrap: the new value is twice the old one, with the
/// next byte of the stream in its low byte on the eighth doubling.
pub proof fn lemma_shifted_inside(s: DecoderState)
    requires
        s.coherent(),
        s.range < 128,
        s.inside(),
    ensures
        s.shifted().inside(),
        s.shifted().value == 2 * s.value + if s.bit_count + 1 == 8 {
            s.pending_byte(0)
        } else {
            0
        },
{
    lemma_low_bits_doubled(s.value, s.bit_count);
    lemma_two_to_small();
    let doubled = (2 * s.value) % value_modulus();
    assert(doubled == 2 * s.value);
    if s.bit_count + 1 == 8 {
        lemma_room_for_a_byte(doubled, 2 * s.range);
    }
}

/// Renormalization keeps the accumulator inside the interval.
pub proof fn lemma_renormalized_inside(s: DecoderState)
    requires
        s.coherent(),
        s.inside(),
    ensures
        s.renormalized().inside(),
    decreases 256 - s.range,
{
    if s.range < 128 {
        lemma_shifted_coherent(s);
        lemma_shifted_inside(s);
        lemma_renormalized_inside(s.shifted());
    }
}

/// A read keeps the accumulator inside the interval: once it is below the
/// range on its scale it stays there, and so below two to the sixteenth.
pub proof fn lemma_after_bool_inside(s: DecoderState, probability: u8)
    requires
        s.ready(),
        s.inside(),
    ensures
        s.after_bool(probability).inside(),
        s.after_bool(probability).value < 0x1_0000,
{
    lemma_split_point_bounds(s.range, probability as int);
    lemma_narrowed_coherent(s, probability);
    lemma_renormalized_inside(s.narrowed(probability));
    lemma_after_bool_ready(s, probability);
}

// Literals, flags and signed numbers

/// A literal of no bits is zero, and reading it reads nothing: the state is
/// the same after it.
pub proof fn lemma_literal_of_no_bits(s: DecoderState)
    ensures
        s.literal(0) == 0,
        s.after_literal(0) == s,
{
}

/// A literal of `n` bits is a number below two to the `n`; one of eight
/// bits or fewer is a byte.
pub proof fn lemma_literal_bounds(s: DecoderState, n: nat)
    ensures
        0 <= s.literal(n) < two_to(n),
        n <= 8 ==> s.literal(n) < 256,
    decreases n,
{
    if n > 0 {
        lemma_literal_bounds(s, (n - 1) as nat);
    }
    if n <= 8 {
        lemma_two_to_monotonic(n, 8);
        lemma_two_to_small();
    }
}

/// A flag is one boolean read at even odds.
pub proof fn lemma_flag_is_a_boolean(s: DecoderState)
    ensures
        s.flag() == s.decision(128),
        s.after_flag() == s.after_bool(128),
{
    reveal_with_fuel(DecoderState::after_literal, 2);
    reveal_with_fuel(DecoderState::literal, 2);
}

/// A magnitude with its sign is a literal with one more bit behind it. What
/// is read, without its sign, is the literal of `n` bits as a byte; a
/// negative number was read with its sign bit set; and the state afterwards
/// is that after the literal and one more flag, which is the state after a
/// literal of `n + 1` bits.
pub proof fn lemma_magnitude_is_literal(s: DecoderState, n: nat)
    ensures
        vstd::math::abs(s.magnitude_and_sign(n)) == s.literal(n) % 256,
        n <= 8 ==> vstd::math::abs(s.magnitude_and_sign(n)) == s.literal(n),
        s.magnitude_and_sign(n) < 0 ==> s.after_literal(n).flag(),
        s.magnitude_and_sign(n) > 0 ==> !s.after_literal(n).flag(),
        s.after_magnitude_and_sign(n) == s.after_literal(n).after_flag(),
        s.after_magnitude_and_sign(n) == s.after_literal(n + 1),
{
    lemma_literal_bounds(s, n);
    lemma_flag_is_a_boolean(s.after_literal(n));
}

// The end of the stream

/// An exhausted decoder stays exhausted, whatever is read from it: it goes
/// on to answer, and the cursor stays at the end of the buffer.
pub proof fn lemma_exhausted_stays(s: DecoderState, probability: u8)
    requires
        s.exhausted(),
    ensures
        s.after_bool(probability).exhausted(),
{
    lemma_after_bool_ready(s, probability);
    lemma_after_bool_progress(s, probability);
}

/// A renormalization step reads the same from two states with the same
/// stream.
pub proof fn lemma_same_stream_shifted(s: DecoderState, t: DecoderState)
    requires
        s.same_stream(t),
    ensures
        s.shifted().same_stream(t.shifted()),
{
    let s2 = s.shifted();
    let t2 = t.shifted();
    assert(s.pending_byte(0) == t.pending_byte(0));
    if s.bit_count + 1 != 8 {
        assert forall|ahead: nat| #[trigger] s2.pending_byte(ahead) == t2.pending_byte(ahead) by {
            assert(s2.pending_byte(ahead) == s.pending_byte(ahead));
            assert(t2.pending_byte(ahead) == t.pending_byte(ahead));
        }
    } else {
        assert forall|ahead: nat| #[trigger] s2.pending_byte(ahead) == t2.pending_byte(ahead) by {
            assert(s2.pending_byte(ahead) == s.pending_byte(ahead + 1));
            assert(t2.pending_byte(ahead) == t.pending_byte(ahead + 1));
        }
    }
}

/// Renormalization reads the same from two states with the same stream.
pub proof fn lemma_same_stream_renormalized(s: DecoderState, t: DecoderState)
    requires
        s.same_stream(t),
    ensures
        s.renormalized().same_stream(t.renormalized()),
    decreases 256 - s.range,
{
    if 0 < s.range < 128 {
        lemma_same_stream_shifted(s, t);
        lemma_same_stream_renormalized(s.shifted(), t.shifted());
    }
}

/// What a read returns and what it leaves depends on the buffer only
/// through the bytes ahead of the cursor, and the end of the buffer reads as
/// zero bytes without end: two states with the same stream give the same
/// boolean and have the same stream afterwards.
pub proof fn lemma_same_stream_after_bool(s: DecoderState, t: DecoderState, probability: u8)
    requires
        s.same_stream(t),
    ensures
        s.decision(probability) == t.decision(probability),
        s.after_bool(probability).same_stream(t.after_bool(probability)),
{
    let s1 = s.narrowed(probability);
    let t1 = t.narrowed(probability);
    assert forall|ahead: nat| #[trigger] s1.pending_byte(ahead) == t1.pending_byte(ahead) by {
        assert(s1.pending_byte(ahead) == s.pending_byte(ahead));
        assert(t1.pending_byte(ahead) == t.pending_byte(ahead));
    }
    lemma_same_stream_renormalized(s1, t1);
}

/// Two states with the same stream give the same booleans for as long as
/// they are read.
pub proof fn lemma_same_stream_bools(s: DecoderState, t: DecoderState, probabilities: Seq<u8>)
    requires
        s.same_stream(t),
    ensures
        s.bools(probabilities) == t.bools(probabilities),
        s.after_bools(probabilities).same_stream(t.after_bools(probabilities)),
    decreases probabilities.len(),
{
    if probabilities.len() > 0 {
        let front = probabilities.drop_last();
        lemma_same_stream_bools(s, t, front);
        lemma_same_stream_after_bool(s.after_bools(front), t.after_bools(front), probabilities.last());
    }
}

/// The end of the stream is no end to reading: a buffer, be it of just the
/// two bytes that seed the decoder, can be read for as long as one likes, and
/// reads as the same bytes followed by any number of zero bytes.
pub proof fn lemma_end_of_stream_reads_zeros(bytes: Seq<u8>, zeros: nat, probabilities: Seq<u8>)
    requires
        bytes.len() >= 2,
    ensures
        DecoderState::initial(bytes).after_bools(probabilities).ready(),
        DecoderState::initial(bytes).bools(probabilities) == DecoderState::initial(
            bytes + Seq::new(zeros, |i: int| 0u8),
        ).bools(probabilities),
{
    let padded = bytes + Seq::new(zeros, |i: int| 0u8);
    let s = DecoderState::initial(bytes);
    let t = DecoderState::initial(padded);
    assert(padded[0] == bytes[0] && padded[1] == bytes[1]);
    assert forall|ahead: nat| #[trigger] s.pending_byte(ahead) == t.pending_byte(ahead) by {
        let at = 2 + ahead as int;
        if at < bytes.len() {
            assert(padded[at] == bytes[at]);
        } else if at < padded.len() {
            assert(padded[at] == 0);
        }
    }
    lemma_same_stream_bools(s, t, probabilities);
    lemma_initial_ready(bytes);
    lemma_after_bools_ready(s, probabilities);
}

} // verus!

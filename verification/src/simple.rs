//! The plain decoder: the sequential algorithm, one decision and one
//! doubling at a time.

use crate::arith::{lemma_literal_step, lemma_two_to_small};
use crate::decoder::ArithmeticDecoder;
use crate::error::DecodingError;
use crate::lemmas::{
    lemma_after_bool_progress, lemma_after_bool_ready, lemma_after_literal_progress,
    lemma_literal_bounds, lemma_narrowed_coherent, lemma_shifted_coherent,
    lemma_split_point_bounds,
};
use crate::model::{two_to, DecoderState};
use crate::tree::{
    after_tree, leaf_symbol, lemma_walk_progress, table_valid, tree_symbol, walk, walk_ends, Prob,
};
use vstd::prelude::*;

verus! {

/// A simple version of the arithmetic decoder.
///
/// It keeps track of the current spot in the byte stream, of the range and
/// of the value.
///
/// For example, with a range of 231 and a probability of 30 (a high chance
/// of `true`), the split is `1 + (231 - 1) * 30 / 256 = 27`. The value holds
/// sixteen bits, so that a whole byte can be taken in at a time, and the split
/// is scaled to match: `27 * 256 = 6912`. If the value is at or above 6912 it
/// lies in the upper part of the interval: the decision is `true`, and both
/// the range and the value drop by the split. Otherwise it lies in the lower
/// part: the decision is `false`, the range becomes the split and the value
/// stays.
pub struct SimpleArithmeticDecoder {
    /// The buffer of bytes to be decoded.
    buf: Vec<u8>,
    /// The index in the buffer of the next byte to take in.
    index: usize,
    /// The width of the interval that the next decision is taken in;
    /// between 128 and 255 once the decoder is seeded.
    range: u32,
    /// The bits of the stream that the next decisions are read from.
    value: u32,
    /// The number of bits shifted out of the value since the last byte came
    /// in.
    bit_count: u8,
}

impl View for SimpleArithmeticDecoder {
    type V = DecoderState;

    closed spec fn view(&self) -> DecoderState {
        DecoderState {
            buffer: self.buf@,
            cursor: self.index as nat,
            range: self.range as int,
            value: self.value as int,
            bit_count: self.bit_count as nat,
        }
    }
}

impl SimpleArithmeticDecoder {
    /// A decoder without input. It must be seeded with `init` before
    /// anything is read from it.
    pub fn new() -> (decoder: Self)
        ensures
            decoder@ == DecoderState::unseeded(),
            !decoder@.ready(),
    {
        Self { buf: Vec::new(), range: 0, value: 0, bit_count: 0, index: 0 }
    }

    /// Seeds the decoder with a buffer of bytes, which it takes over.
    ///
    /// Fewer than two bytes are refused, and the decoder is left as it was.
    pub fn init(&mut self, buf: Vec<u8>) -> (outcome: Result<(), DecodingError>)
        ensures
            buf@.len() < 2 ==> outcome == Err::<(), DecodingError>(
                DecodingError::NotEnoughInitData,
            ) && final(self)@ == old(self)@,
            buf@.len() >= 2 ==> outcome == Ok::<(), DecodingError>(()) && final(self)@
                == DecoderState::initial(buf@) && final(self)@.ready(),
    {
        if buf.len() < 2 {
            return Err(DecodingError::NotEnoughInitData);
        }
        self.buf = buf;
        // The value holds at least a byte; it starts with the first two.
        let high: u32 = u32::from(self.buf[0]);
        let low: u32 = u32::from(self.buf[1]);
        assert((high << 8) | low == 256 * high + low) by (bit_vector)
            requires
                high < 256,
                low < 256,
        ;
        self.value = (high << 8) | low;
        // Two bytes are in the value already, so the third comes next.
        self.index = 2;
        // The interval starts at its widest.
        self.range = 255;
        // Nothing has been shifted out yet.
        self.bit_count = 0;
        proof {
            lemma_two_to_small();
        }
        Ok(())
    }

    /// Reads a boolean. The probability is the chance, out of 256, that it is
    /// `false`.
    ///
    /// The interval is cut at the split, the side that holds the value is
    /// kept, and the state is renormalized. Past the end of the buffer the
    /// stream reads as zero bytes.
    pub fn read_bool(&mut self, probability: u8) -> (bit: bool)
        requires
            old(self)@.ready(),
        ensures
            bit == old(self)@.decision(probability),
            final(self)@ == old(self)@.after_bool(probability),
            final(self)@.ready(),
            final(self)@.buffer == old(self)@.buffer,
            old(self)@.cursor <= final(self)@.cursor <= old(self)@.cursor + 1,
    {
        proof {
            lemma_split_point_bounds(self@.range, probability as int);
            lemma_narrowed_coherent(self@, probability);
            lemma_after_bool_ready(self@, probability);
            lemma_after_bool_progress(self@, probability);
        }
        let scaled: u32 = (self.range - 1) * u32::from(probability);
        assert(scaled >> 8 == scaled / 256) by (bit_vector);
        // The split is 1 + (range - 1) * probability / 256.
        let split: u32 = 1 + (scaled >> 8);
        assert(split << 8 == 256 * split) by (bit_vector)
            requires
                split < 256,
        ;
        // The split on the scale of the value.
        let bigsplit: u32 = split << 8;

        let retval = if self.value >= bigsplit {
            // The value lies above the split: the interval loses its lower
            // part, and the value is counted from the new lower end.
            self.range -= split;
            self.value -= bigsplit;
            true
        } else {
            // The value lies below: the interval ends at the split.
            self.range = split;
            false
        };

        // A range below 128 is doubled, and the value with it, until it is
        // wide enough for the next decision.
        while self.range < 128
            invariant
                self@.coherent(),
                self@.renormalized() == old(self)@.after_bool(probability),
            decreases 256 - self.range,
        {
            let ghost entered = self@;
            proof {
                lemma_shifted_coherent(entered);
                lemma_two_to_small();
            }
            let before: u32 = self.value;
            let narrow: u32 = self.range;
            assert(before << 1 == (2 * before) % 0x1_0000_0000) by (bit_vector);
            assert(narrow << 1 == 2 * narrow) by (bit_vector)
                requires
                    narrow < 128,
            ;
            self.value <<= 1;
            self.range <<= 1;
            // One more bit of the current byte is used up.
            self.bit_count += 1;

            // The byte is used up: the next one comes in.
            if self.bit_count == 8 {
                self.bit_count = 0;

                // Past the end of the buffer nothing comes in.
                if self.index < self.buf.len() {
                    let byte: u32 = u32::from(self.buf[self.index]);
                    let doubled: u32 = self.value;
                    assert(doubled | byte == doubled + byte) by (bit_vector)
                        requires
                            doubled % 256 == 0,
                            byte < 256,
                    ;
                    self.value |= byte;
                    self.index += 1;
                }
            }
            assert(self@ == entered.shifted());
        }

        retval
    }

    /// Reads a literal number of `n` bits, the most significant first, each
    /// as likely to be 0 as 1.
    ///
    /// The result is a byte: of a literal wider than eight bits it is the
    /// low eight. A literal of no bits is zero, and nothing is read for it.
    pub fn read_literal(&mut self, n: u8) -> (v: u8)
        requires
            old(self)@.ready(),
        ensures
            v == old(self)@.literal(n as nat) % 256,
            n <= 8 ==> v == old(self)@.literal(n as nat),
            final(self)@ == old(self)@.after_literal(n as nat),
            final(self)@.ready(),
            final(self)@.buffer == old(self)@.buffer,
            old(self)@.cursor <= final(self)@.cursor <= old(self)@.cursor + n,
            n == 0 ==> v == 0 && final(self)@ == old(self)@,
    {
        let mut v = 0u8;
        for i in 0..n
            invariant
                self@.ready(),
                self@ == old(self)@.after_literal(i as nat),
                v == old(self)@.literal(i as nat) % 256,
        {
            let bit = self.read_bool(128u8);
            let high: u8 = v;
            assert(high << 1 == (2 * high) % 256) by (bit_vector);
            proof {
                lemma_literal_bounds(old(self)@, i as nat);
                lemma_literal_step(
                    high as int,
                    old(self)@.literal(i as nat),
                    if bit {
                        1
                    } else {
                        0
                    },
                );
            }
            v = (v << 1) + bit as u8;
        }
        proof {
            lemma_literal_bounds(old(self)@, n as nat);
            lemma_after_literal_progress(old(self)@, n as nat);
        }
        v
    }

    /// Reads a signed number: a magnitude of `n` bits as a literal, then a
    /// flag that makes it negative when set.
    ///
    /// A magnitude of zero has no sign: with the flag set the result is
    /// still zero.
    pub fn read_magnitude_and_sign(&mut self, n: u8) -> (number: i32)
        requires
            old(self)@.ready(),
        ensures
            number == old(self)@.magnitude_and_sign(n as nat),
            final(self)@ == old(self)@.after_magnitude_and_sign(n as nat),
            final(self)@.ready(),
            final(self)@.buffer == old(self)@.buffer,
            old(self)@.cursor <= final(self)@.cursor <= old(self)@.cursor + n + 1,
    {
        // The magnitude comes first: n bits at even odds.
        let magnitude = self.read_literal(n);
        // The sign follows as a flag: set means negative.
        let sign = self.read_flag();

        if sign {
            -(magnitude as i32)
        } else {
            magnitude as i32
        }
    }

    /// Reads a symbol by walking a tree.
    ///
    /// The tree is a table of signed entries in pairs. A walk starts at the
    /// pair at `start` (0 for the root) and reads a boolean with the
    /// probability at half the pair's index: `false` takes the first entry of
    /// the pair, `true` the second. A positive entry is the index of the next
    /// pair; any other entry is a leaf, and its negation is the symbol.
    ///
    /// The table has to be one that every walk from `start` comes out of:
    /// see `table_valid`.
    pub fn read_with_tree(&mut self, tree: &[i8], probs: &[Prob], start: isize) -> (symbol: i8)
        requires
            old(self)@.ready(),
            table_valid(tree@, probs@, start as int),
        ensures
            symbol == tree_symbol(old(self)@, tree@, probs@, start as int),
            final(self)@ == after_tree(old(self)@, tree@, probs@, start as int),
            final(self)@.ready(),
            final(self)@.buffer == old(self)@.buffer,
            old(self)@.cursor <= final(self)@.cursor <= old(self)@.cursor + tree@.len(),
    {
        // The walk may start anywhere in the tree; 0 is its root.
        let mut index = start;
        let ghost mut depth: nat = tree@.len();

        // One decision after another, until a leaf is reached.
        loop
            invariant_except_break
                self@.ready(),
                walk_ends(tree@, probs@, index as int, depth),
                walk(self@, tree@, probs@, index as int, depth) == walk(
                    old(self)@,
                    tree@,
                    probs@,
                    start as int,
                    tree@.len(),
                ),
            ensures
                self@.ready(),
                -128 <= index <= 0,
                (self@, leaf_symbol(index as i8)) == walk(
                    old(self)@,
                    tree@,
                    probs@,
                    start as int,
                    tree@.len(),
                ),
            decreases depth,
        {
            let pair: usize = index as usize;
            assert(pair >> 1 == pair / 2) by (bit_vector);
            // The probability is that of the pair.
            let a = self.read_bool(probs[index as usize >> 1]);
            // A `true` takes the entry at index + 1, a `false` the one at
            // index.
            let b = index as usize + a as usize;
            index = tree[b] as isize;
            proof {
                depth = (depth - 1) as nat;
            }

            // An entry that is not positive is a leaf.
            if index <= 0 {
                break;
            }
        }

        proof {
            lemma_walk_progress(old(self)@, tree@, probs@, start as int, tree@.len());
        }
        // The symbol is the negation of the leaf.
        assert(128isize as i8 == -128i8) by (bit_vector);
        #[verifier::truncate]
        (-index as i8)
    }

    /// Reads a flag: a literal of one bit, `true` if the bit is 1.
    pub fn read_flag(&mut self) -> (flag: bool)
        requires
            old(self)@.ready(),
        ensures
            flag == old(self)@.flag(),
            final(self)@ == old(self)@.after_flag(),
            final(self)@.ready(),
            final(self)@.buffer == old(self)@.buffer,
            old(self)@.cursor <= final(self)@.cursor <= old(self)@.cursor + 1,
    {
        0 != self.read_literal(1)
    }
}

impl SimpleArithmeticDecoder {
    /// The width of the current interval.
    pub fn range(&self) -> (range: u32)
        ensures
            range == self@.range,
    {
        self.range
    }

    /// The accumulator.
    pub fn value(&self) -> (value: u32)
        ensures
            value == self@.value,
    {
        self.value
    }

    /// The number of doublings since the accumulator last took in a byte.
    pub fn bit_count(&self) -> (bit_count: u8)
        ensures
            bit_count == self@.bit_count,
    {
        self.bit_count
    }

    /// The index of the next byte of the buffer to be taken in.
    pub fn cursor(&self) -> (cursor: usize)
        ensures
            cursor == self@.cursor,
    {
        self.index
    }

    /// The length of the buffer.
    pub fn buffer_len(&self) -> (len: usize)
        ensures
            len == self@.buffer.len(),
    {
        self.buf.len()
    }

    /// Whether the decoder can be read from: whether it has been seeded.
    pub fn is_ready(&self) -> (ready: bool)
        ensures
            ready == self@.ready(),
    {
        if self.bit_count >= 8 {
            return false;
        }
        let bits: u32 = u32::from(self.bit_count);
        let value: u32 = self.value;
        assert(1u32 << bits > 0) by (bit_vector)
            requires
                bits < 8,
        ;
        assert(1u32 << bits == two_to(bits as nat)) by {
            lemma_two_to_small();
            assert(1u32 << 0u32 == 1) by (bit_vector);
            assert(1u32 << 1u32 == 2) by (bit_vector);
            assert(1u32 << 2u32 == 4) by (bit_vector);
            assert(1u32 << 3u32 == 8) by (bit_vector);
            assert(1u32 << 4u32 == 16) by (bit_vector);
            assert(1u32 << 5u32 == 32) by (bit_vector);
            assert(1u32 << 6u32 == 64) by (bit_vector);
            assert(1u32 << 7u32 == 128) by (bit_vector);
        }
        128 <= self.range && self.range <= 255 && 2 <= self.index && self.index <= self.buf.len()
            && value % (1u32 << bits) == 0
    }
}

impl ArithmeticDecoder for SimpleArithmeticDecoder {
    open spec fn state(&self) -> DecoderState {
        self@
    }

    fn init(&mut self, bytes: Vec<u8>) -> (outcome: Result<(), DecodingError>) {
        SimpleArithmeticDecoder::init(self, bytes)
    }

    fn read_bool(&mut self, probability: u8) -> (bit: bool) {
        SimpleArithmeticDecoder::read_bool(self, probability)
    }

    fn read_literal(&mut self, bit_width: u8) -> (v: u8) {
        SimpleArithmeticDecoder::read_literal(self, bit_width)
    }

    fn read_flag(&mut self) -> (flag: bool) {
        SimpleArithmeticDecoder::read_flag(self)
    }

    fn read_magnitude_and_sign(&mut self, bit_width: u8) -> (number: i32) {
        SimpleArithmeticDecoder::read_magnitude_and_sign(self, bit_width)
    }

    fn read_with_tree(&mut self, tree: &[i8], probabilities: &[Prob], start_index: isize) -> (symbol:
        i8) {
        SimpleArithmeticDecoder::read_with_tree(self, tree, probabilities, start_index)
    }
}

} // verus!

//! The decoder as mathematics: its state as a record of integers and a byte
//! sequence, and every read as a function from one state to the next.
//!
//! The contracts of the executable decoders are stated over these functions;
//! what holds of them is proved in `lemmas`.

use vstd::prelude::*;

verus! {

/// Two to the 32nd power: the accumulator is kept modulo this.
pub open spec fn value_modulus() -> int {
    0x1_0000_0000
}

/// Two to the power `k`.
pub open spec fn two_to(k: nat) -> int
    decreases k,
{
    if k == 0 {
        1
    } else {
        2 * two_to((k - 1) as nat)
    }
}

/// The point at which an interval of width `range` is cut for a decision of
/// the given probability.
pub open spec fn split_point(range: int, probability: int) -> int {
    1 + ((range - 1) * probability) / 256
}

/// The number of doublings that it takes to bring a range back to 128 or
/// more.
pub open spec fn doublings(range: int) -> nat
    decreases 256 - range,
{
    if 0 < range < 128 {
        1 + doublings(2 * range)
    } else {
        0
    }
}

/// What a decoder holds between two reads.
pub struct DecoderState {
    /// The whole input; it never changes once the decoder is seeded.
    pub buffer: Seq<u8>,
    /// The index of the next byte of `buffer` to be consumed.
    pub cursor: nat,
    /// The width of the current probability interval.
    pub range: int,
    /// The accumulator: the position inside the interval, scaled by 256.
    pub value: int,
    /// The number of doublings since the accumulator last took in a byte.
    pub bit_count: nat,
}

impl DecoderState {
    /// The state of a decoder that has not been given its input yet.
    pub open spec fn unseeded() -> DecoderState {
        DecoderState { buffer: Seq::empty(), cursor: 0, range: 0, value: 0, bit_count: 0 }
    }

    /// The state right after seeding with `bytes`: the first two bytes are in
    /// the accumulator and the interval is at its widest.
    pub open spec fn initial(bytes: Seq<u8>) -> DecoderState
        recommends
            bytes.len() >= 2,
    {
        DecoderState {
            buffer: bytes,
            cursor: 2,
            range: 255,
            value: 256 * bytes[0] + bytes[1],
            bit_count: 0,
        }
    }

    /// What holds at every point of a read: all of `ready` but the lower
    /// bound of the range, which a decision may take below 128 until the
    /// state is renormalized.
    pub open spec fn coherent(self) -> bool {
        &&& 1 <= self.range <= 255
        &&& self.bit_count < 8
        &&& 2 <= self.cursor <= self.buffer.len()
        &&& 0 <= self.value < value_modulus()
        &&& self.value % two_to(self.bit_count) == 0
    }

    /// What holds between reads: the range is normalized to `[128, 255]`, the
    /// cursor is inside the buffer or at its end, and the low `bit_count` bits
    /// of the accumulator are still empty.
    pub open spec fn ready(self) -> bool {
        &&& self.coherent()
        &&& 128 <= self.range
    }

    /// Whether the whole buffer has been taken in. An exhausted decoder is
    /// as ready as any other: it reads on, with zero bytes for input.
    pub open spec fn exhausted(self) -> bool {
        &&& self.ready()
        &&& self.cursor == self.buffer.len()
    }

    /// Whether the accumulator lies inside the interval: below the range on
    /// the accumulator's scale. The streams that an encoder writes keep it
    /// there.
    pub open spec fn inside(self) -> bool {
        self.value < 256 * self.range
    }

    /// The cut of the current interval for a decision of this probability.
    pub open spec fn split(self, probability: u8) -> int {
        split_point(self.range, probability as int)
    }

    /// The next decision: whether the accumulator lies at or above the cut.
    /// A tie is `true`.
    pub open spec fn decision(self, probability: u8) -> bool {
        self.value >= 256 * self.split(probability)
    }

    /// The state once the interval is narrowed to the side that the decision
    /// chose, before any renormalization.
    pub open spec fn narrowed(self, probability: u8) -> DecoderState {
        let split = self.split(probability);
        if self.decision(probability) {
            DecoderState { range: self.range - split, value: self.value - 256 * split, ..self }
        } else {
            DecoderState { range: split, ..self }
        }
    }

    /// One renormalization step: the range and the accumulator double, and
    /// on the eighth doubling since the last refill the next byte of the
    /// buffer enters the low byte of the accumulator. Past the end of the
    /// buffer nothing enters, which reads as a zero byte.
    pub open spec fn shifted(self) -> DecoderState {
        let range = 2 * self.range;
        let value = (2 * self.value) % value_modulus();
        if self.bit_count + 1 != 8 {
            DecoderState { range, value, bit_count: self.bit_count + 1, ..self }
        } else if self.cursor < self.buffer.len() {
            DecoderState {
                range,
                value: value + self.buffer[self.cursor as int],
                bit_count: 0,
                cursor: self.cursor + 1,
                ..self
            }
        } else {
            DecoderState { range, value, bit_count: 0, ..self }
        }
    }

    /// The state after as many renormalization steps as it takes to bring
    /// the range back to 128 or more. (A range of zero would never get
    /// there, and is left alone; no read comes to one.)
    pub open spec fn renormalized(self) -> DecoderState
        decreases 256 - self.range,
    {
        if 0 < self.range < 128 {
            self.shifted().renormalized()
        } else {
            self
        }
    }

    /// The state after one boolean has been read.
    pub open spec fn after_bool(self, probability: u8) -> DecoderState {
        self.narrowed(probability).renormalized()
    }

    /// The state after `n` even-odds booleans have been read.
    pub open spec fn after_literal(self, n: nat) -> DecoderState
        decreases n,
    {
        if n == 0 {
            self
        } else {
            self.after_literal((n - 1) as nat).after_bool(128)
        }
    }

    /// The number that the next `n` even-odds booleans spell, the first of
    /// them being its most significant bit.
    pub open spec fn literal(self, n: nat) -> int
        decreases n,
    {
        if n == 0 {
            0
        } else {
            let last = self.after_literal((n - 1) as nat).decision(128);
            2 * self.literal((n - 1) as nat) + if last {
                1int
            } else {
                0int
            }
        }
    }

    /// The next flag: whether a literal of one bit is not zero.
    pub open spec fn flag(self) -> bool {
        self.literal(1) != 0
    }

    /// The state after a flag has been read.
    pub open spec fn after_flag(self) -> DecoderState {
        self.after_literal(1)
    }

    /// The signed number that a magnitude of `n` bits and the sign flag
    /// behind it spell: the magnitude is the literal as a byte, and the flag
    /// set makes it negative.
    pub open spec fn magnitude_and_sign(self, n: nat) -> int {
        if self.after_literal(n).flag() {
            -(self.literal(n) % 256)
        } else {
            self.literal(n) % 256
        }
    }

    /// The state after a magnitude of `n` bits and its sign have been read.
    pub open spec fn after_magnitude_and_sign(self, n: nat) -> DecoderState {
        self.after_literal(n).after_flag()
    }

    /// The state after one boolean has been read for each of the given
    /// probabilities, in their order.
    pub open spec fn after_bools(self, probabilities: Seq<u8>) -> DecoderState
        decreases probabilities.len(),
    {
        if probabilities.len() == 0 {
            self
        } else {
            self.after_bools(probabilities.drop_last()).after_bool(probabilities.last())
        }
    }

    /// The booleans that are read for the given probabilities, in their
    /// order.
    pub open spec fn bools(self, probabilities: Seq<u8>) -> Seq<bool>
        decreases probabilities.len(),
    {
        if probabilities.len() == 0 {
            Seq::empty()
        } else {
            self.bools(probabilities.drop_last()).push(
                self.after_bools(probabilities.drop_last()).decision(probabilities.last()),
            )
        }
    }

    /// The byte that is `ahead` places behind the cursor in what is left of
    /// the stream: a byte of the buffer, or zero past its end.
    pub open spec fn pending_byte(self, ahead: nat) -> int {
        if self.cursor + ahead < self.buffer.len() {
            self.buffer[(self.cursor + ahead) as int] as int
        } else {
            0
        }
    }

    /// Whether two states have the same interval and accumulator and the
    /// same stream ahead of them, a stream being taken to go on with zero
    /// bytes where its buffer ends.
    pub open spec fn same_stream(self, other: DecoderState) -> bool {
        &&& self.range == other.range
        &&& self.value == other.value
        &&& self.bit_count == other.bit_count
        &&& forall|ahead: nat| #[trigger] self.pending_byte(ahead) == other.pending_byte(ahead)
    }
}

} // verus!

//! What a decoder can do, whatever way it goes about it.

use crate::error::DecodingError;
use crate::model::DecoderState;
use crate::tree::{after_tree, table_valid, tree_symbol, Prob};
use vstd::prelude::*;

verus! {

/// The operations of a boolean arithmetic decoder.
///
/// A decoder may keep its state in any form: tables, several bytes taken in
/// at once. Its contract is the model's. `state` says which state of the
/// model a decoder stands for, and each operation returns what the model
/// reads in that state and leaves the decoder standing for the state that
/// the model says comes next. Two decoders can so be exchanged for one
/// another without a change to what is decoded.
pub trait ArithmeticDecoder: Sized {
    /// The state of the model that this decoder stands for.
    spec fn state(&self) -> DecoderState;

    /// Seeds the decoder with the bytes to decode, which it takes over.
    /// Fewer than two bytes are refused, and the decoder is left as it was.
    fn init(&mut self, bytes: Vec<u8>) -> (outcome: Result<(), DecodingError>)
        ensures
            bytes@.len() < 2 ==> outcome == Err::<(), DecodingError>(
                DecodingError::NotEnoughInitData,
            ) && final(self).state() == old(self).state(),
            bytes@.len() >= 2 ==> outcome == Ok::<(), DecodingError>(()) && final(self).state()
                == DecoderState::initial(bytes@) && final(self).state().ready(),
    ;

    /// Reads a boolean. The probability is the chance, out of 256, that it is
    /// `false`.
    fn read_bool(&mut self, probability: u8) -> (bit: bool)
        requires
            old(self).state().ready(),
        ensures
            bit == old(self).state().decision(probability),
            final(self).state() == old(self).state().after_bool(probability),
            final(self).state().ready(),
            final(self).state().buffer == old(self).state().buffer,
            old(self).state().cursor <= final(self).state().cursor <= old(self).state().cursor + 1,
    ;

    /// Reads a literal of `bit_width` bits, the most significant first, as a
    /// byte.
    fn read_literal(&mut self, bit_width: u8) -> (v: u8)
        requires
            old(self).state().ready(),
        ensures
            v == old(self).state().literal(bit_width as nat) % 256,
            bit_width <= 8 ==> v == old(self).state().literal(bit_width as nat),
            final(self).state() == old(self).state().after_literal(bit_width as nat),
            final(self).state().ready(),
            final(self).state().buffer == old(self).state().buffer,
            old(self).state().cursor <= final(self).state().cursor <= old(self).state().cursor
                + bit_width,
            bit_width == 0 ==> v == 0 && final(self).state() == old(self).state(),
    ;

    /// Reads a flag: a literal of one bit.
    fn read_flag(&mut self) -> (flag: bool)
        requires
            old(self).state().ready(),
        ensures
            flag == old(self).state().flag(),
            final(self).state() == old(self).state().after_flag(),
            final(self).state().ready(),
            final(self).state().buffer == old(self).state().buffer,
            old(self).state().cursor <= final(self).state().cursor <= old(self).state().cursor + 1,
    ;

    /// Reads a magnitude of `bit_width` bits and the flag that makes it
    /// negative.
    fn read_magnitude_and_sign(&mut self, bit_width: u8) -> (number: i32)
        requires
            old(self).state().ready(),
        ensures
            number == old(self).state().magnitude_and_sign(bit_width as nat),
            final(self).state() == old(self).state().after_magnitude_and_sign(bit_width as nat),
            final(self).state().ready(),
            final(self).state().buffer == old(self).state().buffer,
            old(self).state().cursor <= final(self).state().cursor <= old(self).state().cursor
                + bit_width + 1,
    ;

    /// Reads a symbol by walking a valid tree table from the pair at
    /// `start_index`.
    fn read_with_tree(&mut self, tree: &[i8], probabilities: &[Prob], start_index: isize) -> (symbol:
        i8)
        requires
            old(self).state().ready(),
            table_valid(tree@, probabilities@, start_index as int),
        ensures
            symbol == tree_symbol(old(self).state(), tree@, probabilities@, start_index as int),
            final(self).state() == after_tree(
                old(self).state(),
                tree@,
                probabilities@,
                start_index as int,
            ),
            final(self).state().ready(),
            final(self).state().buffer == old(self).state().buffer,
            old(self).state().cursor <= final(self).state().cursor <= old(self).state().cursor
                + tree@.len(),
    ;
}

} // verus!

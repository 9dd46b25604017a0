//! The boolean arithmetic decoder of VP8-family lossy bitstreams.
//!
//! A decoder turns a byte stream into booleans, each read with the
//! probability that the stream's format gives it, and builds literals, signed
//! numbers and tree-coded symbols out of them. What each read returns, and
//! what it leaves behind, is stated as a contract over a mathematical model of
//! the decoder's state.
//!
//! - `model`: the state of a decoder and every read as a function on it.
//! - `tree`: tree tables, what it is to walk one, and the nodes that a table
//!   is prepared into.
//! - `validity`: which tables can be walked, and the check that tells.
//! - `decoder`: the operations of a decoder as a trait.
//! - `simple`: the plain decoder.
//! - `lemmas`, `arith`: what holds of every read, and the arithmetic under
//!   it.
//! - `error`: the errors.

pub mod arith;
pub mod decoder;
pub mod error;
pub mod lemmas;
pub mod model;
pub mod simple;
pub mod tree;
pub mod validity;

pub use decoder::ArithmeticDecoder;
pub use error::DecodingError;
pub use model::DecoderState;
pub use simple::SimpleArithmeticDecoder;
pub use tree::{Prob, TreeNode};
pub use validity::check_table;

//! A byte-pair-encoding (BPE) subword tokenizer.
//!
//! The library learns an ordered list of merge rules from a corpus
//! ([`bpe::Tokenizer::train`]), applies them to turn text into token ids
//! ([`bpe::Tokenizer::tokenize`]), maps ids back to token strings
//! ([`bpe::Tokenizer::tokens_as_string`]), and encodes the trained model to
//! bytes and back ([`bpe::Tokenizer::save`], [`bpe::Tokenizer::load`]).
//! Reading and writing those bytes to storage is the caller's task.

use vstd::prelude::*;

pub mod chars;
pub mod counter;
pub mod normalize;
pub mod bpe;
pub mod codec;

verus! {

/// Identifier of a token in the vocabulary: the index of the token in the
/// sorted token table.
pub type TokenID = usize;

/// Sentinel id meaning "no known token". It is never assigned to a real
/// vocabulary entry: real ids are indices of a `Vec`, which are at most
/// `usize::MAX - 1` when the id is in range.
pub const UNK: TokenID = usize::MAX;

/// Errors of model persistence. The library itself only reports
/// `SerializationFailure` (corrupt or structurally invalid bytes); callers
/// that read the bytes from storage report `NotFound` and `IoFailure`.
#[derive(Debug, Clone, Copy, PartialEq, Eq, Structural)]
pub enum TokenizerError {
    NotFound,
    IoFailure,
    SerializationFailure,
}

} // verus!

//! Streaming UTF-8 validation.
//!
//! The library decodes one code point at a time from a borrowed byte
//! source, rejecting every category of malformed input: invalid lead
//! bytes, truncated sequences, stray continuation bytes, overlong
//! encodings, surrogate values and values past the Unicode maximum.

mod decode;
mod error;
mod source;

pub use decode::{
    acc2, acc3, acc3_partial, acc4, acc4_partial1, acc4_partial2, check_code_point, classify_spec,
    decode1, decode2, decode3, decode4, decode_next, encode_utf8, extract, get_sequence_1,
    get_sequence_2, get_sequence_3, get_sequence_4,
    is_code_point_valid, is_overlong_sequence, is_scalar_value, is_surrogate, is_trail,
    is_trail_byte, lemma_bounded_consumption, lemma_classification_deterministic,
    lemma_round_trip, lemma_success_is_scalar, lemma_surrogate_rejected, min_seq_len,
    overlong_spec, sequence_length, validate_next, SeqLen,
};
pub use error::UtfError;
pub use source::{get_next_byte, AsByte, ByteSource};

//! A Base64 codec: `base64_encode` turns arbitrary bytes into text over the
//! 64-symbol alphabet `A`-`Z`, `a`-`z`, `0`-`9`, `+`, `/` with `=` padding,
//! and `base64_decode` recovers the original bytes.
//!
//! Decoding is lenient: every input byte outside the alphabet (whitespace,
//! punctuation, padding, arbitrary noise) is discarded before the surviving
//! symbols are decoded, so padding is optional.  Decoding fails exactly when
//! the number of surviving symbols leaves a remainder of 1 modulo 4: a single
//! leftover 6-bit value cannot stand for any whole byte.

mod alphabet;
mod decode;
mod encode;
mod laws;

pub use alphabet::{alphabet_char, is_symbol, lemma_alphabet_bijective, symbol_value};
pub use decode::{base64_decode, decoded_bytes, spec_decode, symbol_seq, DecodeError};
pub use encode::{base64_encode, spec_encode};
pub use laws::{
    ends_with_one_pad, ends_with_two_pads, ends_without_pad, lemma_decode_ignores_noise,
    lemma_encode_alphabet, lemma_encode_len, lemma_encode_padding, lemma_round_trip,
};

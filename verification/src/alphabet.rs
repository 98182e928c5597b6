use vstd::prelude::*;

verus! {

/// ASCII `A`, the first upper-case symbol (values 0-25).
pub const UPPER_A: u8 = 65;

/// ASCII `Z`.
pub const UPPER_Z: u8 = 90;

/// ASCII `a`, the first lower-case symbol (values 26-51).
pub const LOWER_A: u8 = 97;

/// ASCII `z`.
pub const LOWER_Z: u8 = 122;

/// ASCII `0`, the first digit symbol (values 52-61).
pub const DIGIT_0: u8 = 48;

/// ASCII `9`.
pub const DIGIT_9: u8 = 57;

/// ASCII `+`, the symbol for value 62.
pub const PLUS: u8 = 43;

/// ASCII `/`, the symbol for value 63.
pub const SLASH: u8 = 47;

/// ASCII `=`, the padding byte; never a data-bearing symbol.
pub const PAD: u8 = 61;

/// The symbol that stands for the 6-bit value `v`: `A`-`Z` for 0-25,
/// `a`-`z` for 26-51, `0`-`9` for 52-61, then `+` and `/`.
pub open spec fn alphabet_char(v: u8) -> u8
    recommends
        v < 64,
{
    if v < 26 {
        (UPPER_A + v) as u8
    } else if v < 52 {
        (LOWER_A + (v - 26)) as u8
    } else if v < 62 {
        (DIGIT_0 + (v - 52)) as u8
    } else if v == 62 {
        PLUS
    } else {
        SLASH
    }
}

/// Whether `b` is one of the 64 alphabet symbols.  The padding byte `=` is
/// not a symbol: it never carries data.
pub open spec fn is_symbol(b: u8) -> bool {
    (UPPER_A <= b <= UPPER_Z) || (LOWER_A <= b <= LOWER_Z) || (DIGIT_0 <= b <= DIGIT_9) || b
        == PLUS || b == SLASH
}

/// The 6-bit value that the symbol `b` stands for: the inverse of
/// `alphabet_char` on the 64 alphabet symbols.
pub open spec fn symbol_value(b: u8) -> u8
    recommends
        is_symbol(b),
{
    if UPPER_A <= b <= UPPER_Z {
        (b - UPPER_A) as u8
    } else if LOWER_A <= b <= LOWER_Z {
        (b - LOWER_A + 26) as u8
    } else if DIGIT_0 <= b <= DIGIT_9 {
        (b - DIGIT_0 + 52) as u8
    } else if b == PLUS {
        62u8
    } else {
        63u8
    }
}

/// The alphabet is a bijection between 6-bit values and symbols: each
/// `alphabet_char(v)` is a symbol, is not the padding byte, and maps back
/// to `v` under `symbol_value`.
pub proof fn lemma_alphabet_bijective(v: u8)
    requires
        v < 64,
    ensures
        is_symbol(alphabet_char(v)),
        alphabet_char(v) != PAD,
        symbol_value(alphabet_char(v)) == v,
{
}

/// Maps a 6-bit value to its alphabet symbol.
pub(crate) fn encode_symbol(v: u8) -> (c: u8)
    requires
        v < 64,
    ensures
        c == alphabet_char(v),
{
    if v < 26 {
        UPPER_A + v
    } else if v < 52 {
        LOWER_A + (v - 26)
    } else if v < 62 {
        DIGIT_0 + (v - 52)
    } else if v == 62 {
        PLUS
    } else {
        SLASH
    }
}

/// Maps an alphabet symbol back to its 6-bit value; `None` for every byte
/// outside the alphabet.
pub(crate) fn decode_symbol(b: u8) -> (r: Option<u8>)
    ensures
        is_symbol(b) ==> r == Some(symbol_value(b)),
        !is_symbol(b) ==> r is None,
{
    if UPPER_A <= b && b <= UPPER_Z {
        Some(b - UPPER_A)
    } else if LOWER_A <= b && b <= LOWER_Z {
        Some(b - LOWER_A + 26)
    } else if DIGIT_0 <= b && b <= DIGIT_9 {
        Some(b - DIGIT_0 + 52)
    } else if b == PLUS {
        Some(62)
    } else if b == SLASH {
        Some(63)
    } else {
        None
    }
}

} // verus!

use vstd::prelude::*;

use crate::alphabet::{decode_symbol, is_symbol, symbol_value};

verus! {

/// Why a decode failed.
#[derive(Clone, Copy, Debug, PartialEq, Eq, Structural)]
pub enum DecodeError {
    /// The filtered symbol count leaves a remainder of 1 modulo 4: one 6-bit
    /// value on its own cannot stand for any whole byte.
    InvalidRemainder,
}

/// The 6-bit values of the alphabet symbols in `s`, in order; every byte
/// outside the alphabet (padding and noise alike) is dropped.
pub open spec fn symbol_seq(s: Seq<u8>) -> Seq<u8>
    decreases s.len(),
{
    if s.len() == 0 {
        Seq::empty()
    } else if is_symbol(s[0]) {
        seq![symbol_value(s[0])] + symbol_seq(s.skip(1))
    } else {
        symbol_seq(s.skip(1))
    }
}

/// The first byte carried by a symbol group: the 6 bits of `s0` and the top
/// 2 bits of `s1`.
pub open spec fn byte0(s0: u8, s1: u8) -> u8 {
    (s0 << 2) | (s1 >> 4)
}

/// The second byte carried by a symbol group: the low 4 bits of `s1` and the
/// top 4 bits of `s2`.
pub open spec fn byte1(s1: u8, s2: u8) -> u8 {
    (s1 << 4) | (s2 >> 2)
}

/// The third byte carried by a symbol group: the low 2 bits of `s2` and the
/// 6 bits of `s3`.
pub open spec fn byte2(s2: u8, s3: u8) -> u8 {
    (s2 << 6) | s3
}

/// The bytes carried by the 6-bit values `vals`: three bytes for each full
/// group of four, then one byte for a remainder of two values, two bytes for
/// a remainder of three.  A remainder of one value carries no whole byte;
/// decoding rejects it before this function applies.
pub open spec fn decoded_bytes(vals: Seq<u8>) -> Seq<u8>
    decreases vals.len(),
{
    if vals.len() >= 4 {
        seq![
            byte0(vals[0], vals[1]),
            byte1(vals[1], vals[2]),
            byte2(vals[2], vals[3]),
        ] + decoded_bytes(vals.skip(4))
    } else if vals.len() == 2 {
        seq![byte0(vals[0], vals[1])]
    } else if vals.len() == 3 {
        seq![byte0(vals[0], vals[1]), byte1(vals[1], vals[2])]
    } else {
        Seq::empty()
    }
}

/// The lenient decode of `s`: the bytes carried by the alphabet symbols of
/// `s`, or the remainder error when their count is 1 modulo 4.
pub open spec fn spec_decode(s: Seq<u8>) -> Result<Seq<u8>, DecodeError> {
    if symbol_seq(s).len() % 4 == 1 {
        Err(DecodeError::InvalidRemainder)
    } else {
        Ok(decoded_bytes(symbol_seq(s)))
    }
}

/// The symbols of a concatenation are the symbols of the parts, in order.
pub proof fn lemma_symbol_seq_append(a: Seq<u8>, b: Seq<u8>)
    ensures
        symbol_seq(a + b) == symbol_seq(a) + symbol_seq(b),
    decreases a.len(),
{
    if a.len() == 0 {
        assert(a + b =~= b);
        assert(symbol_seq(a) + symbol_seq(b) =~= symbol_seq(b));
    } else {
        assert((a + b).skip(1) =~= a.skip(1) + b);
        lemma_symbol_seq_append(a.skip(1), b);
        assert(symbol_seq(a + b) =~= symbol_seq(a) + symbol_seq(b));
    }
}

/// The symbols of a single byte: its value when it is in the alphabet,
/// nothing otherwise.
pub proof fn lemma_symbol_seq_single(b: u8)
    ensures
        is_symbol(b) ==> symbol_seq(seq![b]) == seq![symbol_value(b)],
        !is_symbol(b) ==> symbol_seq(seq![b]) == Seq::<u8>::empty(),
{
    let s = seq![b];
    assert(s.skip(1) =~= Seq::<u8>::empty());
    assert(symbol_seq(s.skip(1)) =~= Seq::<u8>::empty());
    if is_symbol(b) {
        assert(symbol_seq(s) =~= seq![symbol_value(b)]);
    }
}

/// Decoding distributes over splitting the values after a whole number of
/// 4-value groups.
pub proof fn lemma_decoded_bytes_append(a: Seq<u8>, b: Seq<u8>)
    requires
        a.len() % 4 == 0,
    ensures
        decoded_bytes(a + b) == decoded_bytes(a) + decoded_bytes(b),
    decreases a.len(),
{
    if a.len() == 0 {
        assert(a + b =~= b);
        assert(decoded_bytes(a) + decoded_bytes(b) =~= decoded_bytes(b));
    } else {
        assert((a + b).skip(4) =~= a.skip(4) + b);
        lemma_decoded_bytes_append(a.skip(4), b);
        assert(decoded_bytes(a + b) =~= decoded_bytes(a) + decoded_bytes(b));
    }
}

/// Decoding the prefix one group longer appends that group's three bytes.
proof fn lemma_decoded_bytes_step(vals: Seq<u8>, j: int)
    requires
        0 <= j,
        j % 4 == 0,
        j + 4 <= vals.len(),
    ensures
        decoded_bytes(vals.take(j + 4)) == decoded_bytes(vals.take(j)) + seq![
            byte0(vals[j], vals[j + 1]),
            byte1(vals[j + 1], vals[j + 2]),
            byte2(vals[j + 2], vals[j + 3]),
        ],
{
    let g = seq![vals[j], vals[j + 1], vals[j + 2], vals[j + 3]];
    assert(vals.take(j + 4) =~= vals.take(j) + g);
    lemma_decoded_bytes_append(vals.take(j), g);
    assert(g.skip(4) =~= Seq::<u8>::empty());
    assert(decoded_bytes(g.skip(4)) =~= Seq::<u8>::empty());
    assert(decoded_bytes(g) =~= seq![
        byte0(vals[j], vals[j + 1]),
        byte1(vals[j + 1], vals[j + 2]),
        byte2(vals[j + 2], vals[j + 3]),
    ]);
}

/// Decodes `val` leniently: bytes outside the alphabet are discarded, the
/// surviving symbols are decoded, and padding is never required.  Fails
/// exactly when the symbol count leaves a remainder of 1 modulo 4.
pub fn base64_decode(val: &[u8]) -> (r: Result<Vec<u8>, DecodeError>)
    ensures
        r matches Ok(out) ==> spec_decode(val@) == Ok::<Seq<u8>, DecodeError>(out@),
        r matches Err(e) ==> spec_decode(val@) == Err::<Seq<u8>, DecodeError>(e),
        r is Err <==> symbol_seq(val@).len() % 4 == 1,
{
    let n = val.len();
    let mut vals: Vec<u8> = Vec::new();
    let mut i: usize = 0;
    while i < n
        invariant
            i <= n,
            n == val@.len(),
            vals@ == symbol_seq(val@.take(i as int)),
        decreases n - i,
    {
        let b = val[i];
        proof {
            assert(val@.take(i + 1) =~= val@.take(i as int) + seq![b]);
            lemma_symbol_seq_append(val@.take(i as int), seq![b]);
            lemma_symbol_seq_single(b);
        }
        if let Some(v) = decode_symbol(b) {
            vals.push(v);
        }
        i += 1;
    }
    proof {
        assert(val@.take(n as int) =~= val@);
    }
    let m = vals.len();
    if m % 4 == 1 {
        return Err(DecodeError::InvalidRemainder);
    }
    let mut out: Vec<u8> = Vec::new();
    let mut j: usize = 0;
    while m - j >= 4
        invariant
            j <= m,
            j % 4 == 0,
            m == vals@.len(),
            vals@ == symbol_seq(val@),
            out@ == decoded_bytes(vals@.take(j as int)),
        decreases m - j,
    {
        let s0 = vals[j];
        let s1 = vals[j + 1];
        let s2 = vals[j + 2];
        let s3 = vals[j + 3];
        proof {
            lemma_decoded_bytes_step(vals@, j as int);
        }
        out.push((s0 << 2) | (s1 >> 4));
        out.push((s1 << 4) | (s2 >> 2));
        out.push((s2 << 6) | s3);
        j += 4;
    }
    if m - j == 2 {
        let s0 = vals[j];
        let s1 = vals[j + 1];
        proof {
            lemma_decoded_bytes_append(vals@.take(j as int), seq![s0, s1]);
            assert(vals@.take(j as int) + seq![s0, s1] =~= vals@);
            assert(decoded_bytes(seq![s0, s1]) =~= seq![byte0(s0, s1)]);
        }
        out.push((s0 << 2) | (s1 >> 4));
    } else if m - j == 3 {
        let s0 = vals[j];
        let s1 = vals[j + 1];
        let s2 = vals[j + 2];
        proof {
            lemma_decoded_bytes_append(vals@.take(j as int), seq![s0, s1, s2]);
            assert(vals@.take(j as int) + seq![s0, s1, s2] =~= vals@);
            assert(decoded_bytes(seq![s0, s1, s2]) =~= seq![byte0(s0, s1), byte1(s1, s2)]);
        }
        out.push((s0 << 2) | (s1 >> 4));
        out.push((s1 << 4) | (s2 >> 2));
    } else {
        proof {
            assert(vals@.take(j as int) =~= vals@);
        }
    }
    proof {
        assert(out@ == decoded_bytes(symbol_seq(val@)));
        assert(spec_decode(val@) == Ok::<Seq<u8>, DecodeError>(out@));
    }
    Ok(out)
}

} // verus!

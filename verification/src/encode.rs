use vstd::prelude::*;

use crate::alphabet::{alphabet_char, encode_symbol, PAD};

verus! {

/// The first 6-bit field of a 3-byte group: the high 6 bits of `b0`.
pub open spec fn field0(b0: u8) -> u8 {
    b0 >> 2
}

/// The second 6-bit field: the low 2 bits of `b0` and the high 4 bits of `b1`.
pub open spec fn field1(b0: u8, b1: u8) -> u8 {
    ((b0 << 4) | (b1 >> 4)) & 63
}

/// The third 6-bit field: the low 4 bits of `b1` and the high 2 bits of `b2`.
pub open spec fn field2(b1: u8, b2: u8) -> u8 {
    ((b1 << 2) | (b2 >> 6)) & 63
}

/// The fourth 6-bit field: the low 6 bits of `b2`.
pub open spec fn field3(b2: u8) -> u8 {
    b2 & 63
}

/// The Base64 encoding of `s`: each full 3-byte group becomes the symbols of
/// its four 6-bit fields, big-endian; one leftover byte becomes two symbols
/// and `==`, two leftover bytes become three symbols and `=`.
pub open spec fn spec_encode(s: Seq<u8>) -> Seq<u8>
    decreases s.len(),
{
    if s.len() == 0 {
        Seq::empty()
    } else if s.len() == 1 {
        seq![
            alphabet_char(field0(s[0])),
            alphabet_char(field1(s[0], 0)),
            PAD,
            PAD,
        ]
    } else if s.len() == 2 {
        seq![
            alphabet_char(field0(s[0])),
            alphabet_char(field1(s[0], s[1])),
            alphabet_char(field2(s[1], 0)),
            PAD,
        ]
    } else {
        seq![
            alphabet_char(field0(s[0])),
            alphabet_char(field1(s[0], s[1])),
            alphabet_char(field2(s[1], s[2])),
            alphabet_char(field3(s[2])),
        ] + spec_encode(s.skip(3))
    }
}

/// Every 6-bit field is below 64, so each one has an alphabet symbol.
pub proof fn lemma_fields_bounded(b0: u8, b1: u8, b2: u8)
    by (bit_vector)
    ensures
        field0(b0) < 64,
        field1(b0, b1) < 64,
        field2(b1, b2) < 64,
        field3(b2) < 64,
{
}

/// With a zero byte filling the missing positions, the middle fields of a
/// partial group reduce to a single shift and mask.
proof fn lemma_pad_fields(b0: u8, b1: u8)
    by (bit_vector)
    ensures
        field1(b0, 0) == (b0 << 4) & 63,
        field2(b1, 0) == (b1 << 2) & 63,
{
}

/// Encoding distributes over splitting the input after a whole number of
/// 3-byte groups.
pub proof fn lemma_encode_append(a: Seq<u8>, b: Seq<u8>)
    requires
        a.len() % 3 == 0,
    ensures
        spec_encode(a + b) == spec_encode(a) + spec_encode(b),
    decreases a.len(),
{
    if a.len() == 0 {
        assert(a + b =~= b);
        assert(spec_encode(a) + spec_encode(b) =~= spec_encode(b));
    } else {
        assert((a + b).skip(3) =~= a.skip(3) + b);
        lemma_encode_append(a.skip(3), b);
        assert(spec_encode(a + b) =~= spec_encode(a) + spec_encode(b));
    }
}

/// Encoding the prefix one group longer appends that group's four symbols.
proof fn lemma_encode_step(s: Seq<u8>, i: int)
    requires
        0 <= i,
        i % 3 == 0,
        i + 3 <= s.len(),
    ensures
        spec_encode(s.take(i + 3)) == spec_encode(s.take(i)) + seq![
            alphabet_char(field0(s[i])),
            alphabet_char(field1(s[i], s[i + 1])),
            alphabet_char(field2(s[i + 1], s[i + 2])),
            alphabet_char(field3(s[i + 2])),
        ],
{
    let g = seq![s[i], s[i + 1], s[i + 2]];
    assert(s.take(i + 3) =~= s.take(i) + g);
    lemma_encode_append(s.take(i), g);
    assert(g.skip(3) =~= Seq::<u8>::empty());
    assert(spec_encode(g.skip(3)) =~= Seq::<u8>::empty());
    assert(spec_encode(g) =~= seq![
        alphabet_char(field0(s[i])),
        alphabet_char(field1(s[i], s[i + 1])),
        alphabet_char(field2(s[i + 1], s[i + 2])),
        alphabet_char(field3(s[i + 2])),
    ]);
}

/// Encodes `val` as Base64 with padding.
pub fn base64_encode(val: &[u8]) -> (out: Vec<u8>)
    ensures
        out@ == spec_encode(val@),
{
    let n = val.len();
    let mut out: Vec<u8> = Vec::new();
    let mut i: usize = 0;
    while n - i >= 3
        invariant
            i <= n,
            i % 3 == 0,
            n == val@.len(),
            out@ == spec_encode(val@.take(i as int)),
        decreases n - i,
    {
        let b0 = val[i];
        let b1 = val[i + 1];
        let b2 = val[i + 2];
        proof {
            lemma_fields_bounded(b0, b1, b2);
            lemma_encode_step(val@, i as int);
        }
        out.push(encode_symbol(b0 >> 2));
        out.push(encode_symbol(((b0 << 4) | (b1 >> 4)) & 63));
        out.push(encode_symbol(((b1 << 2) | (b2 >> 6)) & 63));
        out.push(encode_symbol(b2 & 63));
        i += 3;
    }
    if n - i == 1 {
        let b0 = val[i];
        proof {
            lemma_fields_bounded(b0, 0, 0);
            lemma_pad_fields(b0, 0);
            lemma_encode_append(val@.take(i as int), seq![b0]);
            assert(val@.take(i as int) + seq![b0] =~= val@);
            assert(spec_encode(seq![b0]) =~= seq![
                alphabet_char(field0(b0)),
                alphabet_char(field1(b0, 0)),
                PAD,
                PAD,
            ]);
        }
        out.push(encode_symbol(b0 >> 2));
        out.push(encode_symbol((b0 << 4) & 63));
        out.push(PAD);
        out.push(PAD);
    } else if n - i == 2 {
        let b0 = val[i];
        let b1 = val[i + 1];
        proof {
            lemma_fields_bounded(b0, b1, 0);
            lemma_pad_fields(b0, b1);
            lemma_encode_append(val@.take(i as int), seq![b0, b1]);
            assert(val@.take(i as int) + seq![b0, b1] =~= val@);
            assert(spec_encode(seq![b0, b1]) =~= seq![
                alphabet_char(field0(b0)),
                alphabet_char(field1(b0, b1)),
                alphabet_char(field2(b1, 0)),
                PAD,
            ]);
        }
        out.push(encode_symbol(b0 >> 2));
        out.push(encode_symbol(((b0 << 4) | (b1 >> 4)) & 63));
        out.push(encode_symbol((b1 << 2) & 63));
        out.push(PAD);
    } else {
        proof {
            assert(val@.take(i as int) =~= val@);
        }
    }
    out
}

} // verus!

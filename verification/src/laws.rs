use vstd::prelude::*;

use crate::alphabet::{alphabet_char, is_symbol, lemma_alphabet_bijective, PAD};
use crate::decode::{
    byte0, byte1, byte2, decoded_bytes, lemma_decoded_bytes_append, lemma_symbol_seq_append,
    lemma_symbol_seq_single, spec_decode, symbol_seq, DecodeError,
};
use crate::encode::{field0, field1, field2, field3, lemma_fields_bounded, spec_encode};

verus! {

/// The encoding is four symbols for every started 3-byte group:
/// its length is `4 * ceil(len / 3)`.
pub proof fn lemma_encode_len(s: Seq<u8>)
    ensures
        spec_encode(s).len() == 4 * ((s.len() + 2) / 3),
    decreases s.len(),
{
    if s.len() >= 3 {
        lemma_encode_len(s.skip(3));
    }
}

/// Every byte of an encoding is an alphabet symbol or the padding byte.
pub proof fn lemma_encode_alphabet(s: Seq<u8>)
    ensures
        forall|k: int|
            0 <= k < spec_encode(s).len() ==> is_symbol(#[trigger] spec_encode(s)[k])
                || spec_encode(s)[k] == PAD,
    decreases s.len(),
{
    let e = spec_encode(s);
    if s.len() == 0 {
    } else if s.len() == 1 {
        lemma_fields_bounded(s[0], 0, 0);
        lemma_alphabet_bijective(field0(s[0]));
        lemma_alphabet_bijective(field1(s[0], 0));
    } else if s.len() == 2 {
        lemma_fields_bounded(s[0], s[1], 0);
        lemma_alphabet_bijective(field0(s[0]));
        lemma_alphabet_bijective(field1(s[0], s[1]));
        lemma_alphabet_bijective(field2(s[1], 0));
    } else {
        lemma_fields_bounded(s[0], s[1], s[2]);
        lemma_alphabet_bijective(field0(s[0]));
        lemma_alphabet_bijective(field1(s[0], s[1]));
        lemma_alphabet_bijective(field2(s[1], s[2]));
        lemma_alphabet_bijective(field3(s[2]));
        lemma_encode_alphabet(s.skip(3));
        assert forall|k: int| 0 <= k < e.len() implies is_symbol(#[trigger] e[k]) || e[k]
            == PAD by {
            if k >= 4 {
                assert(e[k] == spec_encode(s.skip(3))[k - 4]);
            }
        }
    }
}

/// Whether `e` ends in two padding bytes.
pub open spec fn ends_with_two_pads(e: Seq<u8>) -> bool {
    e.len() >= 2 && e[e.len() - 1] == PAD && e[e.len() - 2] == PAD
}

/// Whether `e` ends in exactly one padding byte.
pub open spec fn ends_with_one_pad(e: Seq<u8>) -> bool {
    e.len() >= 1 && e[e.len() - 1] == PAD && !(e.len() >= 2 && e[e.len() - 2] == PAD)
}

/// Whether `e` ends without padding.
pub open spec fn ends_without_pad(e: Seq<u8>) -> bool {
    e.len() == 0 || e[e.len() - 1] != PAD
}

/// The padding of an encoding tells the input length modulo 3: two pads for
/// a remainder of 1, one pad for a remainder of 2, none for a remainder of 0.
pub proof fn lemma_encode_padding(s: Seq<u8>)
    ensures
        ends_with_two_pads(spec_encode(s)) <==> s.len() % 3 == 1,
        ends_with_one_pad(spec_encode(s)) <==> s.len() % 3 == 2,
        ends_without_pad(spec_encode(s)) <==> s.len() % 3 == 0,
    decreases s.len(),
{
    if s.len() == 2 {
        lemma_fields_bounded(s[0], s[1], 0);
        lemma_alphabet_bijective(field2(s[1], 0));
    } else if s.len() == 3 {
        lemma_fields_bounded(s[0], s[1], s[2]);
        lemma_alphabet_bijective(field3(s[2]));
        assert(s.skip(3) =~= Seq::<u8>::empty());
        assert(spec_encode(s.skip(3)) =~= Seq::<u8>::empty());
        assert(spec_encode(s) =~= seq![
            alphabet_char(field0(s[0])),
            alphabet_char(field1(s[0], s[1])),
            alphabet_char(field2(s[1], s[2])),
            alphabet_char(field3(s[2])),
        ]);
    } else if s.len() > 3 {
        lemma_encode_padding(s.skip(3));
        lemma_encode_len(s.skip(3));
    }
}

/// The symbols of a sequence with no symbols in it: none.
proof fn lemma_symbol_seq_of_noise(noise: Seq<u8>)
    requires
        forall|k: int| 0 <= k < noise.len() ==> !is_symbol(#[trigger] noise[k]),
    ensures
        symbol_seq(noise) == Seq::<u8>::empty(),
    decreases noise.len(),
{
    if noise.len() > 0 {
        assert forall|k: int| 0 <= k < noise.skip(1).len() implies !is_symbol(
            #[trigger] noise.skip(1)[k],
        ) by {
            assert(noise.skip(1)[k] == noise[k + 1]);
        }
        lemma_symbol_seq_of_noise(noise.skip(1));
    }
}

/// Filtering is idempotent: bytes outside the alphabet, inserted anywhere,
/// never change what a lenient decode returns.
pub proof fn lemma_decode_ignores_noise(pre: Seq<u8>, noise: Seq<u8>, post: Seq<u8>)
    requires
        forall|k: int| 0 <= k < noise.len() ==> !is_symbol(#[trigger] noise[k]),
    ensures
        spec_decode(pre + noise + post) == spec_decode(pre + post),
{
    lemma_symbol_seq_of_noise(noise);
    lemma_symbol_seq_append(pre + noise, post);
    lemma_symbol_seq_append(pre, noise);
    lemma_symbol_seq_append(pre, post);
    assert(symbol_seq(pre) + symbol_seq(noise) =~= symbol_seq(pre));
    assert(symbol_seq(pre + noise + post) == symbol_seq(pre + post));
}

/// The 6-bit values whose symbols `spec_encode` emits, without the padding:
/// four for each full 3-byte group, two or three for a partial one.
spec fn encoded_fields(s: Seq<u8>) -> Seq<u8>
    decreases s.len(),
{
    if s.len() == 0 {
        Seq::empty()
    } else if s.len() == 1 {
        seq![field0(s[0]), field1(s[0], 0)]
    } else if s.len() == 2 {
        seq![field0(s[0]), field1(s[0], s[1]), field2(s[1], 0)]
    } else {
        seq![field0(s[0]), field1(s[0], s[1]), field2(s[1], s[2]), field3(s[2])] + encoded_fields(
            s.skip(3),
        )
    }
}

/// The padding byte is not a symbol, so the symbols of an encoding are
/// exactly the 6-bit fields it was built from.
proof fn lemma_symbol_seq_of_encode(s: Seq<u8>)
    ensures
        symbol_seq(spec_encode(s)) == encoded_fields(s),
    decreases s.len(),
{
    if s.len() == 0 {
    } else if s.len() == 1 {
        lemma_fields_bounded(s[0], 0, 0);
        lemma_alphabet_bijective(field0(s[0]));
        lemma_alphabet_bijective(field1(s[0], 0));
        lemma_symbol_seq_of_parts(
            seq![alphabet_char(field0(s[0])), alphabet_char(field1(s[0], 0)), PAD, PAD],
        );
        lemma_symbol_seq_single(alphabet_char(field0(s[0])));
        lemma_symbol_seq_single(alphabet_char(field1(s[0], 0)));
        lemma_symbol_seq_single(PAD);
        assert(symbol_seq(spec_encode(s)) =~= encoded_fields(s));
    } else if s.len() == 2 {
        lemma_fields_bounded(s[0], s[1], 0);
        lemma_alphabet_bijective(field0(s[0]));
        lemma_alphabet_bijective(field1(s[0], s[1]));
        lemma_alphabet_bijective(field2(s[1], 0));
        lemma_symbol_seq_of_parts(
            seq![
                alphabet_char(field0(s[0])),
                alphabet_char(field1(s[0], s[1])),
                alphabet_char(field2(s[1], 0)),
                PAD,
            ],
        );
        lemma_symbol_seq_single(alphabet_char(field0(s[0])));
        lemma_symbol_seq_single(alphabet_char(field1(s[0], s[1])));
        lemma_symbol_seq_single(alphabet_char(field2(s[1], 0)));
        lemma_symbol_seq_single(PAD);
        assert(symbol_seq(spec_encode(s)) =~= encoded_fields(s));
    } else {
        lemma_fields_bounded(s[0], s[1], s[2]);
        lemma_alphabet_bijective(field0(s[0]));
        lemma_alphabet_bijective(field1(s[0], s[1]));
        lemma_alphabet_bijective(field2(s[1], s[2]));
        lemma_alphabet_bijective(field3(s[2]));
        let g = seq![
            alphabet_char(field0(s[0])),
            alphabet_char(field1(s[0], s[1])),
            alphabet_char(field2(s[1], s[2])),
            alphabet_char(field3(s[2])),
        ];
        lemma_symbol_seq_append(g, spec_encode(s.skip(3)));
        lemma_symbol_seq_of_parts(g);
        lemma_symbol_seq_single(alphabet_char(field0(s[0])));
        lemma_symbol_seq_single(alphabet_char(field1(s[0], s[1])));
        lemma_symbol_seq_single(alphabet_char(field2(s[1], s[2])));
        lemma_symbol_seq_single(alphabet_char(field3(s[2])));
        lemma_symbol_seq_of_encode(s.skip(3));
        assert(symbol_seq(spec_encode(s)) =~= encoded_fields(s));
    }
}

/// The symbols of one encoded group, computed element by element.
proof fn lemma_symbol_seq_of_parts(g: Seq<u8>)
    requires
        g.len() == 4,
    ensures
        symbol_seq(g) == symbol_seq(seq![g[0]]) + symbol_seq(seq![g[1]]) + symbol_seq(seq![g[2]])
            + symbol_seq(seq![g[3]]),
{
    assert(g =~= seq![g[0]] + seq![g[1]] + seq![g[2]] + seq![g[3]]);
    lemma_symbol_seq_append(seq![g[0]] + seq![g[1]] + seq![g[2]], seq![g[3]]);
    lemma_symbol_seq_append(seq![g[0]] + seq![g[1]], seq![g[2]]);
    lemma_symbol_seq_append(seq![g[0]], seq![g[1]]);
}

/// One group of fields carries its three source bytes back unchanged.
proof fn lemma_group_round_trip(b0: u8, b1: u8, b2: u8)
    by (bit_vector)
    ensures
        byte0(field0(b0), field1(b0, b1)) == b0,
        byte1(field1(b0, b1), field2(b1, b2)) == b1,
        byte2(field2(b1, b2), field3(b2)) == b2,
{
}

/// How many fields an input of each length produces: never 1 modulo 4.
proof fn lemma_encoded_fields_len(s: Seq<u8>)
    ensures
        s.len() % 3 == 0 ==> encoded_fields(s).len() % 4 == 0,
        s.len() % 3 == 1 ==> encoded_fields(s).len() % 4 == 2,
        s.len() % 3 == 2 ==> encoded_fields(s).len() % 4 == 3,
    decreases s.len(),
{
    if s.len() >= 3 {
        lemma_encoded_fields_len(s.skip(3));
    }
}

/// Decoding the fields of an encoding gives the input back.
proof fn lemma_decoded_bytes_of_fields(s: Seq<u8>)
    ensures
        decoded_bytes(encoded_fields(s)) == s,
    decreases s.len(),
{
    if s.len() == 0 {
        assert(decoded_bytes(encoded_fields(s)) =~= s);
    } else if s.len() == 1 {
        lemma_group_round_trip(s[0], 0, 0);
        assert(decoded_bytes(encoded_fields(s)) =~= s);
    } else if s.len() == 2 {
        lemma_group_round_trip(s[0], s[1], 0);
        assert(decoded_bytes(encoded_fields(s)) =~= s);
    } else {
        let g = seq![field0(s[0]), field1(s[0], s[1]), field2(s[1], s[2]), field3(s[2])];
        lemma_group_round_trip(s[0], s[1], s[2]);
        lemma_decoded_bytes_append(g, encoded_fields(s.skip(3)));
        lemma_decoded_bytes_of_fields(s.skip(3));
        assert(g.skip(4) =~= Seq::<u8>::empty());
        assert(decoded_bytes(g.skip(4)) =~= Seq::<u8>::empty());
        assert(decoded_bytes(g) =~= seq![s[0], s[1], s[2]]);
        assert(decoded_bytes(encoded_fields(s)) =~= s);
    }
}

/// Round trip: decoding an encoding recovers the input exactly, for every
/// byte sequence.
pub proof fn lemma_round_trip(b: Seq<u8>)
    ensures
        spec_decode(spec_encode(b)) == Ok::<Seq<u8>, DecodeError>(b),
{
    lemma_symbol_seq_of_encode(b);
    lemma_encoded_fields_len(b);
    lemma_decoded_bytes_of_fields(b);
}

} // verus!

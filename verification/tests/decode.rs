use b64codec::{base64_decode, base64_encode, DecodeError};

#[test]
fn lib_exact() {
    assert_eq!(
        base64_decode(b"TWFueSBoYW5kcyBtYWtlIGxpZ2h0IHdvcmsu").unwrap(),
        b"Many hands make light work."
    );
}

#[test]
fn spurious_characters_exact() {
    assert_eq!(
        base64_decode(b"TWFueSBoYW5kc yB tYWtlIG *** -- = \n xpZ2h0IHdvcmsu").unwrap(),
        b"Many hands make light work."
    );
}

#[test]
fn lib_padding_1() {
    assert_eq!(base64_decode(b"bGlnaHQgd28=").unwrap(), b"light wo");
}

#[test]
fn lib_padding_2() {
    assert_eq!(base64_decode(b"bGlnaHQgdw==").unwrap(), b"light w");
}

#[test]
fn no_padding_1() {
    assert_eq!(base64_decode(b"bGlnaHQgd28").unwrap(), b"light wo");
}

#[test]
fn no_padding_2() {
    assert_eq!(base64_decode(b"bGlnaHQgdw").unwrap(), b"light w");
}

#[test]
#[should_panic]
fn error() {
    base64_decode(b"bGlnaHQgd").unwrap();
}

#[test]
fn empty_decode() {
    assert_eq!(base64_decode(b"").unwrap(), b"");
}

#[test]
fn remainder_of_one_symbol_is_rejected() {
    // 5 alphabet symbols: 5 mod 4 == 1, the sole failure condition.
    assert_eq!(
        base64_decode(b"bGlna"),
        Err(DecodeError::InvalidRemainder)
    );
    // A single symbol fails the same way, noise around it notwithstanding.
    assert_eq!(base64_decode(b" Q ="), Err(DecodeError::InvalidRemainder));
}

#[test]
fn round_trip_all_byte_values() {
    let input: Vec<u8> = (0..=255u8).collect();
    assert_eq!(base64_decode(&base64_encode(&input)).unwrap(), input);
}

#[test]
fn round_trip_every_short_length() {
    for len in 0..20usize {
        let input: Vec<u8> = (0..len as u8).map(|b| b.wrapping_mul(37)).collect();
        assert_eq!(base64_decode(&base64_encode(&input)).unwrap(), input);
    }
}

#[test]
fn noise_never_changes_the_result() {
    let clean = b"bGlnaHQgd28=".to_vec();
    let expected = base64_decode(&clean).unwrap();
    for pos in 0..=clean.len() {
        for noise in [b' ', b'\n', b'*', b'-', b'=', 0u8, 255u8] {
            let mut noisy = clean.clone();
            noisy.insert(pos, noise);
            assert_eq!(base64_decode(&noisy).unwrap(), expected);
        }
    }
}

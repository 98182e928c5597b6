use b64codec::base64_encode;

#[test]
fn exact() {
    assert_eq!(
        base64_encode(b"Many hands make light work."),
        b"TWFueSBoYW5kcyBtYWtlIGxpZ2h0IHdvcmsu"
    );
}

#[test]
fn padding_1() {
    assert_eq!(base64_encode(b"light wo"), b"bGlnaHQgd28=");
}

#[test]
fn padding_2() {
    assert_eq!(base64_encode(b"light w"), b"bGlnaHQgdw==");
}

#[test]
fn empty_encode() {
    assert_eq!(base64_encode(b""), b"");
}

#[test]
fn single_byte() {
    assert_eq!(base64_encode(b"l"), b"bA==");
}

#[test]
fn output_length_is_four_per_started_group() {
    for len in 0..50usize {
        let input = vec![0xABu8; len];
        let expected = 4 * len.div_ceil(3);
        assert_eq!(base64_encode(&input).len(), expected);
    }
}

#[test]
fn padding_matches_length_mod_three() {
    for len in 0..30usize {
        let input = vec![0x5Eu8; len];
        let out = base64_encode(&input);
        let pads = out.iter().rev().take_while(|&&b| b == b'=').count();
        let expected = match len % 3 {
            0 => 0,
            1 => 2,
            _ => 1,
        };
        assert_eq!(pads, expected, "input length {}", len);
    }
}

#[test]
fn output_stays_in_alphabet() {
    let input: Vec<u8> = (0..=255u8).collect();
    for &b in base64_encode(&input).iter() {
        let in_alphabet = b.is_ascii_uppercase()
            || b.is_ascii_lowercase()
            || b.is_ascii_digit()
            || b == b'+'
            || b == b'/';
        assert!(in_alphabet || b == b'=');
    }
}

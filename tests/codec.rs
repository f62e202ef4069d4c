use emoji_stego::codec::{decode, encode, DecodeError};
use emoji_stego::nibble::{nibble_to_variation, variation_to_nibble};

const GRIN: char = '\u{1F600}';

#[test]
fn boundary_selectors() {
    assert_eq!(nibble_to_variation(0), '\u{FE00}');
    assert_eq!(nibble_to_variation(15), '\u{FE0F}');
    assert_eq!(variation_to_nibble('\u{FE00}'), Some(0));
    assert_eq!(variation_to_nibble('\u{FE0F}'), Some(15));
}

#[test]
fn every_nibble_maps_back() {
    for n in 0u8..=15 {
        let c = nibble_to_variation(n);
        assert_eq!(c as u32, 0xFE00 + n as u32);
        assert_eq!(variation_to_nibble(c), Some(n));
    }
}

#[test]
fn non_selectors_carry_no_nibble() {
    assert_eq!(variation_to_nibble('\u{FDFF}'), None);
    assert_eq!(variation_to_nibble('\u{FE10}'), None);
    assert_eq!(variation_to_nibble('a'), None);
    assert_eq!(variation_to_nibble(GRIN), None);
    assert_eq!(variation_to_nibble('\u{E0100}'), None);
}

#[test]
fn encode_single_letter() {
    let expected: String = [GRIN, '\u{FE04}', GRIN, '\u{FE01}'].iter().collect();
    assert_eq!(encode("A", GRIN), expected);
}

#[test]
fn decode_single_letter() {
    let encoded: String = [GRIN, '\u{FE04}', GRIN, '\u{FE01}'].iter().collect();
    assert_eq!(decode(&encoded), Ok("A".to_string()));
}

#[test]
fn encode_length_is_four_per_byte() {
    for secret in ["", "A", "hello", "h\u{E9}llo", "\u{1F680} go"] {
        let encoded = encode(secret, 'x');
        assert_eq!(encoded.chars().count(), 4 * secret.len());
    }
}

#[test]
fn encode_byte_with_both_nibbles_high() {
    // U+00FF is the bytes 0xC3 0xBF.
    let expected: String =
        ['*', '\u{FE0C}', '*', '\u{FE03}', '*', '\u{FE0B}', '*', '\u{FE0F}'].iter().collect();
    assert_eq!(encode("\u{FF}", '*'), expected);
}

#[test]
fn empty_input() {
    assert_eq!(encode("", GRIN), "");
    assert_eq!(decode(""), Ok(String::new()));
}

#[test]
fn round_trip() {
    for secret in ["A", "hello world", "h\u{E9}llo", "\u{1F680}\u{4E2D}\u{6587}", "\u{0}\u{7F}"] {
        for base in [GRIN, 'x', ' ', '\u{2764}'] {
            assert_eq!(decode(&encode(secret, base)), Ok(secret.to_string()));
        }
    }
}

#[test]
fn decode_ignores_extraneous_content() {
    let noisy: String =
        ['a', '\u{FE04}', ' ', 'b', '\u{FE01}', GRIN, '\u{FE04}', '\n', '\u{FE02}', 'z']
            .iter()
            .collect();
    let stripped: String = ['\u{FE04}', '\u{FE01}', '\u{FE04}', '\u{FE02}'].iter().collect();
    assert_eq!(decode(&noisy), decode(&stripped));
    assert_eq!(decode(&noisy), Ok("AB".to_string()));
}

#[test]
fn decode_plain_text_is_empty() {
    assert_eq!(decode("no selectors here"), Ok(String::new()));
}

#[test]
fn odd_selectors_rejected() {
    assert_eq!(decode("\u{FE00}"), Err(DecodeError::IncompleteNibbleSequence));
    let noisy: String = [GRIN, '\u{FE04}', GRIN, '\u{FE01}', 'q', '\u{FE03}', 'r']
        .iter()
        .collect();
    assert_eq!(decode(&noisy), Err(DecodeError::IncompleteNibbleSequence));
}

#[test]
fn invalid_text_bytes_rejected() {
    // A lone continuation byte 0x80.
    let encoded: String = ['\u{FE08}', '\u{FE00}'].iter().collect();
    assert_eq!(
        decode(&encoded),
        Err(DecodeError::TextDecodingError { bytes: vec![0x80] })
    );
}

#[test]
fn truncated_multibyte_rejected() {
    // 0x41 then 0xC3, the first half of a two-byte sequence.
    let encoded: String = ['\u{FE04}', '\u{FE01}', '\u{FE0C}', '\u{FE03}'].iter().collect();
    assert_eq!(
        decode(&encoded),
        Err(DecodeError::TextDecodingError { bytes: vec![0x41, 0xC3] })
    );
}

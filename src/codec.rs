//! Encoding bytes as (base emoji, selector) pairs, and decoding them back.

use vstd::prelude::*;
use vstd::utf8::{decode_utf8, encode_utf8, valid_utf8};
use crate::laws::lemma_selectors_push;
use crate::nibble::{
    is_selector, nibble_of, nibble_to_variation, selector_code, variation_to_nibble,
    SELECTOR_BASE, SELECTOR_LAST,
};

verus! {

/// The selector that carries nibble `n`, as a character.
pub open spec fn selector_char(n: u8) -> char {
    selector_code(n) as char
}

/// The characters that hide `bytes` behind the carrier `e`: for each byte in
/// order, `e`, the selector of its high nibble, `e`, the selector of its low
/// nibble.
pub open spec fn encoding(bytes: Seq<u8>, e: char) -> Seq<char> {
    Seq::new(
        4 * bytes.len(),
        |i: int|
            if i % 2 == 0 {
                e
            } else if i % 4 == 1 {
                selector_char((bytes[i / 4] / 16) as u8)
            } else {
                selector_char((bytes[i / 4] % 16) as u8)
            },
    )
}

/// The selectors of `s`, in their order; every other character is dropped.
pub open spec fn selectors(s: Seq<char>) -> Seq<char> {
    s.filter(|c: char| is_selector(c))
}

/// The bytes carried by consecutive pairs of selectors, high nibble first.
pub open spec fn paired_bytes(sel: Seq<char>) -> Seq<u8> {
    Seq::new(
        sel.len() / 2,
        |i: int| (nibble_of(sel[2 * i]) * 16 + nibble_of(sel[2 * i + 1])) as u8,
    )
}

/// The bytes hidden in `s`.
pub open spec fn hidden_bytes(s: Seq<char>) -> Seq<u8> {
    paired_bytes(selectors(s))
}

/// Why a text could not be decoded.
#[derive(Debug, PartialEq, Eq)]
pub enum DecodeError {
    /// The text holds an odd number of selectors, so the last one has no pair.
    IncompleteNibbleSequence,
    /// A character taken for a selector carries no nibble.
    InvalidSelector,
    /// The hidden bytes, given back here, are not valid UTF-8.
    TextDecodingError { bytes: Vec<u8> },
}

/// Relies on `String::push`: appends one character.
#[verifier::external_body]
fn push_char(s: &mut String, c: char)
    ensures
        final(s)@ == old(s)@.push(c),
{
    s.push(c);
}

/// Relies on `String::from_utf8`: `Ok` with the text that the bytes encode
/// exactly when they are valid UTF-8; on failure the error gives the bytes
/// back (`FromUtf8Error::into_bytes`).
#[verifier::external_body]
fn string_from_utf8(bytes: Vec<u8>) -> (r: Result<String, Vec<u8>>)
    ensures
        match r {
            Ok(s) => valid_utf8(bytes@) && s@ == decode_utf8(bytes@),
            Err(b) => !valid_utf8(bytes@) && b@ == bytes@,
        },
{
    match String::from_utf8(bytes) {
        Ok(s) => Ok(s),
        Err(e) => Err(e.into_bytes()),
    }
}

/// The selectors of `encoded`, in order.
fn extract_selectors(encoded: &str) -> (r: Vec<char>)
    ensures
        r@ == selectors(encoded@),
{
    let mut found: Vec<char> = Vec::new();
    for c in it: encoded.chars()
        invariant
            it.seq() == encoded@,
            found@ == selectors(it.seq().take(it.index() as int)),
    {
        let ghost seen = it.seq().take(it.index() as int);
        proof {
            lemma_selectors_push(seen, c);
            assert(it.seq().take(it.index() + 1) =~= seen.push(c));
        }
        let code = c as u32;
        if SELECTOR_BASE <= code && code <= SELECTOR_LAST {
            found.push(c);
        }
    }
    proof {
        assert(encoded@.take(encoded@.len() as int) =~= encoded@);
    }
    found
}

/// Hides the UTF-8 bytes of `secret` behind `base_emoji`: four characters
/// per byte.
pub fn encode(secret: &str, base_emoji: char) -> (r: String)
    ensures
        r@ == encoding(encode_utf8(secret@), base_emoji),
        r@.len() == 4 * encode_utf8(secret@).len(),
{
    let bytes = secret.as_bytes();
    let mut result = String::new();
    let mut i: usize = 0;
    while i < bytes.len()
        invariant
            i <= bytes@.len(),
            bytes@ == encode_utf8(secret@),
            result@ == encoding(bytes@.subrange(0, i as int), base_emoji),
        decreases bytes@.len() - i,
    {
        let byte = bytes[i];
        let high = byte >> 4;
        let low = byte & 0x0F;
        assert((byte >> 4) == byte / 16 && (byte & 0x0F) == byte % 16 && byte / 16 <= 15) by (bit_vector);
        push_char(&mut result, base_emoji);
        push_char(&mut result, nibble_to_variation(high));
        push_char(&mut result, base_emoji);
        push_char(&mut result, nibble_to_variation(low));
        proof {
            let prev = bytes@.subrange(0, i as int);
            let next = bytes@.subrange(0, i + 1);
            assert forall|j: int| 0 <= j < 4 * next.len() implies #[trigger] result@[j]
                == encoding(next, base_emoji)[j] by {
                if j < 4 * prev.len() {
                    assert(j / 4 < i);
                    assert(prev[j / 4] == next[j / 4]);
                } else {
                    assert(j / 4 == i);
                }
            }
            assert(result@ =~= encoding(next, base_emoji));
        }
        i = i + 1;
    }
    proof {
        assert(bytes@.subrange(0, i as int) =~= bytes@);
    }
    result
}

/// Reads the text hidden in `encoded`. Every character that is no selector
/// is ignored; the selectors pair up into bytes, which must be valid UTF-8.
pub fn decode(encoded: &str) -> (r: Result<String, DecodeError>)
    ensures
        match r {
            Ok(text) => selectors(encoded@).len() % 2 == 0 && valid_utf8(hidden_bytes(encoded@))
                && text@ == decode_utf8(hidden_bytes(encoded@)),
            Err(DecodeError::IncompleteNibbleSequence) => selectors(encoded@).len() % 2 == 1,
            Err(DecodeError::InvalidSelector) => false,
            Err(DecodeError::TextDecodingError { bytes }) => selectors(encoded@).len() % 2 == 0
                && !valid_utf8(hidden_bytes(encoded@)) && bytes@ == hidden_bytes(encoded@),
        },
{
    let sel = extract_selectors(encoded);
    if sel.len() % 2 != 0 {
        return Err(DecodeError::IncompleteNibbleSequence);
    }
    proof {
        broadcast use Seq::lemma_filter_pred;
        assert forall|j: int| 0 <= j < sel@.len() implies is_selector(#[trigger] sel@[j]) by {
            assert((|c: char| is_selector(c))(selectors(encoded@)[j]));
        }
    }
    let pairs = sel.len() / 2;
    let mut bytes: Vec<u8> = Vec::new();
    let mut i: usize = 0;
    while i < pairs
        invariant
            sel@ == selectors(encoded@),
            pairs == sel@.len() / 2,
            2 * pairs == sel@.len(),
            sel@.len() <= usize::MAX,
            sel@.len() % 2 == 0,
            forall|j: int| 0 <= j < sel@.len() ==> is_selector(#[trigger] sel@[j]),
            i <= pairs,
            bytes@ == paired_bytes(sel@).take(i as int),
        decreases pairs - i,
    {
        let high = match variation_to_nibble(sel[2 * i]) {
            Some(n) => n,
            None => return Err(DecodeError::InvalidSelector),
        };
        let low = match variation_to_nibble(sel[2 * i + 1]) {
            Some(n) => n,
            None => return Err(DecodeError::InvalidSelector),
        };
        assert(high <= 15 && low <= 15 ==> (high << 4) | low == high * 16 + low) by (bit_vector);
        bytes.push((high << 4) | low);
        proof {
            assert(bytes@ =~= paired_bytes(sel@).take(i + 1));
        }
        i = i + 1;
    }
    proof {
        assert(bytes@ =~= hidden_bytes(encoded@));
    }
    match string_from_utf8(bytes) {
        Ok(text) => Ok(text),
        Err(bytes) => Err(DecodeError::TextDecodingError { bytes }),
    }
}

} // verus!

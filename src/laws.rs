//! What holds of the codec as a whole: the round trip, the empty message,
//! and the indifference of decoding to every character that is no selector.

use vstd::prelude::*;
use vstd::utf8::{decode_utf8, encode_utf8, encode_utf8_decode_utf8, encode_utf8_valid_utf8, valid_utf8};
use crate::codec::{encoding, hidden_bytes, paired_bytes, selector_char, selectors};
use crate::nibble::{is_selector, nibble_of};

verus! {

/// The selectors that carry `bytes`, high nibble then low nibble of each.
pub open spec fn carried_selectors(bytes: Seq<u8>) -> Seq<char> {
    Seq::new(
        2 * bytes.len(),
        |i: int|
            if i % 2 == 0 {
                selector_char((bytes[i / 2] / 16) as u8)
            } else {
                selector_char((bytes[i / 2] % 16) as u8)
            },
    )
}

/// Selectors of `s` followed by `c`: those of `s`, then `c` if it is one.
pub proof fn lemma_selectors_push(s: Seq<char>, c: char)
    ensures
        selectors(s.push(c)) == if is_selector(c) {
            selectors(s).push(c)
        } else {
            selectors(s)
        },
{
    reveal(Seq::filter);
    assert(s.push(c).drop_last() =~= s);
}

/// With a carrier that is no selector, the selectors of an encoding are
/// exactly those that carry the bytes.
pub proof fn lemma_encoding_selectors(bytes: Seq<u8>, e: char)
    requires
        !is_selector(e),
    ensures
        selectors(encoding(bytes, e)) == carried_selectors(bytes),
    decreases bytes.len(),
{
    if bytes.len() == 0 {
        reveal(Seq::filter);
        assert(encoding(bytes, e) =~= Seq::<char>::empty());
        assert(carried_selectors(bytes) =~= Seq::<char>::empty());
    } else {
        let n = bytes.len() - 1;
        let prefix = bytes.drop_last();
        let x = bytes.last();
        let hi = selector_char((x / 16) as u8);
        let lo = selector_char((x % 16) as u8);
        lemma_encoding_selectors(prefix, e);
        let before = encoding(prefix, e);
        assert forall|j: int| 0 <= j < 4 * bytes.len() implies #[trigger] encoding(bytes, e)[j]
            == before.push(e).push(hi).push(e).push(lo)[j] by {
            if j < 4 * n {
                assert(j / 4 < n);
                assert(prefix[j / 4] == bytes[j / 4]);
            } else {
                assert(j / 4 == n);
            }
        }
        assert(encoding(bytes, e) =~= before.push(e).push(hi).push(e).push(lo));
        lemma_selectors_push(before, e);
        lemma_selectors_push(before.push(e), hi);
        lemma_selectors_push(before.push(e).push(hi), e);
        lemma_selectors_push(before.push(e).push(hi).push(e), lo);
        assert(is_selector(hi) && is_selector(lo));
        assert forall|j: int| 0 <= j < 2 * bytes.len() implies #[trigger] carried_selectors(bytes)[j]
            == carried_selectors(prefix).push(hi).push(lo)[j] by {
            if j < 2 * n {
                assert(j / 2 < n);
                assert(prefix[j / 2] == bytes[j / 2]);
            } else {
                assert(j / 2 == n);
            }
        }
        assert(carried_selectors(bytes) =~= carried_selectors(prefix).push(hi).push(lo));
    }
}

/// Whatever the bytes, and whatever carrier that is no selector, decoding
/// their encoding finds two selectors per byte and gives the bytes back.
pub proof fn lemma_round_trip_bytes(bytes: Seq<u8>, e: char)
    requires
        !is_selector(e),
    ensures
        selectors(encoding(bytes, e)).len() == 2 * bytes.len(),
        hidden_bytes(encoding(bytes, e)) == bytes,
{
    lemma_encoding_selectors(bytes, e);
    let sel = carried_selectors(bytes);
    assert forall|i: int| 0 <= i < bytes.len() implies #[trigger] paired_bytes(sel)[i] == bytes[i] by {
        assert((2 * i) / 2 == i && (2 * i + 1) / 2 == i && (2 * i) % 2 == 0 && (2 * i + 1) % 2 == 1);
        let h = (bytes[i] / 16) as u8;
        let l = (bytes[i] % 16) as u8;
        assert(nibble_of(selector_char(h)) == h);
        assert(nibble_of(selector_char(l)) == l);
    }
    assert(paired_bytes(sel) =~= bytes);
}

/// Text encoded behind any carrier that is no selector decodes to the same
/// text.
pub proof fn lemma_round_trip(text: Seq<char>, e: char)
    requires
        !is_selector(e),
    ensures
        selectors(encoding(encode_utf8(text), e)).len() % 2 == 0,
        valid_utf8(hidden_bytes(encoding(encode_utf8(text), e))),
        decode_utf8(hidden_bytes(encoding(encode_utf8(text), e))) == text,
{
    lemma_round_trip_bytes(encode_utf8(text), e);
    encode_utf8_valid_utf8(text);
    encode_utf8_decode_utf8(text);
}

/// The empty message encodes to the empty text, and the empty text decodes,
/// with no selector, to the empty message.
pub proof fn lemma_empty(e: char)
    ensures
        encoding(Seq::empty(), e) == Seq::<char>::empty(),
        selectors(Seq::empty()).len() == 0,
        hidden_bytes(Seq::empty()) == Seq::<u8>::empty(),
        valid_utf8(Seq::empty()),
        decode_utf8(Seq::empty()) == Seq::<char>::empty(),
{
    reveal(Seq::filter);
    assert(encoding(Seq::empty(), e) =~= Seq::<char>::empty());
    assert(hidden_bytes(Seq::empty()) =~= Seq::<u8>::empty());
}

/// Dropping every character that is no selector changes neither the
/// selectors of a text nor the bytes it hides.
pub proof fn lemma_strip_extraneous(s: Seq<char>)
    ensures
        selectors(selectors(s)) == selectors(s),
        hidden_bytes(selectors(s)) == hidden_bytes(s),
    decreases s.len(),
{
    if s.len() == 0 {
        reveal(Seq::filter);
    } else {
        let prefix = s.drop_last();
        let c = s.last();
        assert(prefix.push(c) =~= s);
        lemma_strip_extraneous(prefix);
        lemma_selectors_push(prefix, c);
        if is_selector(c) {
            lemma_selectors_push(selectors(prefix), c);
        }
    }
}

} // verus!

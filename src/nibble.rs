//! The bijection between nibbles (0 to 15) and the variation selectors
//! U+FE00 to U+FE0F.

use vstd::prelude::*;
use vstd::utf8::is_scalar;

verus! {

/// Code point of the selector that carries nibble 0.
pub const SELECTOR_BASE: u32 = 0xFE00;

/// Code point of the selector that carries nibble 15.
pub const SELECTOR_LAST: u32 = 0xFE0F;

/// A character that carries a nibble.
pub open spec fn is_selector(c: char) -> bool {
    SELECTOR_BASE <= c as u32 <= SELECTOR_LAST
}

/// The code point of the selector that carries nibble `n`.
pub open spec fn selector_code(n: u8) -> u32 {
    (SELECTOR_BASE + n) as u32
}

/// The nibble that selector `c` carries.
pub open spec fn nibble_of(c: char) -> u8 {
    (c as u32 - SELECTOR_BASE) as u8
}

/// Relies on `char::from_u32`: `Some` of the character with that code point
/// exactly when the code point is a Unicode scalar value.
#[verifier::external_body]
fn char_from_code(code: u32) -> (r: Option<char>)
    ensures
        r is Some <==> is_scalar(code),
        r matches Some(c) ==> c as u32 == code,
{
    char::from_u32(code)
}

/// The variation selector that carries `nibble`.
pub fn nibble_to_variation(nibble: u8) -> (r: char)
    requires
        nibble <= 15,
    ensures
        r as u32 == selector_code(nibble),
        is_selector(r),
        nibble_of(r) == nibble,
{
    match char_from_code(SELECTOR_BASE + nibble as u32) {
        Some(c) => c,
        None => {
            proof {
                assert(false);
            }
            '\u{FE00}'
        },
    }
}

/// The nibble that `vs` carries, or `None` when `vs` is no variation selector
/// of the block U+FE00 to U+FE0F.
pub fn variation_to_nibble(vs: char) -> (r: Option<u8>)
    ensures
        r is Some <==> is_selector(vs),
        r matches Some(n) ==> n <= 15 && n == nibble_of(vs) && selector_code(n) == vs as u32,
{
    let code = vs as u32;
    if SELECTOR_BASE <= code && code <= SELECTOR_LAST {
        Some((code - SELECTOR_BASE) as u8)
    } else {
        None
    }
}

} // verus!

//! Hides a byte string in emoji text: every byte becomes two invisible
//! variation selectors, each attached after a visible base emoji.

pub mod nibble;
pub mod codec;
pub mod laws;

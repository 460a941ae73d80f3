//! An Ascii85 (base-85) binary-to-text codec.
//!
//! The encoder turns an arbitrary byte sequence into printable characters
//! drawn from the range `'!'..='u'` (code points 33 through 117); the
//! decoder inverts it bit-exactly. Both directions are verified: the
//! encoder's output is pinned down character by character, the decoder's
//! output byte by byte, and `laws` proves the round-trip, character-range
//! and length properties from those contracts.

pub mod codec;
pub mod laws;

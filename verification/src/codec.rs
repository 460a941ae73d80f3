//! The two codec operations and the specification functions that pin
//! their results down.
//!
//! Encoding packs each group of 4 input bytes into a 32-bit word
//! (most significant byte first), writes the word as 5 base-85 digits
//! (most significant digit first), and shifts each digit into the
//! printable range by adding 33. A short final group is completed with
//! zero bytes, and the characters that only encoded that filler are cut
//! from the end of the output.
//!
//! Decoding subtracts 33 from each character, completes a short final
//! group with the maximum digit 84, reassembles each 5-digit group into
//! a 32-bit word (wrapping modulo 2^32 if a malformed group exceeds the
//! 32-bit range), splits the word into 4 bytes, and cuts as many bytes
//! from the end as digits were added. A character outside the range
//! `[33, 117]` is rejected with an explicit error.

use vstd::prelude::*;

verus! {

/// A legal Ascii85 code character: its code point lies in the printable
/// range `'!'..='u'` (33 through 117).
pub open spec fn valid_char(c: u8) -> bool {
    33 <= c <= 117
}

/// Every character of `s` lies in the Ascii85 range.
pub open spec fn all_valid(s: Seq<u8>) -> bool {
    forall|i: int| 0 <= i < s.len() ==> valid_char(#[trigger] s[i])
}

/// How many zero bytes complete the last 4-byte group of an `n`-byte input.
pub open spec fn enc_pad(n: int) -> int {
    (4 - n % 4) % 4
}

/// Byte `i` of the zero-completed input: the real bytes, then zero filler.
pub open spec fn group_byte(b: Seq<u8>, i: int) -> u8 {
    if 0 <= i < b.len() {
        b[i]
    } else {
        0
    }
}

/// The 32-bit word formed from group `g` of the zero-completed input,
/// most significant byte first.
pub open spec fn word_of(b: Seq<u8>, g: int) -> int {
    group_byte(b, 4 * g) * 0x100_0000 + group_byte(b, 4 * g + 1) * 0x1_0000
        + group_byte(b, 4 * g + 2) * 0x100 + group_byte(b, 4 * g + 3)
}

/// Character `j` (most significant digit first) of the 5-character
/// encoding of word `w`: base-85 digit `j`, shifted by 33.
pub open spec fn enc_char(w: int, j: int) -> u8 {
    let p: int = if j == 0 {
        52200625
    } else if j == 1 {
        614125
    } else if j == 2 {
        7225
    } else if j == 3 {
        85
    } else {
        1
    };
    ((w / p) % 85 + 33) as u8
}

/// Length of the encoding of an `n`-byte input: five characters per
/// 4-byte group, less the characters that only encoded zero filler.
pub open spec fn encode_len(n: int) -> int {
    if n == 0 {
        0
    } else {
        5 * ((n + enc_pad(n)) / 4) - enc_pad(n)
    }
}

/// The Ascii85 encoding of `b`.
pub open spec fn encode_spec(b: Seq<u8>) -> Seq<u8> {
    Seq::new(encode_len(b.len() as int) as nat, |i: int| enc_char(word_of(b, i / 5), i % 5))
}

/// Encode an arbitrary byte sequence as Ascii85 text, returned as the
/// byte values of the output characters.
pub fn ascii85_encode(bytes: &Vec<u8>) -> (r: Vec<u8>)
    ensures
        r@ == encode_spec(bytes@),
{
    let n: usize = bytes.len();
    let pad: usize = (4 - n % 4) % 4;
    let groups: usize = n / 4 + if n % 4 == 0 { 0 } else { 1 };
    assert(groups * 4 == n + pad);
    let mut out: Vec<u8> = Vec::new();
    for g in 0..groups
        invariant
            n == bytes@.len(),
            pad == enc_pad(n as int),
            pad <= 3,
            groups * 4 == n + pad,
            out@.len() == 5 * g,
            forall|i: int|
                0 <= i < out@.len() ==> out@[i] == enc_char(word_of(bytes@, i / 5), i % 5),
    {
        let base: usize = 4 * g;
        assert(base + 4 <= n + pad);
        let rem: usize = n - base;
        let b0: u8 = bytes[base];
        let b1: u8 = if rem > 1 { bytes[base + 1] } else { 0 };
        let b2: u8 = if rem > 2 { bytes[base + 2] } else { 0 };
        let b3: u8 = if rem > 3 { bytes[base + 3] } else { 0 };
        let w: u32 = (b0 as u32) * 0x100_0000 + (b1 as u32) * 0x1_0000 + (b2 as u32) * 0x100
            + (b3 as u32);
        proof {
            assert(w == word_of(bytes@, g as int));
        }
        let c0: u8 = ((w / 52200625) % 85 + 33) as u8;
        let c1: u8 = ((w / 614125) % 85 + 33) as u8;
        let c2: u8 = ((w / 7225) % 85 + 33) as u8;
        let c3: u8 = ((w / 85) % 85 + 33) as u8;
        let c4: u8 = (w % 85 + 33) as u8;
        out.push(c0);
        out.push(c1);
        out.push(c2);
        out.push(c3);
        out.push(c4);
        proof {
            assert forall|i: int|
                0 <= i < out@.len() implies out@[i] == enc_char(
                word_of(bytes@, i / 5),
                i % 5,
            ) by {
                if i >= 5 * g {
                    let k = i - 5 * (g as int);
                    vstd::arithmetic::div_mod::lemma_fundamental_div_mod_converse(
                        i,
                        5,
                        g as int,
                        k,
                    );
                }
            }
        }
    }
    let total: usize = out.len();
    out.truncate(total - pad);
    proof {
        assert(out@ =~= encode_spec(bytes@));
    }
    out
}

/// Why a decode was refused.
#[derive(Clone, Copy, Debug, PartialEq, Eq, Structural)]
pub enum DecodeError {
    /// The input held a character outside the Ascii85 range `[33, 117]`.
    InvalidCharacter,
}

/// How many maximum digits (84) complete the last 5-digit group of an
/// `m`-character input.
pub open spec fn dec_pad(m: int) -> int {
    (5 - m % 5) % 5
}

/// Digit `i` of the completed digit sequence: the real characters less
/// 33, then filler digits of 84.
pub open spec fn dec_digit(s: Seq<u8>, i: int) -> int {
    if 0 <= i < s.len() {
        s[i] - 33
    } else {
        84
    }
}

/// The base-85 value of digit group `g`, most significant digit first.
pub open spec fn group_val(s: Seq<u8>, g: int) -> int {
    dec_digit(s, 5 * g) * 52200625 + dec_digit(s, 5 * g + 1) * 614125
        + dec_digit(s, 5 * g + 2) * 7225 + dec_digit(s, 5 * g + 3) * 85 + dec_digit(s, 5 * g + 4)
}

/// The 32-bit word that digit group `g` decodes to. A malformed group
/// whose value exceeds the 32-bit range wraps modulo 2^32.
pub open spec fn dec_word(s: Seq<u8>, g: int) -> int {
    group_val(s, g) % 0x1_0000_0000
}

/// Byte `i` of the decoded output: byte `i % 4` (most significant
/// first) of the word that group `i / 4` decodes to.
pub open spec fn dec_byte(s: Seq<u8>, i: int) -> u8 {
    let q: int = if i % 4 == 0 {
        0x100_0000
    } else if i % 4 == 1 {
        0x1_0000
    } else if i % 4 == 2 {
        0x100
    } else {
        1
    };
    ((dec_word(s, i / 4) / q) % 256) as u8
}

/// Length of the decoding of an `m`-character input: four bytes per
/// 5-digit group, less the bytes that only decoded filler digits.
pub open spec fn decode_len(m: int) -> int {
    4 * ((m + dec_pad(m)) / 5) - dec_pad(m)
}

/// The Ascii85 decoding of `s`, defined for inputs whose characters all
/// lie in the range `[33, 117]`.
pub open spec fn decode_spec(s: Seq<u8>) -> Seq<u8> {
    Seq::new(decode_len(s.len() as int) as nat, |i: int| dec_byte(s, i))
}

/// Decode Ascii85 text, given as the byte values of its characters,
/// back into the byte sequence it encodes.
///
/// Succeeds exactly when every input character lies in the range
/// `[33, 117]`; a character outside that range is reported as
/// `DecodeError::InvalidCharacter`. A malformed 5-digit group whose
/// base-85 value exceeds the 32-bit range wraps silently modulo 2^32,
/// as `dec_word` states.
pub fn ascii85_decode(chars: &Vec<u8>) -> (r: Result<Vec<u8>, DecodeError>)
    ensures
        r is Ok <==> all_valid(chars@),
        r matches Ok(bytes) ==> bytes@ == decode_spec(chars@),
        r matches Err(e) ==> e == DecodeError::InvalidCharacter,
{
    let m: usize = chars.len();
    for i in 0..m
        invariant
            m == chars@.len(),
            forall|j: int| 0 <= j < i ==> valid_char(#[trigger] chars@[j]),
    {
        let c: u8 = chars[i];
        if c < 33 || c > 117 {
            proof {
                assert(!valid_char(chars@[i as int]));
            }
            return Err(DecodeError::InvalidCharacter);
        }
    }
    let pad: usize = (5 - m % 5) % 5;
    let groups: usize = m / 5 + if m % 5 == 0 { 0 } else { 1 };
    assert(groups * 5 == m + pad);
    let mut out: Vec<u8> = Vec::new();
    for g in 0..groups
        invariant
            m == chars@.len(),
            all_valid(chars@),
            pad == dec_pad(m as int),
            pad <= 4,
            groups * 5 == m + pad,
            out@.len() == 4 * g,
            forall|i: int| 0 <= i < out@.len() ==> out@[i] == dec_byte(chars@, i),
    {
        let base: usize = 5 * g;
        assert(base + 5 <= m + pad);
        let rem: usize = m - base;
        assert(valid_char(chars@[base as int]));
        let d0: u64 = (chars[base] - 33) as u64;
        let d1: u64 = if rem > 1 { (chars[base + 1] - 33) as u64 } else { 84 };
        let d2: u64 = if rem > 2 { (chars[base + 2] - 33) as u64 } else { 84 };
        let d3: u64 = if rem > 3 { (chars[base + 3] - 33) as u64 } else { 84 };
        let d4: u64 = if rem > 4 { (chars[base + 4] - 33) as u64 } else { 84 };
        let val: u64 = (((d0 * 85 + d1) * 85 + d2) * 85 + d3) * 85 + d4;
        proof {
            assert(val == group_val(chars@, g as int));
        }
        let w: u32 = (val % 0x1_0000_0000) as u32;
        proof {
            assert(w == dec_word(chars@, g as int));
        }
        out.push(((w / 0x100_0000) % 256) as u8);
        out.push(((w / 0x1_0000) % 256) as u8);
        out.push(((w / 0x100) % 256) as u8);
        out.push((w % 256) as u8);
        proof {
            assert forall|i: int| 0 <= i < out@.len() implies out@[i] == dec_byte(chars@, i) by {
                if i >= 4 * g {
                    let k = i - 4 * (g as int);
                    vstd::arithmetic::div_mod::lemma_fundamental_div_mod_converse(
                        i,
                        4,
                        g as int,
                        k,
                    );
                }
            }
        }
    }
    let total: usize = out.len();
    out.truncate(total - pad);
    proof {
        assert(out@ =~= decode_spec(chars@));
    }
    Ok(out)
}

} // verus!

//! Proved laws of the codec: the round-trip law, the character-range
//! invariant, and the length formula.

use vstd::prelude::*;
use vstd::arithmetic::div_mod::lemma_basic_div;
use vstd::arithmetic::div_mod::lemma_div_denominator;
use vstd::arithmetic::div_mod::lemma_fundamental_div_mod;
use vstd::arithmetic::div_mod::lemma_fundamental_div_mod_converse;
use vstd::arithmetic::div_mod::lemma_multiply_divide_lt;
use vstd::arithmetic::div_mod::lemma_small_mod;
use crate::codec::all_valid;
use crate::codec::dec_byte;
use crate::codec::dec_digit;
use crate::codec::dec_pad;
use crate::codec::dec_word;
use crate::codec::decode_len;
use crate::codec::decode_spec;
use crate::codec::enc_char;
use crate::codec::enc_pad;
use crate::codec::encode_len;
use crate::codec::encode_spec;
use crate::codec::group_byte;
use crate::codec::group_val;
use crate::codec::valid_char;
use crate::codec::word_of;

verus! {

/// Every character of an encoding lies in the Ascii85 range `[33, 117]`.
pub proof fn lemma_encode_char_range(b: Seq<u8>)
    ensures
        all_valid(encode_spec(b)),
{
    assert forall|i: int| 0 <= i < encode_spec(b).len() implies valid_char(
        #[trigger] encode_spec(b)[i],
    ) by {
        let w = word_of(b, i / 5);
        assert(w >= 0);
    }
}

/// The encoding of `b` is empty exactly when `b` is, and otherwise has
/// five characters for each started 4-byte group, less the pad count.
pub proof fn lemma_encode_len(b: Seq<u8>)
    ensures
        (encode_spec(b).len() == 0) <==> (b.len() == 0),
        b.len() > 0 ==> encode_spec(b).len() == 5 * ((b.len() + 3) / 4) - (4 - b.len() % 4) % 4,
{
    let n = b.len() as int;
    if n > 0 {
        lemma_fundamental_div_mod(n, 4);
        let q = n / 4;
        let r = n % 4;
        if r == 0 {
            lemma_fundamental_div_mod_converse(n + 3, 4, q, 3);
            lemma_fundamental_div_mod_converse(n + 0, 4, q, 0);
        } else {
            lemma_fundamental_div_mod_converse(n + 3, 4, q + 1, r - 1);
            lemma_fundamental_div_mod_converse(n + (4 - r), 4, q + 1, 0);
        }
        assert(encode_len(n) >= 5 - enc_pad(n));
    }
}

/// A word below 2^32 is the base-85 sum of its five digits, and its most
/// significant digit is already below 85.
proof fn lemma_digit_sum(w: int)
    requires
        0 <= w < 0x1_0000_0000,
    ensures
        w == ((w / 52200625) % 85) * 52200625 + ((w / 614125) % 85) * 614125 + ((w / 7225) % 85)
            * 7225 + ((w / 85) % 85) * 85 + w % 85,
        (w / 52200625) % 85 == w / 52200625,
{
    lemma_fundamental_div_mod(w, 85);
    lemma_div_denominator(w, 85, 85);
    lemma_fundamental_div_mod(w / 85, 85);
    lemma_div_denominator(w, 7225, 85);
    lemma_fundamental_div_mod(w / 7225, 85);
    lemma_div_denominator(w, 614125, 85);
    lemma_fundamental_div_mod(w / 614125, 85);
    lemma_div_denominator(w, 52200625, 85);
    lemma_fundamental_div_mod(w / 52200625, 85);
    lemma_basic_div(w, 4437053125);
    assert((w / 52200625) < 85) by {
        lemma_multiply_divide_lt(w, 52200625, 85);
    }
    lemma_small_mod((w / 52200625) as nat, 85);
}

/// Splitting a word built from four bytes recovers each byte.
proof fn lemma_byte_split(w: int, b0: int, b1: int, b2: int, b3: int)
    requires
        0 <= b0 < 256,
        0 <= b1 < 256,
        0 <= b2 < 256,
        0 <= b3 < 256,
        w == b0 * 0x100_0000 + b1 * 0x1_0000 + b2 * 0x100 + b3,
    ensures
        (w / 0x100_0000) % 256 == b0,
        (w / 0x1_0000) % 256 == b1,
        (w / 0x100) % 256 == b2,
        w % 256 == b3,
{
    lemma_fundamental_div_mod_converse(w, 0x100_0000, b0, b1 * 0x1_0000 + b2 * 0x100 + b3);
    lemma_fundamental_div_mod_converse(w, 0x1_0000, b0 * 256 + b1, b2 * 0x100 + b3);
    lemma_fundamental_div_mod_converse(w, 0x100, b0 * 0x1_0000 + b1 * 256 + b2, b3);
    lemma_fundamental_div_mod_converse(b0 * 0x1_0000 + b1 * 256 + b2, 256, b0 * 256 + b1, b2);
    lemma_fundamental_div_mod_converse(b0 * 256 + b1, 256, b0, b1);
    lemma_small_mod(b0 as nat, 256);
}

/// Relates the lengths on the two sides: the group count, the pad count
/// and the encoded length of a nonempty input.
proof fn lemma_sizes(b: Seq<u8>)
    requires
        b.len() > 0,
    ensures
        4 * ((b.len() + enc_pad(b.len() as int)) / 4) == b.len() + enc_pad(b.len() as int),
        encode_spec(b).len() == 5 * ((b.len() + enc_pad(b.len() as int)) / 4) - enc_pad(
            b.len() as int,
        ),
        b.len() % 4 == 0 ==> enc_pad(b.len() as int) == 0,
        b.len() % 4 != 0 ==> enc_pad(b.len() as int) == 4 - b.len() % 4,
{
    let n = b.len() as int;
    lemma_fundamental_div_mod(n, 4);
    let q = n / 4;
    let r = n % 4;
    if r == 0 {
        lemma_fundamental_div_mod_converse(n, 4, q, 0);
    } else {
        lemma_fundamental_div_mod_converse(n + (4 - r), 4, q + 1, 0);
    }
    assert(encode_len(n) >= 0);
}

/// The first `c` characters of encoded group `g` carry the leading
/// base-85 digits of that group's word.
proof fn lemma_group_digits(b: Seq<u8>, g: int, c: int)
    requires
        0 <= g,
        1 <= c <= 5,
        5 * g + c <= encode_spec(b).len(),
    ensures
        dec_digit(encode_spec(b), 5 * g) == (word_of(b, g) / 52200625) % 85,
        c >= 2 ==> dec_digit(encode_spec(b), 5 * g + 1) == (word_of(b, g) / 614125) % 85,
        c >= 3 ==> dec_digit(encode_spec(b), 5 * g + 2) == (word_of(b, g) / 7225) % 85,
        c >= 4 ==> dec_digit(encode_spec(b), 5 * g + 3) == (word_of(b, g) / 85) % 85,
        c >= 5 ==> dec_digit(encode_spec(b), 5 * g + 4) == word_of(b, g) % 85,
{
    let e = encode_spec(b);
    let w = word_of(b, g);
    assert(w >= 0);
    lemma_fundamental_div_mod_converse(5 * g, 5, g, 0);
    assert(e[5 * g] == enc_char(w, 0));
    if c >= 2 {
        lemma_fundamental_div_mod_converse(5 * g + 1, 5, g, 1);
        assert(e[5 * g + 1] == enc_char(w, 1));
    }
    if c >= 3 {
        lemma_fundamental_div_mod_converse(5 * g + 2, 5, g, 2);
        assert(e[5 * g + 2] == enc_char(w, 2));
    }
    if c >= 4 {
        lemma_fundamental_div_mod_converse(5 * g + 3, 5, g, 3);
        assert(e[5 * g + 3] == enc_char(w, 3));
    }
    if c >= 5 {
        lemma_fundamental_div_mod_converse(5 * g + 4, 5, g, 4);
        assert(e[5 * g + 4] == enc_char(w, 4));
    }
}

/// A value made of one leading byte plus less than one unit of that
/// byte's position stays below 2^32 and keeps the byte.
proof fn lemma_tail_one(b0: int, delta: int)
    requires
        0 <= b0 < 256,
        0 <= delta < 0x100_0000,
    ensures
        0 <= b0 * 0x100_0000 + delta < 0x1_0000_0000,
        ((b0 * 0x100_0000 + delta) / 0x100_0000) % 256 == b0,
{
    let v = b0 * 0x100_0000 + delta;
    lemma_fundamental_div_mod_converse(v, 0x100_0000, b0, delta);
    lemma_small_mod(b0 as nat, 256);
}

/// As `lemma_tail_one`, for two leading bytes.
proof fn lemma_tail_two(b0: int, b1: int, delta: int)
    requires
        0 <= b0 < 256,
        0 <= b1 < 256,
        0 <= delta < 0x1_0000,
    ensures
        0 <= b0 * 0x100_0000 + b1 * 0x1_0000 + delta < 0x1_0000_0000,
        ((b0 * 0x100_0000 + b1 * 0x1_0000 + delta) / 0x100_0000) % 256 == b0,
        ((b0 * 0x100_0000 + b1 * 0x1_0000 + delta) / 0x1_0000) % 256 == b1,
{
    let x = b0 * 256 + b1;
    let v = b0 * 0x100_0000 + b1 * 0x1_0000 + delta;
    lemma_fundamental_div_mod_converse(v, 0x1_0000, x, delta);
    lemma_fundamental_div_mod_converse(x, 256, b0, b1);
    lemma_div_denominator(v, 0x1_0000, 256);
    lemma_small_mod(b0 as nat, 256);
}

/// As `lemma_tail_one`, for three leading bytes.
proof fn lemma_tail_three(b0: int, b1: int, b2: int, delta: int)
    requires
        0 <= b0 < 256,
        0 <= b1 < 256,
        0 <= b2 < 256,
        0 <= delta < 0x100,
    ensures
        0 <= b0 * 0x100_0000 + b1 * 0x1_0000 + b2 * 0x100 + delta < 0x1_0000_0000,
        ((b0 * 0x100_0000 + b1 * 0x1_0000 + b2 * 0x100 + delta) / 0x100_0000) % 256 == b0,
        ((b0 * 0x100_0000 + b1 * 0x1_0000 + b2 * 0x100 + delta) / 0x1_0000) % 256 == b1,
        ((b0 * 0x100_0000 + b1 * 0x1_0000 + b2 * 0x100 + delta) / 0x100) % 256 == b2,
{
    let x = b0 * 0x1_0000 + b1 * 256 + b2;
    let v = b0 * 0x100_0000 + b1 * 0x1_0000 + b2 * 0x100 + delta;
    lemma_fundamental_div_mod_converse(v, 0x100, x, delta);
    lemma_fundamental_div_mod_converse(x, 256, b0 * 256 + b1, b2);
    lemma_fundamental_div_mod_converse(b0 * 256 + b1, 256, b0, b1);
    lemma_div_denominator(v, 0x100, 256);
    lemma_div_denominator(v, 0x100, 0x1_0000);
    lemma_small_mod(b0 as nat, 256);
}

/// A group made of four real input bytes decodes back to those bytes.
#[verifier::rlimit(50)]
proof fn lemma_full_group(b: Seq<u8>, g: int)
    requires
        0 <= g,
        4 * g + 4 <= b.len(),
    ensures
        forall|j: int|
            0 <= j < 4 ==> #[trigger] dec_byte(encode_spec(b), 4 * g + j) == b[4 * g + j],
{
    let n = b.len() as int;
    let pad = enc_pad(n);
    let e = encode_spec(b);
    let m = e.len() as int;
    lemma_sizes(b);
    let gr = (n + pad) / 4;
    assert(m == 5 * gr - pad);
    assert(pad <= 3);
    // the group with pad > 0 is the last one; a full group either has
    // pad == 0 or is not the last, so all five of its characters are real
    assert(5 * g + 5 <= m) by {
        if pad != 0 {
            assert(4 * g + 4 <= 4 * gr - pad);
            assert(4 * (g + 1) <= 4 * gr - 1);
            assert(g + 1 <= gr - 1 || 4 * (g + 1) > 4 * (gr - 1));
            assert(g + 2 <= gr);
            assert(5 * g + 10 <= 5 * gr);
        }
    }
    let w = word_of(b, g);
    assert(0 <= w < 0x1_0000_0000);
    lemma_group_digits(b, g, 5);
    assert(group_val(e, g) == w) by {
        lemma_digit_sum(w);
    }
    assert(dec_word(e, g) == w);
    let b0 = b[4 * g] as int;
    let b1 = b[4 * g + 1] as int;
    let b2 = b[4 * g + 2] as int;
    let b3 = b[4 * g + 3] as int;
    assert(w == b0 * 0x100_0000 + b1 * 0x1_0000 + b2 * 0x100 + b3);
    lemma_byte_split(w, b0, b1, b2, b3);
    lemma_fundamental_div_mod_converse(4 * g, 4, g, 0);
    lemma_fundamental_div_mod_converse(4 * g + 1, 4, g, 1);
    lemma_fundamental_div_mod_converse(4 * g + 2, 4, g, 2);
    lemma_fundamental_div_mod_converse(4 * g + 3, 4, g, 3);
    assert(dec_byte(e, 4 * g + 0) == b[4 * g + 0]);
    assert(dec_byte(e, 4 * g + 1) == b[4 * g + 1]);
    assert(dec_byte(e, 4 * g + 2) == b[4 * g + 2]);
    assert(dec_byte(e, 4 * g + 3) == b[4 * g + 3]);
}

/// A final group holding one real byte decodes back to that byte: the
/// three filler digits of 84 can raise the group's value by less than
/// one unit of the byte's position.
#[verifier::rlimit(50)]
proof fn lemma_last_group_one(b: Seq<u8>)
    requires
        b.len() % 4 == 1,
    ensures
        dec_byte(encode_spec(b), 4 * (b.len() as int / 4)) == b[4 * (b.len() as int / 4)],
{
    let n = b.len() as int;
    let g = n / 4;
    let e = encode_spec(b);
    let m = e.len() as int;
    lemma_sizes(b);
    lemma_fundamental_div_mod(n, 4);
    lemma_fundamental_div_mod_converse(n + 3, 4, g + 1, 0);
    assert(m == 5 * g + 2);
    let w = word_of(b, g);
    let b0 = b[4 * g] as int;
    assert(group_byte(b, 4 * g + 1) == 0);
    assert(w == b0 * 0x100_0000);
    lemma_group_digits(b, g, 2);
    assert(dec_digit(e, 5 * g + 2) == 84);
    assert(dec_digit(e, 5 * g + 3) == 84);
    assert(dec_digit(e, 5 * g + 4) == 84);
    let v = group_val(e, g);
    let delta = v - w;
    assert(0 <= delta < 0x100_0000) by {
        lemma_digit_sum(w);
    }
    lemma_tail_one(b0, delta);
    assert(dec_word(e, g) == v);
    lemma_fundamental_div_mod_converse(4 * g, 4, g, 0);
    assert(dec_byte(e, 4 * g) == b[4 * g]);
}

/// A final group holding two real bytes decodes back to those bytes.
#[verifier::rlimit(50)]
proof fn lemma_last_group_two(b: Seq<u8>)
    requires
        b.len() % 4 == 2,
    ensures
        dec_byte(encode_spec(b), 4 * (b.len() as int / 4)) == b[4 * (b.len() as int / 4)],
        dec_byte(encode_spec(b), 4 * (b.len() as int / 4) + 1) == b[4 * (b.len() as int / 4) + 1],
{
    let n = b.len() as int;
    let g = n / 4;
    let e = encode_spec(b);
    let m = e.len() as int;
    lemma_sizes(b);
    lemma_fundamental_div_mod(n, 4);
    lemma_fundamental_div_mod_converse(n + 2, 4, g + 1, 0);
    assert(m == 5 * g + 3);
    let w = word_of(b, g);
    let b0 = b[4 * g] as int;
    let b1 = b[4 * g + 1] as int;
    assert(group_byte(b, 4 * g + 2) == 0);
    assert(w == b0 * 0x100_0000 + b1 * 0x1_0000);
    lemma_group_digits(b, g, 3);
    assert(dec_digit(e, 5 * g + 3) == 84);
    assert(dec_digit(e, 5 * g + 4) == 84);
    let v = group_val(e, g);
    let delta = v - w;
    assert(0 <= delta < 0x1_0000) by {
        lemma_digit_sum(w);
    }
    lemma_tail_two(b0, b1, delta);
    assert(dec_word(e, g) == v);
    lemma_fundamental_div_mod_converse(4 * g, 4, g, 0);
    lemma_fundamental_div_mod_converse(4 * g + 1, 4, g, 1);
    assert(dec_byte(e, 4 * g) == b[4 * g]);
    assert(dec_byte(e, 4 * g + 1) == b[4 * g + 1]);
}

/// A final group holding three real bytes decodes back to those bytes.
#[verifier::rlimit(50)]
proof fn lemma_last_group_three(b: Seq<u8>)
    requires
        b.len() % 4 == 3,
    ensures
        dec_byte(encode_spec(b), 4 * (b.len() as int / 4)) == b[4 * (b.len() as int / 4)],
        dec_byte(encode_spec(b), 4 * (b.len() as int / 4) + 1) == b[4 * (b.len() as int / 4) + 1],
        dec_byte(encode_spec(b), 4 * (b.len() as int / 4) + 2) == b[4 * (b.len() as int / 4) + 2],
{
    let n = b.len() as int;
    let g = n / 4;
    let e = encode_spec(b);
    let m = e.len() as int;
    lemma_sizes(b);
    lemma_fundamental_div_mod(n, 4);
    lemma_fundamental_div_mod_converse(n + 1, 4, g + 1, 0);
    assert(m == 5 * g + 4);
    let w = word_of(b, g);
    let b0 = b[4 * g] as int;
    let b1 = b[4 * g + 1] as int;
    let b2 = b[4 * g + 2] as int;
    assert(group_byte(b, 4 * g + 3) == 0);
    assert(w == b0 * 0x100_0000 + b1 * 0x1_0000 + b2 * 0x100);
    lemma_group_digits(b, g, 4);
    assert(dec_digit(e, 5 * g + 4) == 84);
    let v = group_val(e, g);
    let delta = v - w;
    assert(0 <= delta < 0x100) by {
        lemma_digit_sum(w);
    }
    lemma_tail_three(b0, b1, b2, delta);
    assert(dec_word(e, g) == v);
    lemma_fundamental_div_mod_converse(4 * g, 4, g, 0);
    lemma_fundamental_div_mod_converse(4 * g + 1, 4, g, 1);
    lemma_fundamental_div_mod_converse(4 * g + 2, 4, g, 2);
    assert(dec_byte(e, 4 * g) == b[4 * g]);
    assert(dec_byte(e, 4 * g + 1) == b[4 * g + 1]);
    assert(dec_byte(e, 4 * g + 2) == b[4 * g + 2]);
}

/// The round-trip law: decoding an encoding gives the input back, for
/// every byte sequence.
pub proof fn lemma_round_trip(b: Seq<u8>)
    ensures
        decode_spec(encode_spec(b)) == b,
{
    let e = encode_spec(b);
    let n = b.len() as int;
    if n == 0 {
        assert(decode_spec(e) =~= b);
    } else {
        lemma_sizes(b);
        let pad = enc_pad(n);
        let m = e.len() as int;
        let gr = (n + pad) / 4;
        assert(m == 5 * gr - pad);
        assert(4 * gr == n + pad);
        // the decoder's pad count equals the encoder's
        if pad == 0 {
            lemma_fundamental_div_mod_converse(m, 5, gr, 0);
        } else {
            lemma_fundamental_div_mod_converse(m, 5, gr - 1, 5 - pad);
        }
        assert(dec_pad(m) == pad);
        lemma_fundamental_div_mod_converse(m + pad, 5, gr, 0);
        assert(decode_len(m) == 4 * gr - pad);
        assert(decode_len(m) == n);
        assert(decode_spec(e).len() == n);
        assert forall|i: int| 0 <= i < n implies decode_spec(e)[i] == b[i] by {
            lemma_fundamental_div_mod(i, 4);
            let g = i / 4;
            let j = i % 4;
            if 4 * g + 4 <= n {
                lemma_full_group(b, g);
            } else {
                lemma_fundamental_div_mod_converse(n, 4, g, n - 4 * g);
                if n % 4 == 1 {
                    lemma_last_group_one(b);
                } else if n % 4 == 2 {
                    lemma_last_group_two(b);
                } else {
                    lemma_last_group_three(b);
                }
            }
            assert(decode_spec(e)[i] == dec_byte(e, i));
        }
        assert(decode_spec(e) =~= b);
    }
}

} // verus!

//! Raw binary payloads and their Z85 text encoding.
//!
//! A `RawData` holds either the bytes themselves (unpacked) or their Z85
//! encoding (packed), never both. Z85 turns every 4 bytes into 5 printable
//! characters; a final partial block is padded with zero bytes and followed by
//! one digit `'1'..'3'` that says how many padding bytes to drop.

use vstd::prelude::*;
use vstd::utf8::*;
use vstd::arithmetic::div_mod::*;

use crate::error::{parse_error, FonError};
use crate::text::{all_ascii, lemma_ascii_valid_utf8, string_from_utf8};

verus! {

// ---------------------------------------------------------------------------
// The Z85 alphabet
// ---------------------------------------------------------------------------

/// The punctuation part of the alphabet: `.-:+=^!/*?&<>()[]{}@%$#`.
pub open spec fn z85_punct(k: int) -> u8 {
    if k == 0 { 46 }
    else if k == 1 { 45 }
    else if k == 2 { 58 }
    else if k == 3 { 43 }
    else if k == 4 { 61 }
    else if k == 5 { 94 }
    else if k == 6 { 33 }
    else if k == 7 { 47 }
    else if k == 8 { 42 }
    else if k == 9 { 63 }
    else if k == 10 { 38 }
    else if k == 11 { 60 }
    else if k == 12 { 62 }
    else if k == 13 { 40 }
    else if k == 14 { 41 }
    else if k == 15 { 91 }
    else if k == 16 { 93 }
    else if k == 17 { 123 }
    else if k == 18 { 125 }
    else if k == 19 { 64 }
    else if k == 20 { 37 }
    else if k == 21 { 36 }
    else { 35 }
}

/// The character that stands for the digit `d` (`0 <= d < 85`).
pub open spec fn z85_char(d: int) -> u8 {
    if d < 10 {
        (48 + d) as u8
    } else if d < 36 {
        (87 + d) as u8
    } else if d < 62 {
        (29 + d) as u8
    } else {
        z85_punct(d - 62)
    }
}

/// The digit that a character stands for, if it is in the alphabet.
pub open spec fn z85_value(c: u8) -> Option<int> {
    if 48 <= c <= 57 { Some(c - 48) }
    else if 97 <= c <= 122 { Some(c - 87) }
    else if 65 <= c <= 90 { Some(c - 29) }
    else if c == 46 { Some(62) }
    else if c == 45 { Some(63) }
    else if c == 58 { Some(64) }
    else if c == 43 { Some(65) }
    else if c == 61 { Some(66) }
    else if c == 94 { Some(67) }
    else if c == 33 { Some(68) }
    else if c == 47 { Some(69) }
    else if c == 42 { Some(70) }
    else if c == 63 { Some(71) }
    else if c == 38 { Some(72) }
    else if c == 60 { Some(73) }
    else if c == 62 { Some(74) }
    else if c == 40 { Some(75) }
    else if c == 41 { Some(76) }
    else if c == 91 { Some(77) }
    else if c == 93 { Some(78) }
    else if c == 123 { Some(79) }
    else if c == 125 { Some(80) }
    else if c == 64 { Some(81) }
    else if c == 37 { Some(82) }
    else if c == 36 { Some(83) }
    else if c == 35 { Some(84) }
    else { None }
}

/// Every digit's character decodes back to it, is ASCII, and is neither a
/// double quote nor a backslash.
pub proof fn lemma_z85_char(d: int)
    requires
        0 <= d < 85,
    ensures
        z85_value(z85_char(d)) == Some(d),
        z85_char(d) < 128,
        z85_char(d) != 34,
        z85_char(d) != 92,
{
}

/// The Z85 alphabet: the character of each digit, from 0 to 84.
pub open spec fn z85_alphabet() -> Seq<char> {
    "0123456789abcdefghijklmnopqrstuvwxyzABCDEFGHIJKLMNOPQRSTUVWXYZ.-:+=^!/*?&<>()[]{}@%$#"@
}

/// Digits are written with the characters of the Z85 alphabet, and a
/// character is read as a digit exactly when it is in the alphabet, as the
/// digit at its place there.
pub proof fn lemma_z85_alphabet(d: int, c: u8)
    ensures
        z85_alphabet().len() == 85,
        0 <= d < 85 ==> z85_char(d) as char == z85_alphabet()[d],
        z85_value(c) matches Some(v) ==> 0 <= v < 85 && z85_alphabet()[v] == c as char,
        0 <= d < 85 && z85_alphabet()[d] == c as char ==> z85_value(c) == Some(d),
{
    reveal_strlit("0123456789abcdefghijklmnopqrstuvwxyzABCDEFGHIJKLMNOPQRSTUVWXYZ.-:+=^!/*?&<>()[]{}@%$#");
}

fn z85_encode_digit(d: u32) -> (c: u8)
    requires
        d < 85,
    ensures
        c == z85_char(d as int),
{
    if d < 10 {
        (48 + d) as u8
    } else if d < 36 {
        (87 + d) as u8
    } else if d < 62 {
        (29 + d) as u8
    } else {
        match d {
            62 => 46,
            63 => 45,
            64 => 58,
            65 => 43,
            66 => 61,
            67 => 94,
            68 => 33,
            69 => 47,
            70 => 42,
            71 => 63,
            72 => 38,
            73 => 60,
            74 => 62,
            75 => 40,
            76 => 41,
            77 => 91,
            78 => 93,
            79 => 123,
            80 => 125,
            81 => 64,
            82 => 37,
            83 => 36,
            _ => 35,
        }
    }
}

fn z85_decode_char(c: u8) -> (r: Option<u32>)
    ensures
        match z85_value(c) {
            Some(v) => r == Some(v as u32),
            None => r is None,
        },
{
    if 48 <= c && c <= 57 {
        Some((c - 48) as u32)
    } else if 97 <= c && c <= 122 {
        Some((c - 87) as u32)
    } else if 65 <= c && c <= 90 {
        Some((c - 29) as u32)
    } else {
        match c {
            46 => Some(62),
            45 => Some(63),
            58 => Some(64),
            43 => Some(65),
            61 => Some(66),
            94 => Some(67),
            33 => Some(68),
            47 => Some(69),
            42 => Some(70),
            63 => Some(71),
            38 => Some(72),
            60 => Some(73),
            62 => Some(74),
            40 => Some(75),
            41 => Some(76),
            91 => Some(77),
            93 => Some(78),
            123 => Some(79),
            125 => Some(80),
            64 => Some(81),
            37 => Some(82),
            36 => Some(83),
            35 => Some(84),
            _ => None,
        }
    }
}

// ---------------------------------------------------------------------------
// Encoding
// ---------------------------------------------------------------------------

/// The byte at `i`, or zero past the end (the padding of a final block).
pub open spec fn byte_at(data: Seq<u8>, i: int) -> int {
    if 0 <= i < data.len() {
        data[i] as int
    } else {
        0
    }
}

/// The big-endian value of the four bytes from `start` (zero-padded).
pub open spec fn be_block(data: Seq<u8>, start: int) -> int {
    byte_at(data, start) * 16777216 + byte_at(data, start + 1) * 65536 + byte_at(data, start + 2)
        * 256 + byte_at(data, start + 3)
}

/// The five characters of a block value, most significant digit first.
pub open spec fn z85_chars_of(v: int) -> Seq<u8> {
    seq![
        z85_char(v / 52200625),
        z85_char((v / 614125) % 85),
        z85_char((v / 7225) % 85),
        z85_char((v / 85) % 85),
        z85_char(v % 85),
    ]
}

/// The encoding of the first `n` full blocks of `data`.
pub open spec fn z85_full_blocks(data: Seq<u8>, n: nat) -> Seq<u8>
    decreases n,
{
    if n == 0 {
        Seq::empty()
    } else {
        z85_full_blocks(data, (n - 1) as nat) + z85_chars_of(be_block(data, 4 * (n - 1)))
    }
}

/// The Z85 encoding of `data`: its full blocks, then, where bytes are left
/// over, their zero-padded block and the digit that counts the padding.
pub open spec fn z85_encode(data: Seq<u8>) -> Seq<u8> {
    let full = data.len() / 4;
    let rem = data.len() % 4;
    if rem == 0 {
        z85_full_blocks(data, full)
    } else {
        z85_full_blocks(data, full) + z85_chars_of(be_block(data, 4 * full as int)) + seq![
            (52 - rem) as u8,
        ]
    }
}

proof fn lemma_block_value_bound(data: Seq<u8>, start: int)
    ensures
        0 <= be_block(data, start) < 4294967296,
{
    let b0 = byte_at(data, start);
    let b1 = byte_at(data, start + 1);
    let b2 = byte_at(data, start + 2);
    let b3 = byte_at(data, start + 3);
    assert(0 <= b0 < 256 && 0 <= b1 < 256 && 0 <= b2 < 256 && 0 <= b3 < 256);
    assert(0 <= b0 * 16777216 + b1 * 65536 + b2 * 256 + b3 < 4294967296) by (nonlinear_arith)
        requires
            0 <= b0 < 256,
            0 <= b1 < 256,
            0 <= b2 < 256,
            0 <= b3 < 256,
    ;
}

proof fn lemma_chars_of_ascii(v: int)
    requires
        0 <= v < 4294967296,
    ensures
        all_ascii(z85_chars_of(v)),
        forall|i: int| 0 <= i < 5 ==> #[trigger] z85_chars_of(v)[i] != 34 && z85_chars_of(v)[i] != 92,
{
    lemma_digits_in_range(v);
    lemma_z85_char(v / 52200625);
    lemma_z85_char((v / 614125) % 85);
    lemma_z85_char((v / 7225) % 85);
    lemma_z85_char((v / 85) % 85);
    lemma_z85_char(v % 85);
}

proof fn lemma_digits_in_range(v: int)
    requires
        0 <= v < 4294967296,
    ensures
        0 <= v / 52200625 < 85,
        0 <= (v / 614125) % 85 < 85,
        0 <= (v / 7225) % 85 < 85,
        0 <= (v / 85) % 85 < 85,
        0 <= v % 85 < 85,
{
    lemma_div_pos_is_pos(v, 614125);
    lemma_div_pos_is_pos(v, 7225);
    lemma_div_pos_is_pos(v, 85);
    lemma_mod_bound(v / 614125, 85);
    lemma_mod_bound(v / 7225, 85);
    lemma_mod_bound(v / 85, 85);
    lemma_mod_bound(v, 85);
}

proof fn lemma_full_blocks_shape(data: Seq<u8>, n: nat)
    ensures
        z85_full_blocks(data, n).len() == 5 * n,
        all_ascii(z85_full_blocks(data, n)),
        forall|i: int|
            0 <= i < 5 * n ==> #[trigger] z85_full_blocks(data, n)[i] != 34 && z85_full_blocks(
                data,
                n,
            )[i] != 92,
        forall|k: int, t: int|
            0 <= k < n && 0 <= t < 5 ==> #[trigger] z85_full_blocks(data, n)[5 * k + t]
                == z85_chars_of(be_block(data, 4 * k))[t],
    decreases n,
{
    if n > 0 {
        let prev = z85_full_blocks(data, (n - 1) as nat);
        let last = z85_chars_of(be_block(data, 4 * (n - 1)));
        lemma_full_blocks_shape(data, (n - 1) as nat);
        lemma_block_value_bound(data, 4 * (n - 1));
        lemma_chars_of_ascii(be_block(data, 4 * (n - 1)));
        let all = z85_full_blocks(data, n);
        assert(all == prev + last);
        assert forall|k: int, t: int|
            0 <= k < n && 0 <= t < 5 implies #[trigger] all[5 * k + t] == z85_chars_of(
            be_block(data, 4 * k),
        )[t] by {
            if k < n - 1 {
                assert(all[5 * k + t] == prev[5 * k + t]);
            } else {
                assert(all[5 * k + t] == last[t]);
            }
        }
        assert forall|i: int| 0 <= i < all.len() implies #[trigger] all[i] < 128 by {
            if i < prev.len() {
                assert(all[i] == prev[i]);
            } else {
                assert(all[i] == last[i - prev.len()]);
            }
        }
        assert forall|i: int| 0 <= i < 5 * n implies #[trigger] all[i] != 34 && all[i] != 92 by {
            if i < prev.len() {
                assert(all[i] == prev[i]);
            } else {
                assert(all[i] == last[i - prev.len()]);
            }
        }
    }
}

/// The encoding is ASCII, has no double quote or backslash, and is five
/// characters per started block plus one padding digit after a partial block.
pub proof fn lemma_z85_encode_shape(data: Seq<u8>)
    ensures
        all_ascii(z85_encode(data)),
        z85_encode(data).len() == 5 * (data.len() / 4) + (if data.len() % 4 == 0 {
            0int
        } else {
            6int
        }),
        forall|i: int|
            0 <= i < z85_encode(data).len() ==> #[trigger] z85_encode(data)[i] != 34
                && z85_encode(data)[i] != 92,
{
    let full = data.len() / 4;
    lemma_full_blocks_shape(data, full);
    let e = z85_encode(data);
    if data.len() % 4 != 0 {
        let f = z85_full_blocks(data, full);
        let t = z85_chars_of(be_block(data, 4 * full as int));
        let p = seq![(52 - data.len() % 4) as u8];
        lemma_block_value_bound(data, 4 * full as int);
        lemma_chars_of_ascii(be_block(data, 4 * full as int));
        assert(e == f + t + p);
        assert forall|i: int| 0 <= i < e.len() implies #[trigger] e[i] < 128 && e[i] != 34 && e[i]
            != 92 by {
            if i < f.len() {
                assert(e[i] == f[i]);
            } else if i < f.len() + 5 {
                assert(e[i] == t[i - f.len()]);
            } else {
                assert(e[i] == p[0]);
            }
        }
    }
}

fn be_u32(b0: u8, b1: u8, b2: u8, b3: u8) -> (v: u32)
    ensures
        v as int == b0 * 16777216 + b1 * 65536 + b2 * 256 + b3,
{
    let v = ((b0 as u32) << 24u32) | ((b1 as u32) << 16u32) | ((b2 as u32) << 8u32) | (b3 as u32);
    assert(((b0 as u32) << 24u32) | ((b1 as u32) << 16u32) | ((b2 as u32) << 8u32) | (b3 as u32)
        == b0 as u32 * 16777216 + b1 as u32 * 65536 + b2 as u32 * 256 + b3 as u32) by (bit_vector);
    v
}

fn push_z85_block(out: &mut Vec<u8>, value: u32)
    ensures
        final(out)@ == old(out)@ + z85_chars_of(value as int),
{
    proof {
        lemma_digits_in_range(value as int);
        lemma_div_denominator(value as int, 85, 85);
        lemma_div_denominator(value as int, 7225, 85);
        lemma_div_denominator(value as int, 614125, 85);
    }
    let mut v = value;
    let c4 = z85_encode_digit(v % 85);
    v = v / 85;
    let c3 = z85_encode_digit(v % 85);
    v = v / 85;
    let c2 = z85_encode_digit(v % 85);
    v = v / 85;
    let c1 = z85_encode_digit(v % 85);
    v = v / 85;
    let c0 = z85_encode_digit(v);
    out.push(c0);
    out.push(c1);
    out.push(c2);
    out.push(c3);
    out.push(c4);
}

/// The zero-padded big-endian value of the block at `offset`.
fn block_value_at(data: &Vec<u8>, offset: usize) -> (v: u32)
    requires
        offset < data@.len(),
    ensures
        v as int == be_block(data@, offset as int),
{
    let len = data.len();
    let b0 = data[offset];
    let b1 = if len - offset > 1 {
        data[offset + 1]
    } else {
        0
    };
    let b2 = if len - offset > 2 {
        data[offset + 2]
    } else {
        0
    };
    let b3 = if len - offset > 3 {
        data[offset + 3]
    } else {
        0
    };
    be_u32(b0, b1, b2, b3)
}

/// Encodes `data` in Z85.
fn z85_encode_bytes(data: &Vec<u8>) -> (out: Vec<u8>)
    ensures
        out@ == z85_encode(data@),
{
    let input_len = data.len();
    let padding = (4 - (input_len % 4)) % 4;
    let full_blocks = input_len / 4;
    let mut out: Vec<u8> = Vec::new();
    let mut i: usize = 0;
    while i < full_blocks
        invariant
            i <= full_blocks,
            full_blocks == input_len / 4,
            input_len == data@.len(),
            out@ == z85_full_blocks(data@, i as nat),
        decreases full_blocks - i,
    {
        let offset = i * 4;
        let value = block_value_at(data, offset);
        push_z85_block(&mut out, value);
        assert(z85_full_blocks(data@, (i + 1) as nat) == z85_full_blocks(data@, i as nat)
            + z85_chars_of(be_block(data@, 4 * i as int)));
        i += 1;
    }
    let remaining = input_len % 4;
    if remaining > 0 {
        let offset = full_blocks * 4;
        let value = block_value_at(data, offset);
        push_z85_block(&mut out, value);
        out.push(48u8 + padding as u8);
    }
    out
}

// ---------------------------------------------------------------------------
// Decoding
// ---------------------------------------------------------------------------

/// The digit of the character at `p`, zero if it is not in the alphabet.
pub open spec fn digit_at(b: Seq<u8>, p: int) -> int {
    match z85_value(b[p]) {
        Some(v) => v,
        None => 0,
    }
}

/// The value of the first `j` characters of the block that starts at `start`.
pub open spec fn z85_partial(b: Seq<u8>, start: int, j: nat) -> int
    decreases j,
{
    if j == 0 {
        0
    } else {
        z85_partial(b, start, (j - 1) as nat) * 85 + digit_at(b, start + j - 1)
    }
}

proof fn lemma_partial_nonneg(b: Seq<u8>, start: int, j: nat)
    ensures
        z85_partial(b, start, j) >= 0,
    decreases j,
{
    if j > 0 {
        lemma_partial_nonneg(b, start, (j - 1) as nat);
    }
}

/// The value of the block at `start`, computed modulo 2^32.
pub open spec fn z85_block_value(b: Seq<u8>, start: int) -> int {
    z85_partial(b, start, 5) % 4294967296
}

/// The four big-endian bytes of a value.
pub open spec fn bytes_of(v: int) -> Seq<u8> {
    seq![
        ((v / 16777216) % 256) as u8,
        ((v / 65536) % 256) as u8,
        ((v / 256) % 256) as u8,
        (v % 256) as u8,
    ]
}

/// The bytes of the first `n` blocks of the text `b`.
pub open spec fn z85_decode_blocks(b: Seq<u8>, n: nat) -> Seq<u8>
    decreases n,
{
    if n == 0 {
        Seq::empty()
    } else {
        z85_decode_blocks(b, (n - 1) as nat) + bytes_of(z85_block_value(b, 5 * (n - 1)))
    }
}

/// Every character before `m` is in the alphabet.
pub open spec fn z85_valid_upto(b: Seq<u8>, m: int) -> bool {
    forall|p: int| 0 <= p < m ==> (#[trigger] z85_value(b[p])) is Some
}

/// The outcome of decoding a Z85 text.
pub enum Z85Outcome {
    /// The decoded bytes.
    Bytes(Seq<u8>),
    /// A character outside the alphabet came first.
    InvalidChar,
    /// The text has a length that the decoder does not handle (it stops).
    Aborts,
}

/// The padding digit's count (0 when the text does not end with `'1'..'3'`).
pub open spec fn z85_padding(b: Seq<u8>) -> int {
    let last = b[b.len() - 1];
    if 49 <= last <= 51 {
        last - 48
    } else {
        0
    }
}

/// The length of the text without its padding digit.
pub open spec fn z85_body_len(b: Seq<u8>) -> int {
    if z85_padding(b) > 0 {
        b.len() - 1
    } else {
        b.len() as int
    }
}

/// Decoding a non-empty Z85 text: blocks of five characters are read one
/// after another until the body is covered; a character outside the
/// alphabet is an error, a block that runs past the text's end stops the
/// decoder, and so does a padding count larger than the decoded length.
pub open spec fn z85_decode(b: Seq<u8>) -> Z85Outcome {
    let pad = z85_padding(b);
    let len = z85_body_len(b);
    let blocks = (len + 4) / 5;
    let scanned = 5 * blocks;
    if 4 * (len / 5) < pad {
        Z85Outcome::Aborts
    } else if !z85_valid_upto(b, if scanned < b.len() { scanned } else { b.len() as int }) {
        Z85Outcome::InvalidChar
    } else if scanned > b.len() {
        Z85Outcome::Aborts
    } else {
        Z85Outcome::Bytes(z85_decode_blocks(b, blocks as nat).take(4 * (len / 5) - pad))
    }
}

proof fn lemma_wrapping_step(prev: u32, p: int, d: u32)
    requires
        0 <= p,
        prev as int == p % 4294967296,
        d < 85,
    ensures
        vstd::wrapping::u32_specs::wrapping_add(vstd::wrapping::u32_specs::wrapping_mul(prev, 85), d)
            as int == (p * 85 + d) % 4294967296,
{
    let m: int = 4294967296;
    let wm = vstd::wrapping::u32_specs::wrapping_mul(prev, 85);
    assert(wm as int == (prev as int * 85) % m);
    lemma_mul_mod_noop(p, 85, m);
    lemma_small_mod(85, 4294967296);
    lemma_mod_bound(p, m);
    assert((prev as int * 85) % m == (p * 85) % m);
    lemma_add_mod_noop(p * 85, d as int, m);
    lemma_small_mod(d as nat, 4294967296);
    lemma_mod_bound(p * 85, m);
    lemma_add_mod_noop(wm as int, d as int, m);
    lemma_small_mod(wm as nat, 4294967296);
    if wm as int + d as int > 4294967295 {
        lemma_fundamental_div_mod_converse(wm as int + d as int, m, 1, wm as int + d as int - m);
    } else {
        lemma_small_mod((wm as int + d as int) as nat, 4294967296);
    }
}

proof fn lemma_decode_blocks_len(b: Seq<u8>, n: nat)
    ensures
        z85_decode_blocks(b, n).len() == 4 * n,
    decreases n,
{
    if n > 0 {
        lemma_decode_blocks_len(b, (n - 1) as nat);
    }
}

enum Z85Result {
    Bytes(Vec<u8>),
    InvalidChar,
    Aborts,
}

fn byte_of(value: u32, shift: u32) -> (r: u8)
    requires
        shift == 24 || shift == 16 || shift == 8 || shift == 0,
    ensures
        shift == 24 ==> r == bytes_of(value as int)[0],
        shift == 16 ==> r == bytes_of(value as int)[1],
        shift == 8 ==> r == bytes_of(value as int)[2],
        shift == 0 ==> r == bytes_of(value as int)[3],
{
    let r = ((value >> shift) & 0xFF) as u8;
    assert(((value >> 24u32) & 0xFF) as u8 == ((value / 16777216) % 256) as u8) by (bit_vector);
    assert(((value >> 16u32) & 0xFF) as u8 == ((value / 65536) % 256) as u8) by (bit_vector);
    assert(((value >> 8u32) & 0xFF) as u8 == ((value / 256) % 256) as u8) by (bit_vector);
    assert(((value >> 0u32) & 0xFF) as u8 == (value % 256) as u8) by (bit_vector);
    r
}

fn z85_decode_bytes(bytes: &[u8]) -> (r: Z85Result)
    requires
        bytes@.len() > 0,
    ensures
        match z85_decode(bytes@) {
            Z85Outcome::Bytes(d) => r matches Z85Result::Bytes(v) && v@ == d,
            Z85Outcome::InvalidChar => r is InvalidChar,
            Z85Outcome::Aborts => r is Aborts,
        },
{
    let ghost b = bytes@;
    let mut len = bytes.len();
    let mut padding: usize = 0;
    let last = bytes[len - 1];
    if 49 <= last && last <= 51 {
        padding = (last - 48) as usize;
        len -= 1;
    }
    assert(padding == z85_padding(b) && len == z85_body_len(b));
    if (len / 5) * 4 < padding {
        return Z85Result::Aborts;
    }
    let output_len = (len / 5) * 4 - padding;
    let ghost blocks = (len + 4) / 5;
    let mut out: Vec<u8> = Vec::new();
    let mut i: usize = 0;
    proof {
        lemma_decode_blocks_len(b, 0);
    }
    while i < len
        invariant
            b == bytes@,
            b.len() > 0,
            len == z85_body_len(b),
            padding == z85_padding(b),
            output_len == 4 * (len / 5) - padding,
            output_len <= 4 * (len / 5),
            blocks == (len + 4) / 5,
            i % 5 == 0,
            i <= 5 * blocks,
            i < len ==> i + 5 <= 5 * blocks,
            i >= len ==> i == 5 * blocks,
            4 * (len / 5) >= padding,
            i <= b.len(),
            z85_valid_upto(b, i as int),
            out@ == z85_decode_blocks(b, (i / 5) as nat).take(
                if 4 * (i / 5) < output_len { 4 * (i / 5) } else { output_len as int },
            ),
        decreases 5 * blocks - i,
    {
        let mut value: u32 = 0;
        let mut j: usize = 0;
        while j < 5
            invariant
                b == bytes@,
                i < len,
                j <= 5,
                i <= b.len(),
                len == z85_body_len(b),
                padding == z85_padding(b),
                4 * (len / 5) >= padding,
                blocks == (len + 4) / 5,
                i + 5 <= 5 * blocks,
                z85_valid_upto(b, i + j),
                value as int == z85_partial(b, i as int, j as nat) % 4294967296,
                i + j <= b.len(),
            decreases 5 - j,
        {
            if i + j >= bytes.len() {
                proof {
                    assert(z85_valid_upto(b, b.len() as int));
                }
                return Z85Result::Aborts;
            }
            let c = bytes[i + j];
            match z85_decode_char(c) {
                None => {
                    proof {
                        assert(z85_value(b[i + j]) is None);
                    }
                    return Z85Result::InvalidChar;
                },
                Some(d) => {
                    proof {
                        lemma_partial_nonneg(b, i as int, j as nat);
                        lemma_wrapping_step(value, z85_partial(b, i as int, j as nat), d);
                        assert(z85_partial(b, i as int, (j + 1) as nat) == z85_partial(
                            b,
                            i as int,
                            j as nat,
                        ) * 85 + digit_at(b, i + j));
                    }
                    value = value.wrapping_mul(85).wrapping_add(d);
                    proof {
                        assert forall|q: int| 0 <= q < i + j + 1 implies (#[trigger] z85_value(
                            b[q],
                        )) is Some by {
                            if q < i + j {
                                assert(z85_valid_upto(b, i + j));
                            }
                        }
                    }
                    j += 1;
                },
            }
        }
        let ghost prev_out = out@;
        let ghost k = (i / 5) as nat;
        let ghost prefix = z85_decode_blocks(b, k);
        let ghost bs = bytes_of(value as int);
        proof {
            lemma_decode_blocks_len(b, k);
            lemma_decode_blocks_len(b, k + 1);
            assert(z85_decode_blocks(b, k + 1) == prefix + bs);
            assert(z85_block_value(b, 5 * k as int) == value as int);
        }
        let mut write_pos = out.len();
        if write_pos < output_len {
            out.push(byte_of(value, 24));
            write_pos += 1;
        }
        if write_pos < output_len {
            out.push(byte_of(value, 16));
            write_pos += 1;
        }
        if write_pos < output_len {
            out.push(byte_of(value, 8));
            write_pos += 1;
        }
        if write_pos < output_len {
            out.push(byte_of(value, 0));
            write_pos += 1;
        }
        i += 5;
        proof {
            let full = z85_decode_blocks(b, k + 1);
            let lim = if 4 * (k + 1) < output_len { (4 * (k + 1)) as int } else { output_len as int };
            assert((i / 5) as nat == k + 1);
            assert(out@ =~= full.take(lim));
        }
    }
    proof {
        assert(i == 5 * blocks);
        lemma_decode_blocks_len(b, blocks as nat);
        assert(out@ =~= z85_decode_blocks(b, blocks as nat).take(output_len as int));
    }
    Z85Result::Bytes(out)
}

// ---------------------------------------------------------------------------
// Decoding what was encoded
// ---------------------------------------------------------------------------

proof fn lemma_digits_recompose(v: int)
    requires
        0 <= v < 4294967296,
    ensures
        (((v / 52200625 * 85 + (v / 614125) % 85) * 85 + (v / 7225) % 85) * 85 + (v / 85) % 85)
            * 85 + v % 85 == v,
{
    lemma_div_denominator(v, 85, 85);
    lemma_div_denominator(v, 7225, 85);
    lemma_div_denominator(v, 614125, 85);
    lemma_fundamental_div_mod(v, 85);
    lemma_fundamental_div_mod(v / 85, 85);
    lemma_fundamental_div_mod(v / 7225, 85);
    lemma_fundamental_div_mod(v / 614125, 85);
    assert(v / 85 / 85 == v / 7225);
    assert(v / 7225 / 85 == v / 614125);
    assert(v / 614125 / 85 == v / 52200625);
}

proof fn lemma_bytes_of_block(data: Seq<u8>, start: int)
    ensures
        bytes_of(be_block(data, start)) == seq![
            byte_at(data, start) as u8,
            byte_at(data, start + 1) as u8,
            byte_at(data, start + 2) as u8,
            byte_at(data, start + 3) as u8,
        ],
{
    let b0 = byte_at(data, start);
    let b1 = byte_at(data, start + 1);
    let b2 = byte_at(data, start + 2);
    let b3 = byte_at(data, start + 3);
    let v = be_block(data, start);
    assert(0 <= b0 < 256 && 0 <= b1 < 256 && 0 <= b2 < 256 && 0 <= b3 < 256);
    assert((v / 16777216) % 256 == b0 && (v / 65536) % 256 == b1 && (v / 256) % 256 == b2 && v
        % 256 == b3) by (nonlinear_arith)
        requires
            v == b0 * 16777216 + b1 * 65536 + b2 * 256 + b3,
            0 <= b0 < 256,
            0 <= b1 < 256,
            0 <= b2 < 256,
            0 <= b3 < 256,
    ;
}

/// The value read back from a block is the value that was written.
proof fn lemma_block_roundtrip(e: Seq<u8>, start: int, v: int)
    requires
        0 <= v < 4294967296,
        0 <= start,
        start + 5 <= e.len(),
        forall|t: int| 0 <= t < 5 ==> #[trigger] e[start + t] == z85_chars_of(v)[t],
    ensures
        z85_block_value(e, start) == v,
        z85_valid_upto(e.subrange(start, start + 5), 5),
{
    lemma_digits_in_range(v);
    let d0 = v / 52200625;
    let d1 = (v / 614125) % 85;
    let d2 = (v / 7225) % 85;
    let d3 = (v / 85) % 85;
    let d4 = v % 85;
    lemma_z85_char(d0);
    lemma_z85_char(d1);
    lemma_z85_char(d2);
    lemma_z85_char(d3);
    lemma_z85_char(d4);
    assert(e[start + 0] == z85_chars_of(v)[0]);
    assert(e[start + 1] == z85_chars_of(v)[1]);
    assert(e[start + 2] == z85_chars_of(v)[2]);
    assert(e[start + 3] == z85_chars_of(v)[3]);
    assert(e[start + 4] == z85_chars_of(v)[4]);
    assert(digit_at(e, start) == d0);
    assert(digit_at(e, start + 1) == d1);
    assert(digit_at(e, start + 2) == d2);
    assert(digit_at(e, start + 3) == d3);
    assert(digit_at(e, start + 4) == d4);
    reveal_with_fuel(z85_partial, 6);
    lemma_digits_recompose(v);
    lemma_small_mod(v as nat, 4294967296);
    let s = e.subrange(start, start + 5);
    assert forall|p: int| 0 <= p < 5 implies (#[trigger] z85_value(s[p])) is Some by {
        assert(s[p] == e[start + p]);
    }
}

/// The padded bytes of `data` (zeros past the end).
pub open spec fn padded(data: Seq<u8>, n: nat) -> Seq<u8> {
    Seq::new(n, |i: int| byte_at(data, i) as u8)
}

proof fn lemma_decode_encoded_blocks(data: Seq<u8>, e: Seq<u8>, n: nat)
    requires
        e.len() >= 5 * n,
        n <= (data.len() + 3) / 4,
        forall|k: int, t: int|
            0 <= k < n && 0 <= t < 5 ==> #[trigger] e[5 * k + t] == z85_chars_of(
                be_block(data, 4 * k),
            )[t],
    ensures
        z85_decode_blocks(e, n) =~= padded(data, 4 * n),
        z85_valid_upto(e, 5 * n as int),
    decreases n,
{
    if n > 0 {
        let k = n - 1;
        lemma_decode_encoded_blocks(data, e, (n - 1) as nat);
        lemma_block_value_bound(data, 4 * k);
        assert forall|t: int| 0 <= t < 5 implies #[trigger] e[5 * k + t] == z85_chars_of(
            be_block(data, 4 * k),
        )[t] by {}
        lemma_block_roundtrip(e, 5 * k, be_block(data, 4 * k));
        lemma_bytes_of_block(data, 4 * k);
        assert forall|p: int| 0 <= p < 5 * n implies (#[trigger] z85_value(e[p])) is Some by {
            if p >= 5 * k {
                let s = e.subrange(5 * k, 5 * k + 5);
                assert(s[p - 5 * k] == e[p]);
            } else {
                assert(z85_valid_upto(e, 5 * (n - 1)));
            }
        }
    }
}

/// The digit a character of the alphabet stands for.
pub open spec fn digit_of(c: u8) -> int {
    match z85_value(c) {
        Some(v) => v,
        None => 0,
    }
}

/// The characters of block `k` of an encoding are those of the block's value.
proof fn lemma_block_chars(data: Seq<u8>, k: int)
    requires
        0 <= k,
        4 * k + 4 <= data.len(),
    ensures
        5 * k + 5 <= z85_encode(data).len(),
        forall|j: int|
            0 <= j < 5 ==> #[trigger] z85_encode(data)[5 * k + j] == z85_chars_of(
                be_block(data, 4 * k),
            )[j],
{
    let e = z85_encode(data);
    let full = data.len() / 4;
    lemma_full_blocks_shape(data, full as nat);
    lemma_z85_encode_shape(data);
    let f = z85_full_blocks(data, full as nat);
    assert forall|j: int| 0 <= j < 5 implies #[trigger] e[5 * k + j] == z85_chars_of(
        be_block(data, 4 * k),
    )[j] by {
        assert(f[5 * k + j] == z85_chars_of(be_block(data, 4 * k))[j]);
        if data.len() % 4 != 0 {
            let t = z85_chars_of(be_block(data, 4 * full as int));
            let p = seq![(52 - data.len() % 4) as u8];
            assert(e == f + t + p);
        }
        assert(e[5 * k + j] == f[5 * k + j]);
    }
}

/// The five characters of a block value are digits whose base-85 value,
/// most significant first, is the block value.
proof fn lemma_chars_digits(v: int)
    requires
        0 <= v < 4294967296,
    ensures
        forall|j: int| 0 <= j < 5 ==> (#[trigger] z85_value(z85_chars_of(v)[j])) is Some,
        digit_of(z85_chars_of(v)[0]) * 52200625 + digit_of(z85_chars_of(v)[1]) * 614125 + digit_of(
            z85_chars_of(v)[2],
        ) * 7225 + digit_of(z85_chars_of(v)[3]) * 85 + digit_of(z85_chars_of(v)[4]) == v,
{
    let d0 = v / 52200625;
    let d1 = (v / 614125) % 85;
    let d2 = (v / 7225) % 85;
    let d3 = (v / 85) % 85;
    let d4 = v % 85;
    lemma_digits_in_range(v);
    lemma_z85_char(d0);
    lemma_z85_char(d1);
    lemma_z85_char(d2);
    lemma_z85_char(d3);
    lemma_z85_char(d4);
    lemma_digits_recompose(v);
    assert(((((d0 * 85 + d1) * 85 + d2) * 85 + d3) * 85 + d4) == d0 * 52200625 + d1 * 614125 + d2
        * 7225 + d3 * 85 + d4) by (nonlinear_arith);
}

/// Each block of four bytes is written as five characters whose digits, read
/// as a number in base 85 with the most significant digit first, are the
/// four bytes read as a big-endian number.
pub proof fn lemma_z85_block_digits(data: Seq<u8>, k: int)
    requires
        0 <= k,
        4 * k + 4 <= data.len(),
    ensures
        5 * k + 5 <= z85_encode(data).len(),
        forall|j: int| 5 * k <= j < 5 * k + 5 ==> (#[trigger] z85_value(z85_encode(data)[j])) is Some,
        data[4 * k] * 16777216 + data[4 * k + 1] * 65536 + data[4 * k + 2] * 256 + data[4 * k + 3]
            == digit_of(z85_encode(data)[5 * k]) * 52200625 + digit_of(z85_encode(data)[5 * k + 1])
            * 614125 + digit_of(z85_encode(data)[5 * k + 2]) * 7225 + digit_of(
            z85_encode(data)[5 * k + 3],
        ) * 85 + digit_of(z85_encode(data)[5 * k + 4]),
{
    let e = z85_encode(data);
    let v = be_block(data, 4 * k);
    lemma_block_chars(data, k);
    lemma_block_value_bound(data, 4 * k);
    lemma_chars_digits(v);
    let cs = z85_chars_of(v);
    assert forall|j: int| 5 * k <= j < 5 * k + 5 implies (#[trigger] z85_value(e[j])) is Some by {
        assert(e[5 * k + (j - 5 * k)] == cs[j - 5 * k]);
    }
    let c0 = digit_of(e[5 * k]);
    let c1 = digit_of(e[5 * k + 1]);
    let c2 = digit_of(e[5 * k + 2]);
    let c3 = digit_of(e[5 * k + 3]);
    let c4 = digit_of(e[5 * k + 4]);
    assert(e[5 * k + 0] == cs[0]);
    assert(e[5 * k + 1] == cs[1]);
    assert(e[5 * k + 2] == cs[2]);
    assert(e[5 * k + 3] == cs[3]);
    assert(e[5 * k + 4] == cs[4]);
    assert(c0 * 52200625 + c1 * 614125 + c2 * 7225 + c3 * 85 + c4 == v);
    assert(v == data[4 * k] * 16777216 + data[4 * k + 1] * 65536 + data[4 * k + 2] * 256 + data[4
        * k + 3]);
}

/// The digit after a partial final block counts the zero bytes added to
/// complete it: `'1'`, `'2'` or `'3'` for 3, 2 or 1 bytes left over. Bytes
/// that fill whole blocks get five characters per block and no such digit.
pub proof fn lemma_z85_padding_digit(data: Seq<u8>)
    ensures
        data.len() % 4 != 0 ==> z85_encode(data).len() == 5 * (data.len() / 4 + 1) + 1
            && z85_encode(data)[z85_encode(data).len() - 1] == 48 + (4 - data.len() % 4),
        data.len() % 4 == 0 ==> z85_encode(data).len() == 5 * (data.len() / 4),
{
    lemma_z85_encode_shape(data);
    let full = data.len() / 4;
    if data.len() % 4 != 0 {
        let f = z85_full_blocks(data, full);
        let t = z85_chars_of(be_block(data, 4 * full as int));
        let p = seq![(52 - data.len() % 4) as u8];
        assert(z85_encode(data) == f + t + p);
        assert(z85_encode(data)[z85_encode(data).len() - 1] == p[0]);
    }
}

/// Decoding gives four bytes per block of five characters, less the count
/// of a final padding digit `'1'..'3'` where the text ends with one.
pub proof fn lemma_z85_decoded_len(b: Seq<u8>)
    requires
        b.len() > 0,
    ensures
        z85_decode(b) matches Z85Outcome::Bytes(d) ==> d.len() == if 49 <= b[b.len() - 1] <= 51 {
            4 * ((b.len() - 1) / 5) - (b[b.len() - 1] - 48)
        } else {
            4 * (b.len() as int / 5)
        },
{
    let pad = z85_padding(b);
    let len = z85_body_len(b);
    let blocks = (len + 4) / 5;
    lemma_decode_blocks_len(b, blocks as nat);
    assert(4 * (len / 5) <= 4 * blocks);
}

/// Where the Z85 text of `data` could be misread: the length is a multiple
/// of four and the last character happens to be a padding digit `'1'..'3'`.
pub open spec fn z85_misread(data: Seq<u8>) -> bool {
    data.len() % 4 == 0 && data.len() > 0 && 1 <= be_block(data, data.len() - 4) % 85 <= 3
}

/// Decoding the encoding of non-empty `data` gives `data` back, except where
/// the final character is mistaken for a padding digit.
pub proof fn lemma_z85_roundtrip(data: Seq<u8>)
    requires
        data.len() > 0,
        !z85_misread(data),
    ensures
        z85_decode(z85_encode(data)) == Z85Outcome::Bytes(data),
{
    let e = z85_encode(data);
    let full = data.len() / 4;
    let rem = data.len() % 4;
    lemma_full_blocks_shape(data, full);
    lemma_z85_encode_shape(data);
    if rem == 0 {
        let v = be_block(data, 4 * (full - 1));
        lemma_block_value_bound(data, 4 * (full - 1));
        lemma_digits_in_range(v);
        lemma_z85_char(v % 85);
        assert(e[e.len() - 1] == z85_chars_of(v)[4]);
        assert(z85_padding(e) == 0);
        lemma_decode_encoded_blocks(data, e, full);
        assert(padded(data, 4 * full) =~= data);
        assert(z85_decode_blocks(e, full).take(4 * full as int) =~= data);
    } else {
        let f = z85_full_blocks(data, full);
        let t = z85_chars_of(be_block(data, 4 * full as int));
        assert(e == f + t + seq![(52 - rem) as u8]);
        assert(e[e.len() - 1] == (52 - rem) as u8);
        assert(z85_padding(e) == 4 - rem);
        assert forall|k: int, j: int|
            0 <= k < full + 1 && 0 <= j < 5 implies #[trigger] e[5 * k + j] == z85_chars_of(
            be_block(data, 4 * k),
        )[j] by {
            if k < full {
                assert(e[5 * k + j] == f[5 * k + j]);
            } else {
                assert(e[5 * k + j] == t[j]);
            }
        }
        lemma_decode_encoded_blocks(data, e, (full + 1) as nat);
        assert(padded(data, 4 * (full + 1) as nat).take(data.len() as int) =~= data);
    }
}

// ---------------------------------------------------------------------------
// RawData
// ---------------------------------------------------------------------------

/// What a `RawData` holds: its bytes and its encoded text.
pub struct RawModel {
    pub data: Seq<u8>,
    pub encoded: Seq<char>,
}

/// A binary payload, held either as bytes or as Z85 text.
pub struct RawData {
    data: Vec<u8>,
    encoded: String,
}

/// The result of unpacking: the new payload, an error, or a text that the
/// decoder does not handle.
pub enum UnpackOutcome {
    Done(RawModel),
    InvalidChar,
    Aborts,
}

/// Packing: bytes become their Z85 text; a payload that is already packed,
/// or empty, stays as it is.
pub open spec fn spec_pack(m: RawModel) -> RawModel {
    if m.encoded.len() > 0 || m.data.len() == 0 {
        m
    } else {
        RawModel { data: Seq::empty(), encoded: decode_utf8(z85_encode(m.data)) }
    }
}

/// Unpacking: Z85 text becomes its bytes; a payload that is already
/// unpacked, or empty, stays as it is.
pub open spec fn spec_unpack(m: RawModel) -> UnpackOutcome {
    if m.data.len() > 0 || m.encoded.len() == 0 {
        UnpackOutcome::Done(m)
    } else {
        match z85_decode(encode_utf8(m.encoded)) {
            Z85Outcome::Bytes(d) => UnpackOutcome::Done(RawModel { data: d, encoded: Seq::empty() }),
            Z85Outcome::InvalidChar => UnpackOutcome::InvalidChar,
            Z85Outcome::Aborts => UnpackOutcome::Aborts,
        }
    }
}

/// A payload holds its bytes or its text, never both at once.
pub open spec fn holds_one_form(m: RawModel) -> bool {
    m.data.len() == 0 || m.encoded.len() == 0
}

/// Packing and unpacking keep a payload in one form.
pub proof fn lemma_one_form_kept(m: RawModel)
    requires
        holds_one_form(m),
    ensures
        holds_one_form(spec_pack(m)),
        spec_unpack(m) matches UnpackOutcome::Done(u) ==> holds_one_form(u),
{
}

impl View for RawData {
    type V = RawModel;

    closed spec fn view(&self) -> RawModel {
        RawModel { data: self.data@, encoded: self.encoded@ }
    }
}

impl RawData {
    /// Never both bytes and text.
    #[verifier::type_invariant]
    spec fn one_form(self) -> bool {
        holds_one_form(self@)
    }

    pub fn from_bytes(data: Vec<u8>) -> (r: Self)
        ensures
            r@ == (RawModel { data: data@, encoded: Seq::empty() }),
            holds_one_form(r@),
    {
        RawData { data, encoded: String::new() }
    }

    pub fn from_encoded(encoded: String) -> (r: Self)
        ensures
            r@ == (RawModel { data: Seq::empty(), encoded: encoded@ }),
            holds_one_form(r@),
    {
        RawData { data: Vec::new(), encoded }
    }

    pub fn data(&self) -> (r: &[u8])
        ensures
            r@ == self@.data,
    {
        self.data.as_slice()
    }

    pub fn encoded(&self) -> (r: &str)
        ensures
            r@ == self@.encoded,
    {
        self.encoded.as_str()
    }

    /// Whether the payload is held as text. A payload is never packed and
    /// unpacked at once.
    pub fn is_packed(&self) -> (r: bool)
        ensures
            r == (self@.encoded.len() > 0),
            holds_one_form(self@),
    {
        proof {
            use_type_invariant(self);
        }
        !self.encoded.as_str().is_empty()
    }

    /// Whether the payload is held as bytes.
    pub fn is_unpacked(&self) -> (r: bool)
        ensures
            r == (self@.data.len() > 0),
            holds_one_form(self@),
    {
        proof {
            use_type_invariant(self);
        }
        !self.data.is_empty()
    }

    /// Whether `unpack` can be called: the payload is not Z85 text that the
    /// decoder does not handle.
    pub fn can_unpack(&self) -> (r: bool)
        ensures
            r == !(spec_unpack(self@) is Aborts),
    {
        if !self.data.is_empty() || self.encoded.as_str().is_empty() {
            return true;
        }
        match z85_decode_bytes(self.encoded.as_str().as_bytes()) {
            Z85Result::Aborts => false,
            _ => true,
        }
    }

    /// Replaces the bytes by their Z85 text (see `spec_pack`).
    pub fn pack(&mut self) -> (r: &mut Self)
        ensures
            (*r)@ == spec_pack(old(self)@),
            *final(self) == *final(r),
            holds_one_form((*r)@),
    {
        proof {
            use_type_invariant(&*self);
        }
        if !self.encoded.as_str().is_empty() || self.data.is_empty() {
            return self;
        }
        let out = z85_encode_bytes(&self.data);
        proof {
            lemma_z85_encode_shape(self.data@);
            lemma_ascii_valid_utf8(out@);
        }
        match string_from_utf8(out) {
            Some(s) => {
                *self = RawData { data: Vec::new(), encoded: s };
            },
            None => {},
        }
        self
    }

    /// Replaces the Z85 text by its bytes (see `spec_unpack`); a character
    /// outside the alphabet is a parse error and leaves the payload as it was.
    pub fn unpack(&mut self) -> (r: Result<&mut Self, FonError>)
        requires
            !(spec_unpack(old(self)@) is Aborts),
        ensures
            r is Ok <==> spec_unpack(old(self)@) is Done,
            r matches Ok(s) ==> spec_unpack(old(self)@) == UnpackOutcome::Done((*s)@),
            r matches Ok(s) ==> *final(self) == *final(s),
            r matches Err(e) ==> e matches FonError::Parse(msg) && msg@ == "Invalid Z85 character"@,
            r is Err ==> final(self)@ == old(self)@,
            r matches Ok(s) ==> holds_one_form((*s)@),
    {
        proof {
            use_type_invariant(&*self);
            lemma_one_form_kept(self@);
        }
        match self.unpack_step() {
            UnpackStep::Done => Ok(self),
            _ => Err(parse_error("Invalid Z85 character")),
        }
    }

    /// Unpacks as `unpack` does, and reports a text that the decoder does not
    /// handle instead of stopping on it.
    pub(crate) fn unpack_step(&mut self) -> (r: UnpackStep)
        ensures
            match spec_unpack(old(self)@) {
                UnpackOutcome::Done(m) => r is Done && final(self)@ == m,
                UnpackOutcome::InvalidChar => r is InvalidChar && final(self)@ == old(self)@,
                UnpackOutcome::Aborts => r is Aborts && final(self)@ == old(self)@,
            },
    {
        proof {
            use_type_invariant(&*self);
        }
        if !self.data.is_empty() || self.encoded.as_str().is_empty() {
            return UnpackStep::Done;
        }
        match z85_decode_bytes(self.encoded.as_str().as_bytes()) {
            Z85Result::Bytes(out) => {
                *self = RawData { data: out, encoded: String::new() };
                UnpackStep::Done
            },
            Z85Result::InvalidChar => UnpackStep::InvalidChar,
            Z85Result::Aborts => UnpackStep::Aborts,
        }
    }
}

/// How unpacking ended.
pub(crate) enum UnpackStep {
    Done,
    InvalidChar,
    Aborts,
}

/// Unpacking what was packed gives an unpacked (or empty) payload back,
/// unless its Z85 text would be misread (see `z85_misread`).
pub proof fn lemma_unpack_pack(m: RawModel)
    requires
        m.encoded.len() == 0,
        !z85_misread(m.data),
    ensures
        spec_unpack(spec_pack(m)) == UnpackOutcome::Done(m),
{
    if m.data.len() > 0 {
        let e = z85_encode(m.data);
        lemma_z85_encode_shape(m.data);
        lemma_ascii_valid_utf8(e);
        decode_utf8_encode_utf8(e);
        lemma_z85_roundtrip(m.data);
        assert(decode_utf8(e).len() > 0) by {
            if decode_utf8(e).len() == 0 {
                assert(encode_utf8(decode_utf8(e)) =~= Seq::<u8>::empty());
            }
        }
        let p = spec_pack(m);
        assert(p.data.len() == 0);
        assert(spec_unpack(p) == UnpackOutcome::Done(RawModel { data: m.data, encoded: Seq::empty() }));
        assert(m.encoded =~= Seq::<char>::empty());
    }
}

} // verus!

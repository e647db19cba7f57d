//! The FON wire format, stated as functions on bytes: how a record is
//! written, and how a line of bytes is read back into a record.
//!
//! A record is written as `key=t:value` fields separated by commas, where `t`
//! is the value's type tag. Numbers are written in decimal, booleans as `1` or
//! `0`, strings between double quotes with escapes, raw payloads as their Z85
//! text between double quotes, nested records between braces, and arrays
//! between square brackets with their items separated by commas. A dump is
//! one record per line.

use vstd::prelude::*;
use vstd::utf8::*;

use crate::deserialize::DeserializeOptions;
use crate::text::{all_ascii, lemma_ascii_valid_utf8, lossy_utf8};
use crate::raw_data::{spec_unpack, z85_encode, RawModel, UnpackOutcome};
use crate::types::{
    int_max, int_min, tag_of, FloatKind, IntKind, TYPE_BOOL, TYPE_BYTE, TYPE_DOUBLE, TYPE_FLOAT,
    TYPE_INT, TYPE_LONG, TYPE_OBJECT, TYPE_RAW, TYPE_SHORT, TYPE_STRING, TYPE_UINT, TYPE_ULONG,
    ValueModel,
};

verus! {

/// Why reading failed: an error with its message, or input on which the
/// reader stops altogether (a raw payload whose Z85 text has a length that the
/// decoder does not handle).
pub enum Failure {
    Error(Seq<char>),
    Aborts,
}

// ---------------------------------------------------------------------------
// Decimal numbers
// ---------------------------------------------------------------------------

pub open spec fn is_digit(b: u8) -> bool {
    48 <= b <= 57
}

/// The number of consecutive digits from `from`.
pub open spec fn digit_run(s: Seq<u8>, from: int) -> int
    decreases s.len() - from,
{
    if 0 <= from < s.len() && is_digit(s[from]) {
        1 + digit_run(s, from + 1)
    } else {
        0
    }
}

/// The value of a sequence of decimal digits.
pub open spec fn digits_value(d: Seq<u8>) -> int
    decreases d.len(),
{
    if d.len() == 0 {
        0
    } else {
        digits_value(d.subrange(0, d.len() - 1)) * 10 + (d[d.len() - 1] - 48)
    }
}

/// What `atoi` reads at the start of `text` for an integer kind: an optional
/// sign and the digits that follow it (bytes after them are ignored). Nothing
/// when there is neither sign nor digit, or the value is out of the kind's
/// range.
pub open spec fn atoi_value(text: Seq<u8>, k: IntKind) -> Option<int> {
    let sign: int = if text.len() > 0 && (text[0] == 43 || text[0] == 45) {
        1
    } else {
        0
    };
    let n = digit_run(text, sign);
    if sign + n == 0 {
        None
    } else {
        let mag = digits_value(text.subrange(sign, sign + n));
        let v = if sign == 1 && text[0] == 45 {
            -mag
        } else {
            mag
        };
        if int_min(k) <= v <= int_max(k) {
            Some(v)
        } else {
            None
        }
    }
}

/// The decimal digits of a natural number.
pub open spec fn decimal_digits(n: nat) -> Seq<u8>
    decreases n,
{
    if n < 10 {
        seq![(48 + n) as u8]
    } else {
        decimal_digits(n / 10).push((48 + n % 10) as u8)
    }
}

/// The decimal text of an integer, with a minus sign when it is negative.
pub open spec fn decimal(v: int) -> Seq<u8> {
    if v < 0 {
        seq![45u8] + decimal_digits((-v) as nat)
    } else {
        decimal_digits(v as nat)
    }
}

// ---------------------------------------------------------------------------
// Floating-point text
// ---------------------------------------------------------------------------

/// The byte in lower case.
pub open spec fn lower(c: u8) -> u8 {
    if 65 <= c <= 90 {
        (c + 32) as u8
    } else {
        c
    }
}

/// `s` spells `word` (lower case), ignoring case.
pub open spec fn spells(s: Seq<u8>, word: Seq<u8>) -> bool {
    s.len() == word.len() && forall|i: int| 0 <= i < s.len() ==> #[trigger] lower(s[i]) == word[i]
}

/// The exponent part: `e` or `E`, an optional sign, and at least one digit,
/// up to the end.
pub open spec fn exponent_ok(s: Seq<u8>, from: int) -> bool {
    if from == s.len() {
        true
    } else if 0 <= from < s.len() && lower(s[from]) == 101 {
        let d = if from + 1 < s.len() && (s[from + 1] == 43 || s[from + 1] == 45) {
            from + 2
        } else {
            from + 1
        };
        digit_run(s, d) > 0 && d + digit_run(s, d) == s.len()
    } else {
        false
    }
}

/// A decimal number: digits with an optional fraction (at least one digit in
/// all), then an optional exponent.
pub open spec fn number_ok(s: Seq<u8>) -> bool {
    let i = digit_run(s, 0);
    if i < s.len() && s[i] == 46 {
        let f = digit_run(s, i + 1);
        (i > 0 || f > 0) && exponent_ok(s, i + 1 + f)
    } else {
        i > 0 && exponent_ok(s, i)
    }
}

/// The text that std accepts as a floating-point number: an optional sign,
/// then `inf`, `infinity`, `nan` (in any case) or a decimal number.
pub open spec fn float_text_ok(t: Seq<u8>) -> bool {
    let body = if t.len() > 0 && (t[0] == 43 || t[0] == 45) {
        t.subrange(1, t.len() as int)
    } else {
        t
    };
    ||| spells(body, seq![105u8, 110, 102])
    ||| spells(body, seq![105u8, 110, 102, 105, 110, 105, 116, 121])
    ||| spells(body, seq![110u8, 97, 110])
    ||| number_ok(body)
}

// ---------------------------------------------------------------------------
// String escapes
// ---------------------------------------------------------------------------

/// An uppercase hexadecimal digit.
pub open spec fn hex_digit(d: int) -> u8 {
    if d < 10 {
        (48 + d) as u8
    } else {
        (55 + d) as u8
    }
}

/// How one byte of a string is written between quotes.
pub open spec fn escape_byte(c: u8) -> Seq<u8> {
    if c == 34 {
        seq![92u8, 34]
    } else if c == 92 {
        seq![92u8, 92]
    } else if c == 10 {
        seq![92u8, 110]
    } else if c == 13 {
        seq![92u8, 114]
    } else if c == 9 {
        seq![92u8, 116]
    } else if c == 8 {
        seq![92u8, 98]
    } else if c == 12 {
        seq![92u8, 102]
    } else if c < 32 {
        seq![92u8, 117, 48, 48, hex_digit(c as int / 16), hex_digit(c as int % 16)]
    } else {
        seq![c]
    }
}

/// How the bytes of a string are written between quotes.
pub open spec fn escape(b: Seq<u8>) -> Seq<u8>
    decreases b.len(),
{
    if b.len() == 0 {
        Seq::empty()
    } else {
        escape_byte(b[0]) + escape(b.subrange(1, b.len() as int))
    }
}

/// The byte that an escape letter stands for.
pub open spec fn unescape_byte(c: u8) -> u8 {
    if c == 110 {
        10
    } else if c == 114 {
        13
    } else if c == 116 {
        9
    } else if c == 98 {
        8
    } else if c == 102 {
        12
    } else {
        c
    }
}

/// Reading escapes: a backslash and the byte after it stand for one byte.
pub open spec fn unescape(b: Seq<u8>) -> Seq<u8>
    decreases b.len(),
{
    if b.len() == 0 {
        Seq::empty()
    } else if b[0] == 92 && 1 < b.len() {
        seq![unescape_byte(b[1])] + unescape(b.subrange(2, b.len() as int))
    } else {
        seq![b[0]] + unescape(b.subrange(1, b.len() as int))
    }
}

// ---------------------------------------------------------------------------
// Scanning
// ---------------------------------------------------------------------------

/// The first position at or after `i` that holds `b`.
pub open spec fn find_from(s: Seq<u8>, b: u8, i: int) -> Option<int>
    decreases s.len() - i,
{
    if i < 0 || i >= s.len() {
        None
    } else if s[i] == b {
        Some(i)
    } else {
        find_from(s, b, i + 1)
    }
}

/// The first position that holds `b`.
pub open spec fn first_index_of(s: Seq<u8>, b: u8) -> Option<int> {
    find_from(s, b, 0)
}

/// A byte that ends a number: `,`, `]`, `\r` or `\n`.
pub open spec fn ends_value(c: u8) -> bool {
    c == 44 || c == 93 || c == 13 || c == 10
}

/// The number of bytes before the first byte that ends a number.
pub open spec fn value_end_from(s: Seq<u8>, i: int) -> int
    decreases s.len() - i,
{
    if i < 0 || i >= s.len() {
        s.len() as int
    } else if ends_value(s[i]) {
        i
    } else {
        value_end_from(s, i + 1)
    }
}

pub open spec fn value_end(s: Seq<u8>) -> int {
    value_end_from(s, 0)
}

/// A double quote at `i` that opens or closes a string: one that no
/// backslash precedes.
pub open spec fn is_quote_at(s: Seq<u8>, i: int) -> bool {
    s[i] == 34 && (i == 0 || s[i - 1] != 92)
}

/// The position of the `close` byte that matches the first `open` byte,
/// scanning from `i` with the given nesting depth and string state; bytes
/// inside strings do not count.
pub open spec fn closing_from(
    s: Seq<u8>,
    i: int,
    depth: int,
    in_string: bool,
    open: u8,
    close: u8,
) -> Option<int>
    decreases s.len() - i,
{
    if i < 0 || i >= s.len() {
        None
    } else if is_quote_at(s, i) {
        closing_from(s, i + 1, depth, !in_string, open, close)
    } else if !in_string && s[i] == open {
        closing_from(s, i + 1, depth + 1, in_string, open, close)
    } else if !in_string && s[i] == close {
        if depth - 1 == 0 {
            Some(i)
        } else {
            closing_from(s, i + 1, depth - 1, in_string, open, close)
        }
    } else {
        closing_from(s, i + 1, depth, in_string, open, close)
    }
}

pub open spec fn closing(s: Seq<u8>, open: u8, close: u8) -> Option<int> {
    closing_from(s, 0, 0, false, open, close)
}

pub proof fn lemma_closing_from_bound(
    s: Seq<u8>,
    i: int,
    depth: int,
    in_string: bool,
    open: u8,
    close: u8,
)
    ensures
        closing_from(s, i, depth, in_string, open, close) matches Some(c) ==> 0 <= i <= c < s.len()
            && s[c] == close,
    decreases s.len() - i,
{
    if 0 <= i < s.len() {
        lemma_closing_from_bound(s, i + 1, depth, !in_string, open, close);
        lemma_closing_from_bound(s, i + 1, depth + 1, in_string, open, close);
        lemma_closing_from_bound(s, i + 1, depth - 1, in_string, open, close);
        lemma_closing_from_bound(s, i + 1, depth, in_string, open, close);
    }
}

/// The end of a string that starts at 0: the first unescaped double quote
/// after the opening one, or the end of the bytes.
pub open spec fn quote_end_from(s: Seq<u8>, i: int) -> int
    decreases s.len() - i,
{
    if i < 1 || i >= s.len() {
        s.len() as int
    } else if s[i] == 34 && s[i - 1] != 92 {
        i
    } else {
        quote_end_from(s, i + 1)
    }
}

pub open spec fn quote_end(s: Seq<u8>) -> int {
    quote_end_from(s, 1)
}

pub proof fn lemma_quote_end_from(s: Seq<u8>, i: int)
    requires
        1 <= i,
    ensures
        i <= quote_end_from(s, i) <= s.len() || (i > s.len() && quote_end_from(s, i) == s.len()),
        quote_end_from(s, i) < s.len() ==> s[quote_end_from(s, i)] == 34 && s[quote_end_from(s, i)
            - 1] != 92,
        forall|j: int| i <= j < quote_end_from(s, i) ==> !(#[trigger] s[j] == 34 && s[j - 1] != 92),
    decreases s.len() - i,
{
    if i < s.len() && !(s[i] == 34 && s[i - 1] != 92) {
        lemma_quote_end_from(s, i + 1);
    }
}

/// The position after an optional comma at `p`.
pub open spec fn skip_comma(s: Seq<u8>, p: int) -> int {
    if 0 <= p < s.len() && s[p] == 44 {
        p + 1
    } else {
        p
    }
}

// ---------------------------------------------------------------------------
// Reading
// ---------------------------------------------------------------------------

/// The error message for a number that does not parse.
pub open spec fn number_error(tok: Seq<u8>) -> Seq<char> {
    "Failed to parse number: '"@ + lossy_utf8(tok) + "'"@
}

/// The integer kind a type tag stands for.
pub open spec fn tag_int_kind(tc: u8) -> Option<IntKind> {
    if tc == TYPE_BYTE {
        Some(IntKind::Byte)
    } else if tc == TYPE_SHORT {
        Some(IntKind::Short)
    } else if tc == TYPE_INT {
        Some(IntKind::Int)
    } else if tc == TYPE_UINT {
        Some(IntKind::UInt)
    } else if tc == TYPE_LONG {
        Some(IntKind::Long)
    } else if tc == TYPE_ULONG {
        Some(IntKind::ULong)
    } else {
        None
    }
}

/// The floating-point kind a type tag stands for.
pub open spec fn tag_float_kind(tc: u8) -> Option<FloatKind> {
    if tc == TYPE_FLOAT {
        Some(FloatKind::Single)
    } else if tc == TYPE_DOUBLE {
        Some(FloatKind::Double)
    } else {
        None
    }
}

/// Reading a quoted string that starts at 0: its text and the bytes used
/// (through the closing quote, with a comma that follows it). A string with
/// no closing quote runs to the end, and counts one byte more than there is,
/// for the quote it lacks.
pub open spec fn read_string(data: Seq<u8>) -> Result<(Seq<char>, int), Failure> {
    if data.len() == 0 || data[0] != 34 {
        Err(Failure::Error("String must start with '\"'"@))
    } else {
        let e = quote_end(data);
        let bytes = unescape(data.subrange(1, e));
        if !valid_utf8(bytes) {
            Err(Failure::Error("Invalid UTF-8 in input"@))
        } else {
            Ok((decode_utf8(bytes), skip_comma(data, e + 1)))
        }
    }
}

/// The bytes between the brackets of an array that starts at 0, and the
/// bytes used (with a comma that follows it).
pub open spec fn read_array(data: Seq<u8>) -> Result<(Seq<u8>, int), Failure> {
    if data.len() == 0 || data[0] != 91 {
        Err(Failure::Error("Array must start with '['"@))
    } else {
        match closing(data, 91, 93) {
            None => Err(Failure::Error("Closing bracket not found"@)),
            Some(close) => Ok((data.subrange(1, close), skip_comma(data, close + 1))),
        }
    }
}

pub proof fn lemma_atoi_nonempty(tok: Seq<u8>, k: IntKind)
    ensures
        atoi_value(tok, k) is Some ==> tok.len() > 0,
{
    let sign: int = if tok.len() > 0 && (tok[0] == 43 || tok[0] == 45) {
        1
    } else {
        0
    };
    if tok.len() == 0 {
        assert(digit_run(tok, sign) == 0);
    }
}

/// Reading the items of an integer array.
pub open spec fn read_int_items(c: Seq<u8>, k: IntKind) -> Result<Seq<int>, Failure>
    decreases c.len(),
{
    if c.len() == 0 {
        Ok(Seq::empty())
    } else {
        let end = value_end(c);
        let tok = c.subrange(0, end);
        match atoi_value(tok, k) {
            None => Err(Failure::Error(number_error(tok))),
            Some(v) => {
                let p = skip_comma(c, end);
                if p >= c.len() {
                    Ok(seq![v])
                } else {
                    proof {
                        lemma_atoi_nonempty(tok, k);
                        lemma_value_end_bound(c);
                    }
                    match read_int_items(c.subrange(p, c.len() as int), k) {
                        Ok(vs) => Ok(seq![v] + vs),
                        Err(f) => Err(f),
                    }
                }
            },
        }
    }
}

pub proof fn lemma_value_end_bound(s: Seq<u8>)
    ensures
        0 <= value_end(s) <= s.len(),
        forall|j: int| 0 <= j < value_end(s) ==> !ends_value(#[trigger] s[j]),
        value_end(s) < s.len() ==> ends_value(s[value_end(s)]),
{
    lemma_value_end_from(s, 0);
}

pub proof fn lemma_value_end_from(s: Seq<u8>, i: int)
    requires
        0 <= i,
    ensures
        i <= value_end_from(s, i) <= s.len() || (i > s.len() && value_end_from(s, i) == s.len()),
        forall|j: int| i <= j < value_end_from(s, i) ==> !ends_value(#[trigger] s[j]),
        value_end_from(s, i) < s.len() ==> ends_value(s[value_end_from(s, i)]),
    decreases s.len() - i,
{
    if i < s.len() && !ends_value(s[i]) {
        lemma_value_end_from(s, i + 1);
    }
}

/// Accepted floating-point text is never empty.
pub proof fn lemma_float_text_nonempty(t: Seq<u8>)
    ensures
        float_text_ok(t) ==> t.len() > 0,
{
    if t.len() == 0 {
        assert(digit_run(t, 0) == 0);
    }
}

/// Reading the items of a floating-point array.
pub open spec fn read_float_items(c: Seq<u8>) -> Result<Seq<Seq<char>>, Failure>
    decreases c.len(),
{
    if c.len() == 0 {
        Ok(Seq::empty())
    } else {
        let end = value_end(c);
        let tok = c.subrange(0, end);
        if !float_text_ok(tok) {
            Err(Failure::Error(number_error(tok)))
        } else {
            let p = skip_comma(c, end);
            if p >= c.len() {
                Ok(seq![decode_utf8(tok)])
            } else {
                proof {
                    lemma_float_text_nonempty(tok);
                    lemma_value_end_bound(c);
                }
                match read_float_items(c.subrange(p, c.len() as int)) {
                    Ok(vs) => Ok(seq![decode_utf8(tok)] + vs),
                    Err(f) => Err(f),
                }
            }
        }
    }
}

/// Reading the items of a boolean array: an item is false when it starts
/// with `0`; an empty item is an error.
pub open spec fn read_bool_items(c: Seq<u8>) -> Result<Seq<bool>, Failure>
    decreases c.len(),
{
    if c.len() == 0 {
        Ok(Seq::empty())
    } else {
        let end = value_end(c);
        if end == 0 {
            Err(Failure::Error("Empty value"@))
        } else {
            let p = skip_comma(c, end);
            if p >= c.len() {
                Ok(seq![c[0] != 48])
            } else {
                proof {
                    lemma_value_end_bound(c);
                }
                match read_bool_items(c.subrange(p, c.len() as int)) {
                    Ok(vs) => Ok(seq![c[0] != 48] + vs),
                    Err(f) => Err(f),
                }
            }
        }
    }
}

/// Reading the items of a string array.
pub open spec fn read_string_items(c: Seq<u8>) -> Result<Seq<Seq<char>>, Failure>
    decreases c.len(),
{
    if c.len() == 0 {
        Ok(Seq::empty())
    } else {
        match read_string(c) {
            Err(f) => Err(f),
            Ok((s, n)) => {
                if n >= c.len() || n <= 0 {
                    Ok(seq![s])
                } else {
                    match read_string_items(c.subrange(n, c.len() as int)) {
                        Ok(vs) => Ok(seq![s] + vs),
                        Err(f) => Err(f),
                    }
                }
            },
        }
    }
}

/// Reading an integer array: its items and the bytes used.
pub open spec fn read_int_array(data: Seq<u8>, k: IntKind) -> Result<(Seq<int>, int), Failure> {
    match read_array(data) {
        Err(f) => Err(f),
        Ok((content, n)) => match read_int_items(content, k) {
            Ok(vs) => Ok((vs, n)),
            Err(f) => Err(f),
        },
    }
}

/// Reading a floating-point array: the text of its items and the bytes used.
pub open spec fn read_float_array(data: Seq<u8>) -> Result<(Seq<Seq<char>>, int), Failure> {
    match read_array(data) {
        Err(f) => Err(f),
        Ok((content, n)) => match read_float_items(content) {
            Ok(vs) => Ok((vs, n)),
            Err(f) => Err(f),
        },
    }
}

/// Reading a boolean array: its items and the bytes used.
pub open spec fn read_bool_array(data: Seq<u8>) -> Result<(Seq<bool>, int), Failure> {
    match read_array(data) {
        Err(f) => Err(f),
        Ok((content, n)) => match read_bool_items(content) {
            Ok(vs) => Ok((vs, n)),
            Err(f) => Err(f),
        },
    }
}

/// Reading a string array: its items and the bytes used.
pub open spec fn read_string_array(data: Seq<u8>) -> Result<(Seq<Seq<char>>, int), Failure> {
    match read_array(data) {
        Err(f) => Err(f),
        Ok((content, n)) => match read_string_items(content) {
            Ok(vs) => Ok((vs, n)),
            Err(f) => Err(f),
        },
    }
}

/// The bytes from `pos` on (none when `pos` is at or past the end).
pub open spec fn suffix(c: Seq<u8>, pos: int) -> Seq<u8> {
    if pos >= c.len() || pos < 0 {
        Seq::empty()
    } else {
        c.subrange(pos, c.len() as int)
    }
}

/// Items read so far, followed by what reading the rest gives.
pub open spec fn prepend<T>(xs: Seq<T>, r: Result<Seq<T>, Failure>) -> Result<Seq<T>, Failure> {
    match r {
        Ok(ys) => Ok(xs + ys),
        Err(f) => Err(f),
    }
}

/// Nothing read so far: the result of reading the rest.
pub proof fn lemma_prepend_empty<T>(r: Result<Seq<T>, Failure>)
    ensures
        prepend(Seq::<T>::empty(), r) == r,
{
    if let Ok(ys) = r {
        assert(Seq::<T>::empty() + ys =~= ys);
    }
}

/// One more item read: it joins the items read so far.
pub proof fn lemma_prepend_step<T>(got: Seq<T>, x: T, r: Result<Seq<T>, Failure>)
    ensures
        prepend(got, prepend(seq![x], r)) == prepend(got.push(x), r),
{
    if let Ok(ys) = r {
        assert(got + (seq![x] + ys) =~= got.push(x) + ys);
    }
}

/// The last item read: nothing follows it.
pub proof fn lemma_prepend_last<T>(x: T)
    ensures
        prepend(seq![x], Ok(Seq::<T>::empty())) == Ok::<Seq<T>, Failure>(seq![x]),
{
    assert(seq![x] + Seq::<T>::empty() =~= seq![x]);
}

/// The fields of a record's text (a line, or the body of a nested record):
/// `key=t:value` fields, each followed by an optional comma, until no `=`
/// is left.
pub open spec fn read_fields(s: Seq<u8>, depth: int, opts: DeserializeOptions) -> Result<
    Seq<(Seq<char>, ValueModel)>,
    Failure,
>
    decreases s.len(), 3int,
{
    if s.len() == 0 {
        Ok(Seq::empty())
    } else {
        match first_index_of(s, 61) {
            None => Ok(Seq::empty()),
            Some(eq) => {
                proof {
                    lemma_find_from(s, 61, 0);
                }
                if eq + 2 >= s.len() || s[eq + 2] != 58 {
                    Err(Failure::Error("Invalid format: expected type:value"@))
                } else if !valid_utf8(s.subrange(0, eq)) {
                    Err(Failure::Error("Invalid UTF-8 in input"@))
                } else {
                    let key = decode_utf8(s.subrange(0, eq));
                    match read_value(s.subrange(eq + 3, s.len() as int), s[eq + 1], depth, opts) {
                        Err(f) => Err(f),
                        Ok((v, n)) => {
                            let p = skip_comma(s, eq + 3 + n);
                            if p >= s.len() || n < 0 {
                                Ok(seq![(key, v)])
                            } else {
                                match read_fields(s.subrange(p, s.len() as int), depth, opts) {
                                    Ok(fs) => Ok(seq![(key, v)] + fs),
                                    Err(f) => Err(f),
                                }
                            }
                        },
                    }
                }
            },
        }
    }
}

/// Reading one value of type `tc` at the start of `data`: the value and the
/// bytes used (with a comma that follows it).
pub open spec fn read_value(data: Seq<u8>, tc: u8, depth: int, opts: DeserializeOptions) -> Result<
    (ValueModel, int),
    Failure,
>
    decreases data.len(), 2int,
{
    if data.len() == 0 {
        Err(Failure::Error("Empty value"@))
    } else if tc == TYPE_OBJECT {
        if data[0] == 123 {
            match read_object(data, depth + 1, opts) {
                Ok((fs, n)) => Ok((ValueModel::Object(fs), n)),
                Err(f) => Err(f),
            }
        } else if data[0] == 91 {
            match read_object_array(data, depth + 1, opts) {
                Ok((os, n)) => Ok((ValueModel::Objects(os), n)),
                Err(f) => Err(f),
            }
        } else {
            Err(Failure::Error("Object must start with '{' or '['"@))
        }
    } else if data[0] == 91 {
        if let Some(k) = tag_int_kind(tc) {
            match read_int_array(data, k) {
                Ok((vs, n)) => Ok((ValueModel::Integers(k, vs), n)),
                Err(f) => Err(f),
            }
        } else if let Some(k) = tag_float_kind(tc) {
            match read_float_array(data) {
                Ok((vs, n)) => Ok((ValueModel::Decimals(k, vs), n)),
                Err(f) => Err(f),
            }
        } else if tc == TYPE_STRING {
            match read_string_array(data) {
                Ok((vs, n)) => Ok((ValueModel::Texts(vs), n)),
                Err(f) => Err(f),
            }
        } else if tc == TYPE_BOOL {
            match read_bool_array(data) {
                Ok((vs, n)) => Ok((ValueModel::Bools(vs), n)),
                Err(f) => Err(f),
            }
        } else {
            Err(Failure::Error("Unsupported array type"@))
        }
    } else if tc == TYPE_STRING {
        match read_string(data) {
            Ok((s, n)) => Ok((ValueModel::Text(s), n)),
            Err(f) => Err(f),
        }
    } else if tc == TYPE_RAW {
        match read_string(data) {
            Err(f) => Err(f),
            Ok((s, n)) => {
                let m = RawModel { data: Seq::empty(), encoded: s };
                if opts.unpack_raw {
                    match spec_unpack(m) {
                        UnpackOutcome::Done(u) => Ok((ValueModel::Raw(u), n)),
                        UnpackOutcome::InvalidChar => Err(
                            Failure::Error("Invalid Z85 character"@),
                        ),
                        UnpackOutcome::Aborts => Err(Failure::Aborts),
                    }
                } else {
                    Ok((ValueModel::Raw(m), n))
                }
            },
        }
    } else {
        let end = value_end(data);
        let tok = data.subrange(0, end);
        let n = skip_comma(data, end);
        if let Some(k) = tag_int_kind(tc) {
            match atoi_value(tok, k) {
                Some(v) => Ok((ValueModel::Integer(k, v), n)),
                None => Err(Failure::Error(number_error(tok))),
            }
        } else if let Some(k) = tag_float_kind(tc) {
            if float_text_ok(tok) {
                Ok((ValueModel::Decimal(k, decode_utf8(tok)), n))
            } else {
                Err(Failure::Error(number_error(tok)))
            }
        } else if tc == TYPE_BOOL {
            Ok((ValueModel::Bool(data[0] != 48), n))
        } else {
            Err(Failure::Error("Unknown type"@))
        }
    }
}

/// Reading a nested record at nesting depth `depth`.
pub open spec fn read_object(data: Seq<u8>, depth: int, opts: DeserializeOptions) -> Result<
    (Seq<(Seq<char>, ValueModel)>, int),
    Failure,
>
    decreases data.len(), 0int,
{
    if depth > opts.max_depth {
        Err(Failure::Error("Maximum nesting depth exceeded"@))
    } else if data.len() == 0 || data[0] != 123 {
        Err(Failure::Error("Object must start with '{'"@))
    } else {
        match closing(data, 123, 125) {
            None => Err(Failure::Error("Closing brace not found"@)),
            Some(close) => {
                proof {
                    lemma_closing_from_bound(data, 0, 0, false, 123, 125);
                }
                match read_fields(data.subrange(1, close), depth, opts) {
                    Ok(fs) => Ok((fs, skip_comma(data, close + 1))),
                    Err(f) => Err(f),
                }
            },
        }
    }
}

/// Reading an array of nested records at nesting depth `depth`.
pub open spec fn read_object_array(data: Seq<u8>, depth: int, opts: DeserializeOptions) -> Result<
    (Seq<Seq<(Seq<char>, ValueModel)>>, int),
    Failure,
>
    decreases data.len(), 1int,
{
    if depth > opts.max_depth {
        Err(Failure::Error("Maximum nesting depth exceeded"@))
    } else if data.len() == 0 || data[0] != 91 {
        Err(Failure::Error("Object array must start with '['"@))
    } else {
        match closing(data, 91, 93) {
            None => Err(Failure::Error("Closing bracket not found"@)),
            Some(close) => {
                proof {
                    lemma_closing_from_bound(data, 0, 0, false, 91, 93);
                }
                match read_objects(data.subrange(1, close), depth, opts) {
                    Ok(os) => Ok((os, skip_comma(data, close + 1))),
                    Err(f) => Err(f),
                }
            },
        }
    }
}

/// Reading the records of an object array's content, each starting with `{`.
pub open spec fn read_objects(c: Seq<u8>, depth: int, opts: DeserializeOptions) -> Result<
    Seq<Seq<(Seq<char>, ValueModel)>>,
    Failure,
>
    decreases c.len(), 1int,
{
    if c.len() == 0 {
        Ok(Seq::empty())
    } else if c[0] != 123 {
        Err(Failure::Error("Object array element must start with '{'"@))
    } else {
        match read_object(c, depth, opts) {
            Err(f) => Err(f),
            Ok((fs, n)) => {
                if n >= c.len() || n <= 0 {
                    Ok(seq![fs])
                } else {
                    match read_objects(c.subrange(n, c.len() as int), depth, opts) {
                        Ok(os) => Ok(seq![fs] + os),
                        Err(f) => Err(f),
                    }
                }
            },
        }
    }
}

/// Reading a line: it must be valid UTF-8; then its fields.
pub open spec fn read_line(line: Seq<u8>, opts: DeserializeOptions) -> Result<
    Seq<(Seq<char>, ValueModel)>,
    Failure,
> {
    if !valid_utf8(line) {
        Err(Failure::Error("Invalid UTF-8 in input"@))
    } else {
        read_fields(line, 0, opts)
    }
}

pub proof fn lemma_find_from(s: Seq<u8>, b: u8, i: int)
    requires
        0 <= i,
    ensures
        find_from(s, b, i) matches Some(j) ==> i <= j < s.len() && s[j] == b && forall|k: int|
            i <= k < j ==> s[k] != b,
        find_from(s, b, i) is None ==> forall|k: int| i <= k < s.len() ==> s[k] != b,
    decreases s.len() - i,
{
    if i < s.len() && s[i] != b {
        lemma_find_from(s, b, i + 1);
    }
}

// ---------------------------------------------------------------------------
// Writing
// ---------------------------------------------------------------------------

/// Items separated by commas.
pub open spec fn join_items(items: Seq<Seq<u8>>) -> Seq<u8>
    decreases items.len(),
{
    if items.len() == 0 {
        Seq::empty()
    } else if items.len() == 1 {
        items[0]
    } else {
        items[0] + seq![44u8] + join_items(items.subrange(1, items.len() as int))
    }
}

/// A string between double quotes, escaped.
pub open spec fn quoted(s: Seq<char>) -> Seq<u8> {
    seq![34u8] + escape(encode_utf8(s)) + seq![34u8]
}

/// The text a raw payload is written with: its Z85 text, which is computed
/// from its bytes when it is not packed.
pub open spec fn raw_text(m: RawModel) -> Seq<u8> {
    if m.encoded.len() > 0 {
        encode_utf8(m.encoded)
    } else if m.data.len() > 0 {
        z85_encode(m.data)
    } else {
        Seq::empty()
    }
}

pub open spec fn bool_text(b: bool) -> Seq<u8> {
    if b {
        seq![49u8]
    } else {
        seq![48u8]
    }
}

/// How a value is written.
pub open spec fn write_value(v: ValueModel) -> Seq<u8>
    decreases v,
{
    match v {
        ValueModel::Integer(_, x) => decimal(x),
        ValueModel::Decimal(_, t) => encode_utf8(t),
        ValueModel::Bool(b) => bool_text(b),
        ValueModel::Text(s) => quoted(s),
        ValueModel::Raw(m) => seq![34u8] + raw_text(m) + seq![34u8],
        ValueModel::Object(fs) => seq![123u8] + write_fields(fs) + seq![125u8],
        ValueModel::Integers(_, xs) => seq![91u8] + join_items(xs.map_values(|x: int| decimal(x)))
            + seq![93u8],
        ValueModel::Decimals(_, ts) => seq![91u8] + join_items(
            ts.map_values(|t: Seq<char>| encode_utf8(t)),
        ) + seq![93u8],
        ValueModel::Bools(bs) => seq![91u8] + join_items(bs.map_values(|b: bool| bool_text(b)))
            + seq![93u8],
        ValueModel::Texts(ss) => seq![91u8] + join_items(ss.map_values(|s: Seq<char>| quoted(s)))
            + seq![93u8],
        ValueModel::Objects(os) => seq![91u8] + write_objects(os) + seq![93u8],
    }
}

/// How a field is written: `key=t:value`.
pub open spec fn write_field(f: (Seq<char>, ValueModel)) -> Seq<u8>
    decreases f,
{
    encode_utf8(f.0) + seq![61u8, tag_of(f.1), 58u8] + write_value(f.1)
}

/// How the fields of a record are written, separated by commas.
pub open spec fn write_fields(fs: Seq<(Seq<char>, ValueModel)>) -> Seq<u8>
    decreases fs,
{
    if fs.len() == 0 {
        Seq::empty()
    } else if fs.len() == 1 {
        write_field(fs[0])
    } else {
        write_field(fs[0]) + seq![44u8] + write_fields(fs.subrange(1, fs.len() as int))
    }
}

/// How the records of an object array are written: each between braces,
/// separated by commas.
pub open spec fn write_objects(os: Seq<Seq<(Seq<char>, ValueModel)>>) -> Seq<u8>
    decreases os,
{
    if os.len() == 0 {
        Seq::empty()
    } else if os.len() == 1 {
        seq![123u8] + write_fields(os[0]) + seq![125u8]
    } else {
        seq![123u8] + write_fields(os[0]) + seq![125u8, 44u8] + write_objects(
            os.subrange(1, os.len() as int),
        )
    }
}

// ---------------------------------------------------------------------------
// Facts about writing
// ---------------------------------------------------------------------------

/// Adding an item at the end of a comma-separated list.
pub proof fn lemma_join_push(items: Seq<Seq<u8>>, x: Seq<u8>)
    ensures
        join_items(items.push(x)) == if items.len() == 0 {
            x
        } else {
            join_items(items) + seq![44u8] + x
        },
    decreases items.len(),
{
    let all = items.push(x);
    assert(all[all.len() - 1] == x);
    if items.len() == 0 {
        assert(all.len() == 1);
    } else if items.len() == 1 {
        assert(all.subrange(1, all.len() as int) =~= seq![x]);
        assert(join_items(seq![x]) == x);
        assert(all[0] == items[0]);
        assert(join_items(items) == items[0]);
    } else {
        assert(all[0] == items[0]);
        let tail = items.subrange(1, items.len() as int);
        lemma_join_push(tail, x);
        assert(all.subrange(1, all.len() as int) =~= tail.push(x));
        assert(items[0] + seq![44u8] + (join_items(tail) + seq![44u8] + x) =~= items[0] + seq![44u8]
            + join_items(tail) + seq![44u8] + x);
    }
}

/// Adding a field at the end of a record's text.
pub proof fn lemma_fields_push(fs: Seq<(Seq<char>, ValueModel)>, f: (Seq<char>, ValueModel))
    ensures
        write_fields(fs.push(f)) == if fs.len() == 0 {
            write_field(f)
        } else {
            write_fields(fs) + seq![44u8] + write_field(f)
        },
    decreases fs.len(),
{
    let all = fs.push(f);
    assert(all[all.len() - 1] == f);
    if fs.len() == 0 {
        assert(all.len() == 1);
    } else if fs.len() == 1 {
        assert(all.subrange(1, all.len() as int) =~= seq![f]);
        assert(write_fields(seq![f]) == write_field(f));
        assert(all[0] == fs[0]);
        assert(write_fields(fs) == write_field(fs[0]));
    } else {
        assert(all[0] == fs[0]);
        let tail = fs.subrange(1, fs.len() as int);
        lemma_fields_push(tail, f);
        assert(all.subrange(1, all.len() as int) =~= tail.push(f));
        assert(write_field(fs[0]) + seq![44u8] + (write_fields(tail) + seq![44u8] + write_field(f))
            =~= write_field(fs[0]) + seq![44u8] + write_fields(tail) + seq![44u8] + write_field(f));
    }
}

/// Adding a record at the end of an object array's text.
pub proof fn lemma_objects_push(
    os: Seq<Seq<(Seq<char>, ValueModel)>>,
    o: Seq<(Seq<char>, ValueModel)>,
)
    ensures
        write_objects(os.push(o)) == if os.len() == 0 {
            seq![123u8] + write_fields(o) + seq![125u8]
        } else {
            write_objects(os) + seq![44u8, 123u8] + write_fields(o) + seq![125u8]
        },
    decreases os.len(),
{
    let all = os.push(o);
    assert(all[all.len() - 1] == o);
    if os.len() == 0 {
        assert(all.len() == 1);
    } else if os.len() == 1 {
        assert(all.subrange(1, all.len() as int) =~= seq![o]);
        assert(write_objects(seq![o]) == seq![123u8] + write_fields(o) + seq![125u8]);
        assert(all[0] == os[0]);
        assert(write_objects(os) == seq![123u8] + write_fields(os[0]) + seq![125u8]);
        assert(seq![123u8] + write_fields(os[0]) + seq![125u8, 44u8] + (seq![123u8] + write_fields(
            o,
        ) + seq![125u8]) =~= seq![123u8] + write_fields(os[0]) + seq![125u8] + seq![44u8, 123u8]
            + write_fields(o) + seq![125u8]);
    } else {
        assert(all[0] == os[0]);
        let tail = os.subrange(1, os.len() as int);
        lemma_objects_push(tail, o);
        assert(all.subrange(1, all.len() as int) =~= tail.push(o));
        assert(seq![123u8] + write_fields(os[0]) + seq![125u8, 44u8] + (write_objects(tail) + seq![
            44u8,
            123u8,
        ] + write_fields(o) + seq![125u8]) =~= seq![123u8] + write_fields(os[0]) + seq![
            125u8,
            44u8,
        ] + write_objects(tail) + seq![44u8, 123u8] + write_fields(o) + seq![125u8]);
    }
}

/// Escaping a concatenation escapes each part.
pub proof fn lemma_escape_concat(a: Seq<u8>, b: Seq<u8>)
    ensures
        escape(a + b) == escape(a) + escape(b),
    decreases a.len(),
{
    if a.len() == 0 {
        assert(a + b =~= b);
        assert(escape(a) + escape(b) =~= escape(b));
    } else {
        lemma_escape_concat(a.subrange(1, a.len() as int), b);
        assert((a + b).subrange(1, (a + b).len() as int) =~= a.subrange(1, a.len() as int) + b);
        assert(escape_byte(a[0]) + (escape(a.subrange(1, a.len() as int)) + escape(b)) =~= (
        escape_byte(a[0]) + escape(a.subrange(1, a.len() as int))) + escape(b));
    }
}

/// Bytes that escaping leaves as they are.
pub proof fn lemma_escape_plain(b: Seq<u8>)
    requires
        forall|i: int| 0 <= i < b.len() ==> #[trigger] b[i] >= 128,
    ensures
        escape(b) == b,
    decreases b.len(),
{
    if b.len() > 0 {
        lemma_escape_plain(b.subrange(1, b.len() as int));
        assert(b =~= seq![b[0]] + b.subrange(1, b.len() as int));
    }
}

/// The escape of an ASCII byte is ASCII.
pub proof fn lemma_escape_byte_ascii(c: u8)
    requires
        c < 128,
    ensures
        all_ascii(escape_byte(c)),
{
    assert(c as int / 16 < 8);
    assert(0 <= c as int % 16 < 16);
}

/// Escaping keeps bytes valid UTF-8.
pub proof fn lemma_escape_valid(b: Seq<u8>)
    requires
        valid_utf8(b),
    ensures
        valid_utf8(escape(b)),
    decreases b.len(),
{
    if b.len() > 0 {
        let n = length_of_first_scalar(b);
        let first = b.subrange(0, n);
        let rest = pop_first_scalar(b);
        assert(b =~= first + rest);
        lemma_escape_concat(first, rest);
        lemma_escape_valid(rest);
        if n == 1 {
            assert(escape(first) == escape_byte(b[0]) + escape(Seq::<u8>::empty())) by {
                assert(first.subrange(1, 1) =~= Seq::<u8>::empty());
            }
            assert(escape_byte(b[0]) + Seq::<u8>::empty() =~= escape_byte(b[0]));
            lemma_escape_byte_ascii(b[0]);
            lemma_ascii_valid_utf8(escape(first));
        } else {
            assert forall|i: int| 0 <= i < first.len() implies #[trigger] first[i] >= 128 by {
                assert(first[i] == b[i]);
            }
            lemma_escape_plain(first);
            assert(first.len() == n);
            assert(first[0] == b[0]);
            assert(n >= 2 ==> first[1] == b[1]);
            assert(n >= 3 ==> first[2] == b[2]);
            assert(n >= 4 ==> first[3] == b[3]);
            assert(valid_first_scalar(first));
            assert(pop_first_scalar(first) =~= Seq::<u8>::empty());
            assert(valid_utf8(first)) by {
                reveal_with_fuel(valid_utf8, 2);
            }
        }
        valid_utf8_concat(escape(first), escape(rest));
    }
}

/// A comma-separated list of valid UTF-8 items is valid UTF-8.
pub proof fn lemma_join_valid(items: Seq<Seq<u8>>)
    requires
        forall|i: int| 0 <= i < items.len() ==> valid_utf8(#[trigger] items[i]),
    ensures
        valid_utf8(join_items(items)),
    decreases items.len(),
{
    if items.len() == 0 {
        lemma_ascii_valid_utf8(Seq::<u8>::empty());
    } else if items.len() > 1 {
        let tail = items.subrange(1, items.len() as int);
        assert forall|i: int| 0 <= i < tail.len() implies valid_utf8(#[trigger] tail[i]) by {
            assert(tail[i] == items[i + 1]);
        }
        lemma_join_valid(tail);
        lemma_ascii_valid_utf8(seq![44u8]);
        assert(valid_utf8(items[0]));
        valid_utf8_concat(items[0], seq![44u8]);
        valid_utf8_concat(items[0] + seq![44u8], join_items(tail));
    }
}

pub proof fn lemma_decimal_ascii(v: int)
    ensures
        all_ascii(decimal(v)),
{
    lemma_digits_ascii(if v < 0 { (-v) as nat } else { v as nat });
}

proof fn lemma_digits_ascii(n: nat)
    ensures
        all_ascii(decimal_digits(n)),
    decreases n,
{
    if n >= 10 {
        lemma_digits_ascii(n / 10);
    }
}

proof fn lemma_quoted_valid(s: Seq<char>)
    ensures
        valid_utf8(quoted(s)),
{
    encode_utf8_valid_utf8(s);
    lemma_escape_valid(encode_utf8(s));
    lemma_ascii_valid_utf8(seq![34u8]);
    valid_utf8_concat(seq![34u8], escape(encode_utf8(s)));
    valid_utf8_concat(seq![34u8] + escape(encode_utf8(s)), seq![34u8]);
}

/// Written text is valid UTF-8 (values).
pub proof fn lemma_value_valid(v: ValueModel)
    ensures
        valid_utf8(write_value(v)),
    decreases v,
{
    let open = seq![91u8];
    let close = seq![93u8];
    lemma_ascii_valid_utf8(open);
    lemma_ascii_valid_utf8(close);
    match v {
        ValueModel::Integer(_, x) => {
            lemma_decimal_ascii(x);
            lemma_ascii_valid_utf8(decimal(x));
        },
        ValueModel::Decimal(_, t) => {
            encode_utf8_valid_utf8(t);
        },
        ValueModel::Bool(b) => {
            lemma_ascii_valid_utf8(bool_text(b));
        },
        ValueModel::Text(s) => {
            lemma_quoted_valid(s);
        },
        ValueModel::Raw(m) => {
            let q = seq![34u8];
            lemma_ascii_valid_utf8(q);
            if m.encoded.len() > 0 {
                encode_utf8_valid_utf8(m.encoded);
            } else if m.data.len() > 0 {
                crate::raw_data::lemma_z85_encode_shape(m.data);
                lemma_ascii_valid_utf8(z85_encode(m.data));
            } else {
                lemma_ascii_valid_utf8(Seq::<u8>::empty());
            }
            valid_utf8_concat(q, raw_text(m));
            valid_utf8_concat(q + raw_text(m), q);
        },
        ValueModel::Object(fs) => {
            lemma_fields_valid(fs);
            lemma_ascii_valid_utf8(seq![123u8]);
            lemma_ascii_valid_utf8(seq![125u8]);
            valid_utf8_concat(seq![123u8], write_fields(fs));
            valid_utf8_concat(seq![123u8] + write_fields(fs), seq![125u8]);
        },
        ValueModel::Integers(_, xs) => {
            let items = xs.map_values(|x: int| decimal(x));
            assert forall|i: int| 0 <= i < items.len() implies valid_utf8(#[trigger] items[i]) by {
                lemma_decimal_ascii(xs[i]);
                lemma_ascii_valid_utf8(items[i]);
            }
            lemma_join_valid(items);
            valid_utf8_concat(open, join_items(items));
            valid_utf8_concat(open + join_items(items), close);
        },
        ValueModel::Decimals(_, ts) => {
            let items = ts.map_values(|t: Seq<char>| encode_utf8(t));
            assert forall|i: int| 0 <= i < items.len() implies valid_utf8(#[trigger] items[i]) by {
                encode_utf8_valid_utf8(ts[i]);
            }
            lemma_join_valid(items);
            valid_utf8_concat(open, join_items(items));
            valid_utf8_concat(open + join_items(items), close);
        },
        ValueModel::Bools(bs) => {
            let items = bs.map_values(|b: bool| bool_text(b));
            assert forall|i: int| 0 <= i < items.len() implies valid_utf8(#[trigger] items[i]) by {
                lemma_ascii_valid_utf8(items[i]);
            }
            lemma_join_valid(items);
            valid_utf8_concat(open, join_items(items));
            valid_utf8_concat(open + join_items(items), close);
        },
        ValueModel::Texts(ss) => {
            let items = ss.map_values(|s: Seq<char>| quoted(s));
            assert forall|i: int| 0 <= i < items.len() implies valid_utf8(#[trigger] items[i]) by {
                lemma_quoted_valid(ss[i]);
            }
            lemma_join_valid(items);
            valid_utf8_concat(open, join_items(items));
            valid_utf8_concat(open + join_items(items), close);
        },
        ValueModel::Objects(os) => {
            lemma_objects_valid(os);
            valid_utf8_concat(open, write_objects(os));
            valid_utf8_concat(open + write_objects(os), close);
        },
    }
}

/// Written text is valid UTF-8 (fields).
pub proof fn lemma_fields_valid(fs: Seq<(Seq<char>, ValueModel)>)
    ensures
        valid_utf8(write_fields(fs)),
    decreases fs,
{
    if fs.len() == 0 {
        lemma_ascii_valid_utf8(Seq::<u8>::empty());
    } else {
        let f = fs[0];
        lemma_value_valid(f.1);
        encode_utf8_valid_utf8(f.0);
        let mid = seq![61u8, tag_of(f.1), 58u8];
        lemma_ascii_valid_utf8(mid);
        valid_utf8_concat(encode_utf8(f.0), mid);
        valid_utf8_concat(encode_utf8(f.0) + mid, write_value(f.1));
        assert(write_field(f) == encode_utf8(f.0) + mid + write_value(f.1));
        if fs.len() > 1 {
            let tail = fs.subrange(1, fs.len() as int);
            lemma_fields_valid(tail);
            lemma_ascii_valid_utf8(seq![44u8]);
            valid_utf8_concat(write_field(f), seq![44u8]);
            valid_utf8_concat(write_field(f) + seq![44u8], write_fields(tail));
            assert(write_fields(fs) == write_field(f) + seq![44u8] + write_fields(tail));
        } else {
            assert(write_fields(fs) == write_field(f));
        }
    }
}

/// Written text is valid UTF-8 (object arrays).
pub proof fn lemma_objects_valid(os: Seq<Seq<(Seq<char>, ValueModel)>>)
    ensures
        valid_utf8(write_objects(os)),
    decreases os,
{
    if os.len() == 0 {
        lemma_ascii_valid_utf8(Seq::<u8>::empty());
    } else {
        let o = os[0];
        lemma_fields_valid(o);
        lemma_ascii_valid_utf8(seq![123u8]);
        lemma_ascii_valid_utf8(seq![125u8]);
        valid_utf8_concat(seq![123u8], write_fields(o));
        valid_utf8_concat(seq![123u8] + write_fields(o), seq![125u8]);
        if os.len() > 1 {
            let tail = os.subrange(1, os.len() as int);
            lemma_objects_valid(tail);
            lemma_ascii_valid_utf8(seq![125u8, 44u8]);
            valid_utf8_concat(seq![123u8], write_fields(o));
            valid_utf8_concat(seq![123u8] + write_fields(o), seq![125u8, 44u8]);
            valid_utf8_concat(seq![123u8] + write_fields(o) + seq![125u8, 44u8], write_objects(tail));
        }
    }
}

// ---------------------------------------------------------------------------
// Dumps: one record per line
// ---------------------------------------------------------------------------

/// A byte that ends a line: `\n` or `\r`.
pub open spec fn ends_line(b: u8) -> bool {
    b == 10 || b == 13
}

/// The first position at or after `i` that ends a line.
pub open spec fn line_end_from(s: Seq<u8>, i: int) -> Option<int>
    decreases s.len() - i,
{
    if i < 0 || i >= s.len() {
        None
    } else if ends_line(s[i]) {
        Some(i)
    } else {
        line_end_from(s, i + 1)
    }
}

pub proof fn lemma_line_end_from(s: Seq<u8>, i: int)
    requires
        0 <= i,
    ensures
        line_end_from(s, i) matches Some(t) ==> i <= t < s.len() && ends_line(s[t]) && forall|k: int|
            i <= k < t ==> !ends_line(#[trigger] s[k]),
        line_end_from(s, i) is None ==> forall|k: int| i <= k < s.len() ==> !ends_line(#[trigger] s[k]),
    decreases s.len() - i,
{
    if i < s.len() && !ends_line(s[i]) {
        lemma_line_end_from(s, i + 1);
    }
}

/// Where the text after a line that ends at `t` starts: `\r\n` ends a line
/// as one.
pub open spec fn after_line_end(s: Seq<u8>, t: int) -> int {
    if s[t] == 13 && t + 1 < s.len() && s[t + 1] == 10 {
        t + 2
    } else {
        t + 1
    }
}

/// The non-empty lines of a text, split at `\n`, `\r` or `\r\n`.
pub open spec fn text_lines(s: Seq<u8>) -> Seq<Seq<u8>>
    decreases s.len(),
{
    if s.len() == 0 {
        Seq::empty()
    } else {
        match line_end_from(s, 0) {
            None => seq![s],
            Some(t) => {
                proof {
                    lemma_line_end_from(s, 0);
                }
                let rest = text_lines(s.subrange(after_line_end(s, t), s.len() as int));
                if t > 0 {
                    seq![s.subrange(0, t)] + rest
                } else {
                    rest
                }
            },
        }
    }
}

/// Reading the lines of a dump: each line into a record, in order, up to the
/// first that fails; records without fields are left out.
pub open spec fn read_records(lines: Seq<Seq<u8>>, opts: DeserializeOptions) -> Result<
    Seq<Seq<(Seq<char>, ValueModel)>>,
    Failure,
>
    decreases lines.len(),
{
    if lines.len() == 0 {
        Ok(Seq::empty())
    } else {
        match read_fields(lines[0], 0, opts) {
            Err(f) => Err(f),
            Ok(fs) => match read_records(lines.subrange(1, lines.len() as int), opts) {
                Err(f) => Err(f),
                Ok(rs) => Ok(
                    if fs.len() == 0 {
                        rs
                    } else {
                        seq![fs] + rs
                    },
                ),
            },
        }
    }
}

/// The text after a UTF-8 byte-order mark, when it starts with one.
pub open spec fn strip_bom(c: Seq<u8>) -> Seq<u8> {
    if c.len() >= 3 && c[0] == 0xEF && c[1] == 0xBB && c[2] == 0xBF {
        c.subrange(3, c.len() as int)
    } else {
        c
    }
}

/// No line of the text that is valid UTF-8 holds a raw payload, to be
/// unpacked, whose Z85 text the decoder does not handle. (A line that is not
/// valid UTF-8 is refused before its fields are read.)
pub open spec fn no_line_aborts(s: Seq<u8>, opts: DeserializeOptions) -> bool {
    forall|i: int|
        0 <= i < text_lines(s).len() && valid_utf8(text_lines(s)[i]) ==> !(#[trigger] read_fields(
            text_lines(s)[i],
            0,
            opts,
        ) matches Err(Failure::Aborts))
}

/// Lines of text, each followed by `\n`.
pub open spec fn lines_text(lines: Seq<Seq<u8>>) -> Seq<u8>
    decreases lines.len(),
{
    if lines.len() == 0 {
        Seq::empty()
    } else {
        lines_text(lines.drop_last()) + lines.last() + seq![10u8]
    }
}

proof fn lemma_line_end_prefix(a: Seq<u8>, b: Seq<u8>, i: int)
    requires
        0 <= i,
        line_end_from(a, i) is Some,
    ensures
        line_end_from(a + b, i) == line_end_from(a, i),
    decreases a.len() - i,
{
    if i < a.len() && !ends_line(a[i]) {
        lemma_line_end_prefix(a, b, i + 1);
    }
    if i < a.len() {
        assert((a + b)[i] == a[i]);
    }
}

/// Splitting into lines a text whose first part ends with `\n` splits each
/// part.
pub proof fn lemma_text_lines_concat(a: Seq<u8>, b: Seq<u8>)
    requires
        a.len() > 0,
        a[a.len() - 1] == 10,
    ensures
        text_lines(a + b) == text_lines(a) + text_lines(b),
    decreases a.len(),
{
    let s = a + b;
    lemma_line_end_from(a, 0);
    lemma_line_end_from(s, 0);
    if line_end_from(a, 0) is None {
        assert(ends_line(a[a.len() - 1]));
    }
    let t = line_end_from(a, 0)->0;
    lemma_line_end_prefix(a, b, 0);
    assert(s[t] == a[t]);
    if t + 1 < a.len() {
        assert(s[t + 1] == a[t + 1]);
    }
    let n = after_line_end(a, t);
    assert(after_line_end(s, t) == n);
    assert(s.subrange(n, s.len() as int) =~= a.subrange(n, a.len() as int) + b);
    if t > 0 {
        assert(s.subrange(0, t) =~= a.subrange(0, t));
    }
    if n == a.len() {
        assert(a.subrange(n, a.len() as int) =~= Seq::<u8>::empty());
        assert(a.subrange(n, a.len() as int) + b =~= b);
        assert(text_lines(a.subrange(n, a.len() as int)) =~= Seq::<Seq<u8>>::empty());
    } else {
        let a2 = a.subrange(n, a.len() as int);
        assert(a2[a2.len() - 1] == a[a.len() - 1]);
        lemma_text_lines_concat(a2, b);
    }
    if t > 0 {
        assert(seq![a.subrange(0, t)] + (text_lines(a.subrange(n, a.len() as int)) + text_lines(b))
            =~= seq![a.subrange(0, t)] + text_lines(a.subrange(n, a.len() as int)) + text_lines(b));
    }
}

/// Reading the lines of two texts one after the other.
pub proof fn lemma_read_records_concat(x: Seq<Seq<u8>>, y: Seq<Seq<u8>>, opts: DeserializeOptions)
    ensures
        read_records(x + y, opts) == match read_records(x, opts) {
            Err(f) => Err(f),
            Ok(rx) => prepend(rx, read_records(y, opts)),
        },
    decreases x.len(),
{
    if x.len() == 0 {
        assert(x + y =~= y);
        lemma_prepend_empty(read_records(y, opts));
    } else {
        let tail = x.subrange(1, x.len() as int);
        assert((x + y)[0] == x[0]);
        assert((x + y).subrange(1, (x + y).len() as int) =~= tail + y);
        lemma_read_records_concat(tail, y, opts);
        if let Ok(fs) = read_fields(x[0], 0, opts) {
            if let Ok(rt) = read_records(tail, opts) {
                if let Ok(ry) = read_records(y, opts) {
                    if fs.len() > 0 {
                        assert(seq![fs] + (rt + ry) =~= (seq![fs] + rt) + ry);
                    }
                }
            }
        }
    }
}

// ---------------------------------------------------------------------------
// Without unpacking, reading never stops
// ---------------------------------------------------------------------------

proof fn lemma_int_items_no_abort(c: Seq<u8>, k: IntKind)
    ensures
        !(read_int_items(c, k) matches Err(Failure::Aborts)),
    decreases c.len(),
{
    if c.len() > 0 {
        let end = value_end(c);
        let tok = c.subrange(0, end);
        if atoi_value(tok, k) is Some {
            let p = skip_comma(c, end);
            if p < c.len() {
                lemma_atoi_nonempty(tok, k);
                lemma_value_end_bound(c);
                lemma_int_items_no_abort(c.subrange(p, c.len() as int), k);
            }
        }
    }
}

proof fn lemma_float_items_no_abort(c: Seq<u8>)
    ensures
        !(read_float_items(c) matches Err(Failure::Aborts)),
    decreases c.len(),
{
    if c.len() > 0 {
        let end = value_end(c);
        let tok = c.subrange(0, end);
        if float_text_ok(tok) {
            let p = skip_comma(c, end);
            if p < c.len() {
                lemma_float_text_nonempty(tok);
                lemma_value_end_bound(c);
                lemma_float_items_no_abort(c.subrange(p, c.len() as int));
            }
        }
    }
}

proof fn lemma_bool_items_no_abort(c: Seq<u8>)
    ensures
        !(read_bool_items(c) matches Err(Failure::Aborts)),
    decreases c.len(),
{
    if c.len() > 0 {
        let end = value_end(c);
        if end != 0 {
            let p = skip_comma(c, end);
            if p < c.len() {
                lemma_value_end_bound(c);
                lemma_bool_items_no_abort(c.subrange(p, c.len() as int));
            }
        }
    }
}

proof fn lemma_string_items_no_abort(c: Seq<u8>)
    ensures
        !(read_string_items(c) matches Err(Failure::Aborts)),
    decreases c.len(),
{
    if c.len() > 0 {
        if let Ok((s, n)) = read_string(c) {
            if 0 < n < c.len() {
                lemma_string_items_no_abort(c.subrange(n, c.len() as int));
            }
        }
    }
}

proof fn lemma_fields_no_abort(s: Seq<u8>, depth: int, opts: DeserializeOptions)
    requires
        !opts.unpack_raw,
    ensures
        !(read_fields(s, depth, opts) matches Err(Failure::Aborts)),
    decreases s.len(), 3int,
{
    if s.len() > 0 {
        if let Some(eq) = first_index_of(s, 61) {
            lemma_find_from(s, 61, 0);
            if eq + 2 < s.len() && s[eq + 2] == 58 && valid_utf8(s.subrange(0, eq)) {
                let rest = s.subrange(eq + 3, s.len() as int);
                lemma_value_no_abort(rest, s[eq + 1], depth, opts);
                if let Ok((v, n)) = read_value(rest, s[eq + 1], depth, opts) {
                    let p = skip_comma(s, eq + 3 + n);
                    if p < s.len() && n >= 0 {
                        lemma_fields_no_abort(s.subrange(p, s.len() as int), depth, opts);
                    }
                }
            }
        }
    }
}

proof fn lemma_value_no_abort(data: Seq<u8>, tc: u8, depth: int, opts: DeserializeOptions)
    requires
        !opts.unpack_raw,
    ensures
        !(read_value(data, tc, depth, opts) matches Err(Failure::Aborts)),
    decreases data.len(), 2int,
{
    if data.len() > 0 {
        if tc == TYPE_OBJECT {
            if data[0] == 123 {
                lemma_object_no_abort(data, depth + 1, opts);
            } else if data[0] == 91 {
                lemma_object_array_no_abort(data, depth + 1, opts);
            }
        } else if data[0] == 91 {
            if let Ok((content, n)) = read_array(data) {
                if let Some(k) = tag_int_kind(tc) {
                    lemma_int_items_no_abort(content, k);
                } else if let Some(k) = tag_float_kind(tc) {
                    lemma_float_items_no_abort(content);
                } else if tc == TYPE_STRING {
                    lemma_string_items_no_abort(content);
                } else if tc == TYPE_BOOL {
                    lemma_bool_items_no_abort(content);
                }
            }
        }
    }
}

proof fn lemma_object_no_abort(data: Seq<u8>, depth: int, opts: DeserializeOptions)
    requires
        !opts.unpack_raw,
    ensures
        !(read_object(data, depth, opts) matches Err(Failure::Aborts)),
    decreases data.len(), 0int,
{
    if depth <= opts.max_depth && data.len() > 0 && data[0] == 123 {
        if let Some(close) = closing(data, 123, 125) {
            lemma_closing_from_bound(data, 0, 0, false, 123, 125);
            lemma_fields_no_abort(data.subrange(1, close), depth, opts);
        }
    }
}

proof fn lemma_object_array_no_abort(data: Seq<u8>, depth: int, opts: DeserializeOptions)
    requires
        !opts.unpack_raw,
    ensures
        !(read_object_array(data, depth, opts) matches Err(Failure::Aborts)),
    decreases data.len(), 1int,
{
    if depth <= opts.max_depth && data.len() > 0 && data[0] == 91 {
        if let Some(close) = closing(data, 91, 93) {
            lemma_closing_from_bound(data, 0, 0, false, 91, 93);
            lemma_objects_no_abort(data.subrange(1, close), depth, opts);
        }
    }
}

proof fn lemma_objects_no_abort(c: Seq<u8>, depth: int, opts: DeserializeOptions)
    requires
        !opts.unpack_raw,
    ensures
        !(read_objects(c, depth, opts) matches Err(Failure::Aborts)),
    decreases c.len(), 1int,
{
    if c.len() > 0 && c[0] == 123 {
        lemma_object_no_abort(c, depth, opts);
        if let Ok((fs, n)) = read_object(c, depth, opts) {
            if 0 < n < c.len() {
                lemma_objects_no_abort(c.subrange(n, c.len() as int), depth, opts);
            }
        }
    }
}

/// Without unpacking raw payloads, reading never stops: a line reads into a
/// record or fails with an error, and no line of a text stops the reader.
pub proof fn lemma_no_aborts_without_unpacking(s: Seq<u8>, opts: DeserializeOptions)
    requires
        !opts.unpack_raw,
    ensures
        !(read_line(s, opts) matches Err(Failure::Aborts)),
        no_line_aborts(s, opts),
{
    lemma_fields_no_abort(s, 0, opts);
    assert forall|i: int| 0 <= i < text_lines(s).len() implies !(#[trigger] read_fields(
        text_lines(s)[i],
        0,
        opts,
    ) matches Err(Failure::Aborts)) by {
        lemma_fields_no_abort(text_lines(s)[i], 0, opts);
    }
}

// ---------------------------------------------------------------------------
// Laws of single values
// ---------------------------------------------------------------------------

/// The text Rust's `Display` gives for a finite floating-point number: an
/// optional minus sign, then decimal digits with at most one point, which
/// stands between two digits (as in `100`, `-0.5`, `1.25`).
pub open spec fn display_number_text(t: Seq<u8>) -> bool {
    let s: int = if t.len() > 0 && t[0] == 45 {
        1
    } else {
        0
    };
    &&& s < t.len()
    &&& 48 <= t[s] <= 57
    &&& 48 <= t[t.len() - 1] <= 57
    &&& forall|i: int| s <= i < t.len() ==> (48 <= #[trigger] t[i] <= 57 || t[i] == 46)
    &&& forall|i: int, j: int| s <= i < j < t.len() && #[trigger] t[i] == 46 ==> #[trigger] t[j] != 46
}

/// The text Rust's `Display` gives for any floating-point value: that of a
/// finite number, or `inf`, `-inf`, `NaN`.
pub open spec fn display_float_text(t: Seq<u8>) -> bool {
    ||| display_number_text(t)
    ||| t == seq![105u8, 110, 102]
    ||| t == seq![45u8, 105, 110, 102]
    ||| t == seq![78u8, 97, 78]
}

/// A run of digits from `i` that stops at `j` has length `j - i`.
proof fn lemma_digit_run_to(s: Seq<u8>, i: int, j: int)
    requires
        0 <= i <= j <= s.len(),
        forall|k: int| i <= k < j ==> is_digit(#[trigger] s[k]),
        j == s.len() || !is_digit(s[j]),
    ensures
        digit_run(s, i) == j - i,
    decreases j - i,
{
    if i < j {
        lemma_digit_run_to(s, i + 1, j);
    }
}

/// No byte from `i` on ends a value: the value runs to the end.
proof fn lemma_value_end_none(s: Seq<u8>, i: int)
    requires
        0 <= i <= s.len(),
        forall|k: int| i <= k < s.len() ==> !ends_value(#[trigger] s[k]),
    ensures
        value_end_from(s, i) == s.len(),
    decreases s.len() - i,
{
    if i < s.len() {
        lemma_value_end_none(s, i + 1);
    }
}

/// Reading the digits and point of a number, past an optional minus sign,
/// stops where a `Display` text `t[..p]` ends; what follows is read as the
/// exponent.
proof fn lemma_number_prefix(t: Seq<u8>, p: int)
    requires
        0 < p <= t.len(),
        display_number_text(t.subrange(0, p)),
        p == t.len() || (!is_digit(t[p]) && t[p] != 46),
    ensures
        t[0] != 43,
        ({
            let s: int = if t[0] == 45 {
                1
            } else {
                0
            };
            number_ok(t.subrange(s, t.len() as int)) == exponent_ok(
                t.subrange(s, t.len() as int),
                p - s,
            )
        }),
{
    let m = t.subrange(0, p);
    assert(m[0] == t[0]);
    let s: int = if t[0] == 45 {
        1
    } else {
        0
    };
    let body = t.subrange(s, t.len() as int);
    let n = p - s;
    assert(m[s] == t[s]);
    assert forall|k: int| 0 <= k < n implies is_digit(#[trigger] body[k]) || body[k] == 46 by {
        assert(body[k] == t[s + k] && m[s + k] == t[s + k]);
    }
    assert(n == body.len() || (!is_digit(body[n]) && body[n] != 46)) by {
        if n < body.len() {
            assert(body[n] == t[p]);
        }
    }
    assert(body[n - 1] == m[p - 1]);
    if exists|q: int| 0 <= q < n && body[q] == 46 {
        let q = choose|q: int| 0 <= q < n && body[q] == 46;
        assert forall|k: int| 0 <= k < n && k != q implies is_digit(#[trigger] body[k]) by {
            assert(body[k] == m[s + k]);
            assert(body[q] == m[s + q]);
            if body[k] == 46 {
                if k < q {
                    assert(m[s + k] == 46 && m[s + q] != 46);
                } else {
                    assert(m[s + q] == 46 && m[s + k] != 46);
                }
            }
        }
        assert(body[0] == m[s]);
        assert(q > 0 && q < n - 1);
        lemma_digit_run_to(body, 0, q);
        lemma_digit_run_to(body, q + 1, n);
    } else {
        assert forall|k: int| 0 <= k < n implies is_digit(#[trigger] body[k]) by {}
        lemma_digit_run_to(body, 0, n);
    }
}

/// Every text that `Display` gives for a floating-point value is accepted as
/// floating-point text.
pub proof fn lemma_display_float_accepted(t: Seq<u8>)
    requires
        display_float_text(t),
    ensures
        float_text_ok(t),
{
    if display_number_text(t) {
        assert(t.subrange(0, t.len() as int) =~= t);
        lemma_number_prefix(t, t.len() as int);
        if t[0] != 45 {
            assert(t.subrange(0, t.len() as int) =~= t);
        }
    } else {
        let inf = seq![105u8, 110, 102];
        let nan = seq![110u8, 97, 110];
        if t == seq![105u8, 110, 102] {
            assert(spells(t, inf));
        } else if t == seq![45u8, 105, 110, 102] {
            assert(t.subrange(1, 4) =~= inf);
            assert(spells(t.subrange(1, 4), inf));
        } else {
            assert(lower(t[0]) == 110 && lower(t[1]) == 97 && lower(t[2]) == 110);
            assert(spells(t, nan));
        }
    }
}

/// The text Rust's `LowerExp` or `UpperExp` gives for a finite
/// floating-point number: a `Display` number text, `e` or `E`, an optional
/// minus sign and one or more digits (as in `1e5`, `-2.5E-7`).
pub open spec fn exp_float_text(t: Seq<u8>, p: int) -> bool {
    let d = if p + 1 < t.len() && t[p + 1] == 45 {
        p + 2
    } else {
        p + 1
    };
    &&& 0 < p < t.len()
    &&& display_number_text(t.subrange(0, p))
    &&& (t[p] == 101 || t[p] == 69)
    &&& d < t.len()
    &&& forall|i: int| d <= i < t.len() ==> 48 <= #[trigger] t[i] <= 57
}

/// Every text that `LowerExp` or `UpperExp` gives for a finite
/// floating-point number is accepted as floating-point text.
pub proof fn lemma_exp_float_accepted(t: Seq<u8>, p: int)
    requires
        exp_float_text(t, p),
    ensures
        float_text_ok(t),
{
    lemma_number_prefix(t, p);
    let s: int = if t[0] == 45 {
        1
    } else {
        0
    };
    let body = t.subrange(s, t.len() as int);
    let e = p - s;
    assert(body[e] == t[p]);
    let d = if e + 1 < body.len() && (body[e + 1] == 43 || body[e + 1] == 45) {
        e + 2
    } else {
        e + 1
    };
    if e + 1 < body.len() {
        assert(body[e + 1] == t[p + 1]);
    }
    assert forall|k: int| d <= k < body.len() implies is_digit(#[trigger] body[k]) by {
        assert(body[k] == t[s + k]);
    }
    lemma_digit_run_to(body, d, body.len() as int);
    assert(exponent_ok(body, e));
    assert(number_ok(body));
    if s == 0 {
        assert(body =~= t);
    }
}

/// A floating-point value whose text is one that `Display` gives reads back
/// as that text, using all of it, whichever floating-point tag it has.
pub proof fn lemma_read_display_float(
    t: Seq<u8>,
    tc: u8,
    k: FloatKind,
    depth: int,
    opts: DeserializeOptions,
)
    requires
        display_float_text(t),
        tag_float_kind(tc) == Some(k),
    ensures
        read_value(t, tc, depth, opts) == Ok::<(ValueModel, int), Failure>(
            (ValueModel::Decimal(k, decode_utf8(t)), t.len() as int),
        ),
{
    lemma_display_float_accepted(t);
    assert forall|i: int| 0 <= i < t.len() implies !ends_value(#[trigger] t[i]) by {
        if display_number_text(t) {
            let s: int = if t.len() > 0 && t[0] == 45 {
                1
            } else {
                0
            };
            if i >= s {
                assert(48 <= t[i] <= 57 || t[i] == 46);
            }
        }
    }
    lemma_value_end_none(t, 0);
    assert(t.subrange(0, t.len() as int) =~= t);
    assert(t.len() > 0);
    assert(t[0] != 91);
}

/// A floating-point value whose text is one that `LowerExp` or `UpperExp`
/// gives reads back as that text, using all of it.
pub proof fn lemma_read_exp_float(
    t: Seq<u8>,
    p: int,
    tc: u8,
    k: FloatKind,
    depth: int,
    opts: DeserializeOptions,
)
    requires
        exp_float_text(t, p),
        tag_float_kind(tc) == Some(k),
    ensures
        read_value(t, tc, depth, opts) == Ok::<(ValueModel, int), Failure>(
            (ValueModel::Decimal(k, decode_utf8(t)), t.len() as int),
        ),
{
    lemma_exp_float_accepted(t, p);
    let m = t.subrange(0, p);
    assert forall|i: int| 0 <= i < t.len() implies !ends_value(#[trigger] t[i]) by {
        if i < p {
            assert(m[i] == t[i]);
            let s: int = if m[0] == 45 {
                1
            } else {
                0
            };
            if i >= s {
                assert(48 <= m[i] <= 57 || m[i] == 46);
            }
        }
    }
    lemma_value_end_none(t, 0);
    assert(t.subrange(0, t.len() as int) =~= t);
    assert(t[0] == m[0]);
    assert(t[0] != 91);
}

/// A floating-point value is written as its text, unchanged, whatever the
/// text; and where that text is one `Display` gives, the value is one the
/// format carries and reads back as itself, using the whole text.
pub proof fn lemma_decimal_written_as_its_text(
    k: FloatKind,
    t: Seq<char>,
    depth: int,
    opts: DeserializeOptions,
)
    ensures
        write_value(ValueModel::Decimal(k, t)) == encode_utf8(t),
        display_float_text(encode_utf8(t)) ==> float_text_ok(encode_utf8(t)) && read_value(
            write_value(ValueModel::Decimal(k, t)),
            tag_of(ValueModel::Decimal(k, t)),
            depth,
            opts,
        ) == Ok::<(ValueModel, int), Failure>(
            (ValueModel::Decimal(k, t), encode_utf8(t).len() as int),
        ),
{
    if display_float_text(encode_utf8(t)) {
        lemma_display_float_accepted(encode_utf8(t));
        lemma_read_display_float(encode_utf8(t), tag_of(ValueModel::Decimal(k, t)), k, depth, opts);
        encode_utf8_decode_utf8(t);
    }
}

/// A boolean reads as true exactly when its text does not start with `0`
/// (a text that starts with `[` is an array instead); it is written as `1`
/// or `0`.
pub proof fn lemma_read_bool(data: Seq<u8>, b: bool, depth: int, opts: DeserializeOptions)
    requires
        data.len() > 0,
        data[0] != 91,
    ensures
        read_value(data, TYPE_BOOL, depth, opts) matches Ok((ValueModel::Bool(r), _)) && r == (
        data[0] != 48),
        write_value(ValueModel::Bool(b)) == seq![if b {
            49u8
        } else {
            48u8
        }],
{
}

} // verus!

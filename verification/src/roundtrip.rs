//! Reading back what was written: the text that `write_fields` makes of a
//! record reads back, with `read_line`, as the same record, and the text of
//! a dump reads back as its records.
//!
//! The laws hold for records whose keys, strings, numbers and raw payloads
//! the format carries (see `writable_fields`), nested no deeper than the
//! reader allows; raw payloads come back in the form the reader gives them.

use vstd::prelude::*;
use vstd::utf8::*;

use crate::deserialize::DeserializeOptions;
use crate::format::{
    after_line_end, atoi_value, bool_text, closing, closing_from, decimal, decimal_digits,
    digit_run, digits_value, ends_line, ends_value, escape, escape_byte, exponent_ok, find_from,
    first_index_of, float_text_ok, hex_digit, is_digit, is_quote_at, join_items,
    lemma_escape_concat, lemma_read_records_concat, lemma_text_lines_concat, lemma_value_end_bound,
    line_end_from, lines_text, lower, no_line_aborts, number_ok, quote_end, quote_end_from, quoted,
    raw_text, read_array, read_bool_items, read_fields, read_float_items, read_int_items, read_line,
    read_object, read_object_array, read_objects, read_records, read_string, read_string_items,
    read_value, skip_comma, spells, strip_bom, tag_float_kind, tag_int_kind, text_lines, unescape,
    unescape_byte, value_end, write_field, write_fields, write_objects, write_value, Failure,
};
use crate::raw_data::{
    lemma_unpack_pack, lemma_z85_encode_shape, spec_pack, spec_unpack, z85_misread, RawModel,
    UnpackOutcome,
};
use crate::serialize::{ids_in_order, lemma_lines_text_valid, texts_in_order};
use crate::text::lemma_ascii_valid_utf8;
use crate::types::{float_tag, int_max, int_min, int_tag, tag_of, IntKind, ValueModel};

verus! {

// ---------------------------------------------------------------------------
// What the format carries unchanged
// ---------------------------------------------------------------------------

/// A byte that may stand in a key: not `=`, `"`, `{`, `}`, `[` or `]`.
pub open spec fn key_byte_ok(b: u8) -> bool {
    b != 61 && b != 34 && b != 123 && b != 125 && b != 91 && b != 93
}

/// A key that reads back as itself: none of the bytes above, and it does not
/// start with a comma.
pub open spec fn key_ok(k: Seq<char>) -> bool {
    &&& forall|i: int| 0 <= i < encode_utf8(k).len() ==> key_byte_ok(#[trigger] encode_utf8(k)[i])
    &&& encode_utf8(k).len() > 0 ==> encode_utf8(k)[0] != 44
}

/// A byte of a string that reads back as itself after escaping: any byte but
/// the control bytes that have no letter escape.
pub open spec fn text_byte_ok(b: u8) -> bool {
    b >= 32 || b == 8 || b == 9 || b == 10 || b == 12 || b == 13
}

/// A string that reads back as itself: only the bytes above, and it does not
/// end with a backslash.
pub open spec fn text_ok(s: Seq<char>) -> bool {
    &&& forall|i: int|
        0 <= i < encode_utf8(s).len() ==> text_byte_ok(#[trigger] encode_utf8(s)[i])
    &&& encode_utf8(s).len() > 0 ==> encode_utf8(s)[encode_utf8(s).len() - 1] != 92
}

/// A raw payload that the format carries: held in one form only; its text,
/// when it is held as text, has no double quote and no backslash; and, when
/// the reader unpacks, its Z85 text is read correctly (bytes that are not
/// misread, or text that decodes).
pub open spec fn raw_ok(m: RawModel, unpack: bool) -> bool {
    &&& m.data.len() == 0 || m.encoded.len() == 0
    &&& forall|i: int|
        0 <= i < encode_utf8(m.encoded).len() ==> #[trigger] encode_utf8(m.encoded)[i] != 34
            && encode_utf8(m.encoded)[i] != 92
    &&& unpack ==> if m.data.len() > 0 {
        !z85_misread(m.data)
    } else {
        spec_unpack(m) is Done
    }
}

/// The form a written raw payload is read back in: unpacked when the reader
/// unpacks, packed otherwise.
pub open spec fn raw_read_back(m: RawModel, unpack: bool) -> RawModel {
    if !unpack {
        spec_pack(m)
    } else if m.data.len() > 0 {
        m
    } else {
        match spec_unpack(m) {
            UnpackOutcome::Done(u) => u,
            _ => m,
        }
    }
}

/// What a written value is read back as: itself, with its raw payloads (at
/// any depth) in the form the reader gives them.
pub open spec fn read_back_value(v: ValueModel, unpack: bool) -> ValueModel
    decreases v,
{
    match v {
        ValueModel::Raw(m) => ValueModel::Raw(raw_read_back(m, unpack)),
        ValueModel::Object(fs) => ValueModel::Object(read_back_fields(fs, unpack)),
        ValueModel::Objects(os) => ValueModel::Objects(read_back_objects(os, unpack)),
        _ => v,
    }
}

/// What written fields are read back as (see `read_back_value`).
pub open spec fn read_back_fields(fs: Seq<(Seq<char>, ValueModel)>, unpack: bool) -> Seq<
    (Seq<char>, ValueModel),
>
    decreases fs,
{
    if fs.len() == 0 {
        Seq::empty()
    } else {
        seq![(fs[0].0, read_back_value(fs[0].1, unpack))] + read_back_fields(
            fs.subrange(1, fs.len() as int),
            unpack,
        )
    }
}

/// What the written records of an object array are read back as.
pub open spec fn read_back_objects(os: Seq<Seq<(Seq<char>, ValueModel)>>, unpack: bool) -> Seq<
    Seq<(Seq<char>, ValueModel)>,
>
    decreases os,
{
    if os.len() == 0 {
        Seq::empty()
    } else {
        seq![read_back_fields(os[0], unpack)] + read_back_objects(
            os.subrange(1, os.len() as int),
            unpack,
        )
    }
}

/// A value, at nesting depth `depth`, that the format carries: integers in
/// their kind's range, floating-point text that std reads, strings, raw
/// payloads and keys as above, and nested records no deeper than
/// `opts.max_depth`.
pub open spec fn writable_value(v: ValueModel, depth: int, opts: DeserializeOptions) -> bool
    decreases v,
{
    match v {
        ValueModel::Integer(k, x) => int_min(k) <= x <= int_max(k),
        ValueModel::Decimal(_, t) => float_text_ok(encode_utf8(t)),
        ValueModel::Bool(_) => true,
        ValueModel::Text(s) => text_ok(s),
        ValueModel::Raw(m) => raw_ok(m, opts.unpack_raw),
        ValueModel::Object(fs) => depth + 1 <= opts.max_depth && writable_fields(
            fs,
            depth + 1,
            opts,
        ),
        ValueModel::Integers(k, xs) => forall|i: int|
            0 <= i < xs.len() ==> int_min(k) <= #[trigger] xs[i] <= int_max(k),
        ValueModel::Decimals(_, ts) => forall|i: int|
            0 <= i < ts.len() ==> float_text_ok(encode_utf8(#[trigger] ts[i])),
        ValueModel::Bools(_) => true,
        ValueModel::Texts(ss) => forall|i: int| 0 <= i < ss.len() ==> text_ok(#[trigger] ss[i]),
        ValueModel::Objects(os) => depth + 1 <= opts.max_depth && forall|i: int|
            0 <= i < os.len() ==> writable_fields(#[trigger] os[i], depth + 1, opts),
    }
}

/// The fields of a record, at nesting depth `depth`, that the format
/// carries.
pub open spec fn writable_fields(
    fs: Seq<(Seq<char>, ValueModel)>,
    depth: int,
    opts: DeserializeOptions,
) -> bool
    decreases fs,
{
    forall|i: int|
        0 <= i < fs.len() ==> key_ok(#[trigger] fs[i].0) && writable_value(fs[i].1, depth, opts)
}

// ---------------------------------------------------------------------------
// Positions in a byte sequence
// ---------------------------------------------------------------------------

/// `w` stands in `s` from position `i`.
pub open spec fn occurs_at(s: Seq<u8>, i: int, w: Seq<u8>) -> bool {
    0 <= i && i + w.len() <= s.len() && s.subrange(i, i + w.len()) == w
}

proof fn lemma_occurs_split(s: Seq<u8>, i: int, a: Seq<u8>, b: Seq<u8>)
    requires
        occurs_at(s, i, a + b),
    ensures
        occurs_at(s, i, a),
        occurs_at(s, i + a.len(), b),
{
    assert(s.subrange(i, i + a.len()) =~= (a + b).subrange(0, a.len() as int));
    assert((a + b).subrange(0, a.len() as int) =~= a);
    assert(s.subrange(i + a.len(), i + a.len() + b.len()) =~= (a + b).subrange(
        a.len() as int,
        (a + b).len() as int,
    ));
    assert((a + b).subrange(a.len() as int, (a + b).len() as int) =~= b);
}

proof fn lemma_occurs_index(s: Seq<u8>, i: int, w: Seq<u8>)
    requires
        occurs_at(s, i, w),
    ensures
        forall|t: int| 0 <= t < w.len() ==> s[i + t] == #[trigger] w[t],
{
    assert forall|t: int| 0 <= t < w.len() implies s[i + t] == #[trigger] w[t] by {
        assert(s.subrange(i, i + w.len())[t] == s[i + t]);
    }
}

// ---------------------------------------------------------------------------
// Scanning for a closing bracket over written text
// ---------------------------------------------------------------------------

/// The pairs of brackets that the reader matches.
pub open spec fn bracket_pair(o: u8, c: u8) -> bool {
    (o == 123 && c == 125) || (o == 91 && c == 93)
}

/// Scanning from `i` outside a string, at any positive depth, finds what
/// scanning from `j` finds: the bytes between leave the scan as it was.
pub open spec fn neutral(s: Seq<u8>, i: int, j: int, o: u8, c: u8) -> bool {
    &&& 0 <= i <= j <= s.len()
    &&& forall|d: int|
        d >= 1 ==> #[trigger] closing_from(s, i, d, false, o, c) == closing_from(
            s,
            j,
            d,
            false,
            o,
            c,
        )
}

proof fn lemma_neutral_concat(s: Seq<u8>, i: int, j: int, k: int, o: u8, c: u8)
    requires
        neutral(s, i, j, o, c),
        neutral(s, j, k, o, c),
    ensures
        neutral(s, i, k, o, c),
{
    assert forall|d: int| d >= 1 implies #[trigger] closing_from(s, i, d, false, o, c)
        == closing_from(s, k, d, false, o, c) by {
        assert(closing_from(s, i, d, false, o, c) == closing_from(s, j, d, false, o, c));
        assert(closing_from(s, j, d, false, o, c) == closing_from(s, k, d, false, o, c));
    }
}

/// No double quote and no bracket of either kind.
pub open spec fn plain_bytes(w: Seq<u8>) -> bool {
    forall|t: int|
        0 <= t < w.len() ==> #[trigger] w[t] != 34 && w[t] != 123 && w[t] != 125 && w[t] != 91
            && w[t] != 93
}

proof fn lemma_plain_neutral(s: Seq<u8>, i: int, j: int, o: u8, c: u8)
    requires
        0 <= i <= j <= s.len(),
        bracket_pair(o, c),
        forall|k: int| i <= k < j ==> #[trigger] s[k] != 34 && s[k] != o && s[k] != c,
    ensures
        neutral(s, i, j, o, c),
    decreases j - i,
{
    if i < j {
        lemma_plain_neutral(s, i + 1, j, o, c);
        assert forall|d: int| d >= 1 implies #[trigger] closing_from(s, i, d, false, o, c)
            == closing_from(s, j, d, false, o, c) by {
            assert(s[i] != 34);
            assert(closing_from(s, i, d, false, o, c) == closing_from(s, i + 1, d, false, o, c));
        }
    }
}

proof fn lemma_plain_text_neutral(s: Seq<u8>, i: int, w: Seq<u8>, o: u8, c: u8)
    requires
        occurs_at(s, i, w),
        plain_bytes(w),
        bracket_pair(o, c),
    ensures
        neutral(s, i, i + w.len(), o, c),
{
    lemma_occurs_index(s, i, w);
    assert forall|k: int| i <= k < i + w.len() implies #[trigger] s[k] != 34 && s[k] != o && s[k]
        != c by {
        assert(s[i + (k - i)] == w[k - i]);
    }
    lemma_plain_neutral(s, i, i + w.len(), o, c);
}

proof fn lemma_in_string(s: Seq<u8>, i: int, j: int, d: int, o: u8, c: u8)
    requires
        0 <= i <= j <= s.len(),
        forall|k: int| i <= k < j ==> !#[trigger] is_quote_at(s, k),
    ensures
        closing_from(s, i, d, true, o, c) == closing_from(s, j, d, true, o, c),
    decreases j - i,
{
    if i < j {
        assert(!is_quote_at(s, i));
        lemma_in_string(s, i + 1, j, d, o, c);
    }
}

/// A string between double quotes, with no unescaped quote inside, leaves
/// the scan as it was.
proof fn lemma_quoted_neutral(s: Seq<u8>, i: int, j: int, o: u8, c: u8)
    requires
        0 <= i,
        i + 2 <= j <= s.len(),
        bracket_pair(o, c),
        s[i] == 34,
        i == 0 || s[i - 1] != 92,
        forall|k: int| i < k < j - 1 ==> !#[trigger] is_quote_at(s, k),
        s[j - 1] == 34,
        s[j - 2] != 92,
    ensures
        neutral(s, i, j, o, c),
{
    assert(is_quote_at(s, i));
    assert(is_quote_at(s, j - 1));
    assert forall|d: int| d >= 1 implies #[trigger] closing_from(s, i, d, false, o, c)
        == closing_from(s, j, d, false, o, c) by {
        lemma_in_string(s, i + 1, j - 1, d, o, c);
        assert(closing_from(s, i, d, false, o, c) == closing_from(s, i + 1, d, true, o, c));
        assert(closing_from(s, j - 1, d, true, o, c) == closing_from(s, j, d, false, o, c));
    }
}

/// A bracketed segment whose inside leaves the scan as it was leaves it as
/// it was too.
proof fn lemma_nested_neutral(s: Seq<u8>, i: int, j: int, o: u8, c: u8)
    requires
        bracket_pair(o, c),
        0 <= i,
        i + 2 <= j <= s.len(),
        s[i] == o,
        s[j - 1] == c,
        neutral(s, i + 1, j - 1, o, c),
    ensures
        neutral(s, i, j, o, c),
{
    assert forall|d: int| d >= 1 implies #[trigger] closing_from(s, i, d, false, o, c)
        == closing_from(s, j, d, false, o, c) by {
        assert(!is_quote_at(s, i));
        assert(closing_from(s, i, d, false, o, c) == closing_from(s, i + 1, d + 1, false, o, c));
        assert(closing_from(s, i + 1, d + 1, false, o, c) == closing_from(
            s,
            j - 1,
            d + 1,
            false,
            o,
            c,
        ));
        assert(!is_quote_at(s, j - 1));
        assert(closing_from(s, j - 1, d + 1, false, o, c) == closing_from(s, j, d, false, o, c));
    }
}

/// The closing bracket of a bracketed segment at the start of `s`.
proof fn lemma_closing_at_start(s: Seq<u8>, j: int, o: u8, c: u8)
    requires
        bracket_pair(o, c),
        2 <= j <= s.len(),
        s[0] == o,
        s[j - 1] == c,
        neutral(s, 1, j - 1, o, c),
    ensures
        closing(s, o, c) == Some(j - 1),
{
    assert(!is_quote_at(s, 0));
    assert(closing_from(s, 0, 0, false, o, c) == closing_from(s, 1, 1, false, o, c));
    assert(closing_from(s, 1, 1, false, o, c) == closing_from(s, j - 1, 1, false, o, c));
    assert(!is_quote_at(s, j - 1));
}

// ---------------------------------------------------------------------------
// Numbers
// ---------------------------------------------------------------------------

proof fn lemma_decimal_digits(n: nat)
    ensures
        decimal_digits(n).len() >= 1,
        forall|i: int| 0 <= i < decimal_digits(n).len() ==> is_digit(#[trigger] decimal_digits(n)[i]),
        digits_value(decimal_digits(n)) == n,
    decreases n,
{
    if n >= 10 {
        lemma_decimal_digits(n / 10);
        let d = decimal_digits(n);
        let p = decimal_digits(n / 10);
        assert(d.subrange(0, d.len() - 1) =~= p);
        assert(d[d.len() - 1] == (48 + n % 10) as u8);
        assert forall|i: int| 0 <= i < d.len() implies is_digit(#[trigger] d[i]) by {
            if i < p.len() {
                assert(d[i] == p[i]);
            }
        }
        assert(digits_value(d) == digits_value(p) * 10 + (d[d.len() - 1] - 48));
        assert((n / 10) * 10 + n % 10 == n) by (nonlinear_arith);
    } else {
        let d = decimal_digits(n);
        assert(d.subrange(0, 0) =~= Seq::<u8>::empty());
        assert(digits_value(Seq::<u8>::empty()) == 0);
        assert(digits_value(d) == digits_value(d.subrange(0, 0)) * 10 + (d[0] - 48));
    }
}

proof fn lemma_digit_run_to_end(s: Seq<u8>, from: int)
    requires
        0 <= from <= s.len(),
        forall|j: int| from <= j < s.len() ==> is_digit(#[trigger] s[j]),
    ensures
        digit_run(s, from) == s.len() - from,
    decreases s.len() - from,
{
    if from < s.len() {
        lemma_digit_run_to_end(s, from + 1);
    }
}

proof fn lemma_digit_run(s: Seq<u8>, from: int)
    requires
        0 <= from,
    ensures
        digit_run(s, from) >= 0,
        digit_run(s, from) > 0 ==> from + digit_run(s, from) <= s.len(),
        forall|j: int| from <= j < from + digit_run(s, from) ==> is_digit(#[trigger] s[j]),
    decreases s.len() - from,
{
    if 0 <= from < s.len() && is_digit(s[from]) {
        lemma_digit_run(s, from + 1);
    }
}

/// A byte of a decimal integer: a digit or a minus sign.
pub open spec fn decimal_byte(b: u8) -> bool {
    is_digit(b) || b == 45
}

proof fn lemma_decimal_bytes(x: int)
    ensures
        decimal(x).len() >= 1,
        forall|i: int| 0 <= i < decimal(x).len() ==> decimal_byte(#[trigger] decimal(x)[i]),
{
    let m: nat = if x < 0 {
        (-x) as nat
    } else {
        x as nat
    };
    lemma_decimal_digits(m);
    let d = decimal_digits(m);
    if x < 0 {
        assert forall|i: int| 0 <= i < decimal(x).len() implies decimal_byte(
            #[trigger] decimal(x)[i],
        ) by {
            if i > 0 {
                assert(decimal(x)[i] == d[i - 1]);
            }
        }
    }
}

/// The decimal text of an integer in a kind's range reads back as it.
proof fn lemma_atoi_decimal(x: int, k: IntKind)
    requires
        int_min(k) <= x <= int_max(k),
    ensures
        atoi_value(decimal(x), k) == Some(x),
{
    let m: nat = if x < 0 {
        (-x) as nat
    } else {
        x as nat
    };
    let d = decimal_digits(m);
    lemma_decimal_digits(m);
    let t = decimal(x);
    let sign: int = if x < 0 {
        1
    } else {
        0
    };
    assert(t.subrange(sign, t.len() as int) =~= d);
    if x >= 0 {
        assert(is_digit(t[0]));
    }
    assert forall|j: int| sign <= j < t.len() implies is_digit(#[trigger] t[j]) by {
        assert(t[j] == d[j - sign]);
    }
    lemma_digit_run_to_end(t, sign);
}

/// A byte of floating-point text: a digit, a sign, a point or a letter.
pub open spec fn float_byte(b: u8) -> bool {
    is_digit(b) || b == 43 || b == 45 || b == 46 || (65 <= b <= 90) || (97 <= b <= 122)
}

proof fn lemma_exponent_bytes(s: Seq<u8>, from: int)
    requires
        0 <= from,
        exponent_ok(s, from),
    ensures
        forall|j: int| from <= j < s.len() ==> float_byte(#[trigger] s[j]),
{
    if from < s.len() {
        let d = if from + 1 < s.len() && (s[from + 1] == 43 || s[from + 1] == 45) {
            from + 2
        } else {
            from + 1
        };
        lemma_digit_run(s, d);
        assert forall|j: int| from <= j < s.len() implies float_byte(#[trigger] s[j]) by {
            if j == from {
                assert(lower(s[from]) == 101);
            } else if j >= d {
                assert(is_digit(s[j]));
            }
        }
    }
}

proof fn lemma_spelled_bytes(s: Seq<u8>, w: Seq<u8>)
    requires
        spells(s, w),
        forall|j: int| 0 <= j < w.len() ==> 97 <= #[trigger] w[j] <= 122,
    ensures
        forall|i: int| 0 <= i < s.len() ==> float_byte(#[trigger] s[i]),
{
    assert forall|i: int| 0 <= i < s.len() implies float_byte(#[trigger] s[i]) by {
        assert(lower(s[i]) == w[i]);
        assert(97 <= w[i] <= 122);
    }
}

proof fn lemma_number_bytes(s: Seq<u8>)
    requires
        number_ok(s),
    ensures
        forall|i: int| 0 <= i < s.len() ==> float_byte(#[trigger] s[i]),
{
    let i0 = digit_run(s, 0);
    lemma_digit_run(s, 0);
    if i0 < s.len() && s[i0] == 46 {
        let f = digit_run(s, i0 + 1);
        lemma_digit_run(s, i0 + 1);
        lemma_exponent_bytes(s, i0 + 1 + f);
        assert forall|i: int| 0 <= i < s.len() implies float_byte(#[trigger] s[i]) by {
            if i < i0 {
                assert(is_digit(s[i]));
            } else if i == i0 {
            } else if i < i0 + 1 + f {
                assert(is_digit(s[i]));
            }
        }
    } else {
        lemma_exponent_bytes(s, i0);
        assert forall|i: int| 0 <= i < s.len() implies float_byte(#[trigger] s[i]) by {
            if i < i0 {
                assert(is_digit(s[i]));
            }
        }
    }
}

/// Floating-point text that std reads holds only digits, signs, points and
/// letters.
proof fn lemma_float_bytes(t: Seq<u8>)
    requires
        float_text_ok(t),
    ensures
        t.len() > 0,
        forall|i: int| 0 <= i < t.len() ==> float_byte(#[trigger] t[i]),
{
    crate::format::lemma_float_text_nonempty(t);
    let signed = t.len() > 0 && (t[0] == 43 || t[0] == 45);
    let body = if signed {
        t.subrange(1, t.len() as int)
    } else {
        t
    };
    let w1 = seq![105u8, 110, 102];
    let w2 = seq![105u8, 110, 102, 105, 110, 105, 116, 121];
    let w3 = seq![110u8, 97, 110];
    assert forall|j: int| 0 <= j < w1.len() implies 97 <= #[trigger] w1[j] <= 122 by {
        if j == 0 {} else if j == 1 {} else {}
    }
    assert forall|j: int| 0 <= j < w2.len() implies 97 <= #[trigger] w2[j] <= 122 by {
        if j == 0 {} else if j == 1 {} else if j == 2 {} else if j == 3 {} else if j == 4 {}
        else if j == 5 {} else if j == 6 {} else {}
    }
    assert forall|j: int| 0 <= j < w3.len() implies 97 <= #[trigger] w3[j] <= 122 by {
        if j == 0 {} else if j == 1 {} else {}
    }
    if spells(body, w1) {
        lemma_spelled_bytes(body, w1);
    } else if spells(body, w2) {
        lemma_spelled_bytes(body, w2);
    } else if spells(body, w3) {
        lemma_spelled_bytes(body, w3);
    } else {
        lemma_number_bytes(body);
    }
    assert forall|i: int| 0 <= i < t.len() implies float_byte(#[trigger] t[i]) by {
        if signed && i > 0 {
            assert(t[i] == body[i - 1]);
        } else if !signed {
            assert(t[i] == body[i]);
        }
    }
}

// ---------------------------------------------------------------------------
// Strings
// ---------------------------------------------------------------------------

/// The text of a string between its quotes: it starts and ends with a
/// double quote, the closing one has no backslash before it, and every
/// double quote inside has a backslash before it.
pub open spec fn quote_safe(q: Seq<u8>) -> bool {
    &&& q.len() >= 2
    &&& q[0] == 34
    &&& q[q.len() - 1] == 34
    &&& q[q.len() - 2] != 92
    &&& forall|k: int| 1 <= k < q.len() - 1 && #[trigger] q[k] == 34 ==> q[k - 1] == 92
}

proof fn lemma_escape_byte_shape(c: u8)
    ensures
        escape_byte(c).len() >= 1,
        forall|k: int|
            0 <= k < escape_byte(c).len() && #[trigger] escape_byte(c)[k] == 34 ==> k >= 1
                && escape_byte(c)[k - 1] == 92,
        c != 92 ==> escape_byte(c)[escape_byte(c).len() - 1] != 92,
{
    assert(hex_digit(c as int / 16) != 34 && hex_digit(c as int / 16) != 92);
    assert(hex_digit(c as int % 16) != 34 && hex_digit(c as int % 16) != 92);
}

proof fn lemma_escape_quotes(b: Seq<u8>)
    ensures
        forall|k: int|
            0 <= k < escape(b).len() && #[trigger] escape(b)[k] == 34 ==> k >= 1 && escape(b)[k
                - 1] == 92,
    decreases b.len(),
{
    if b.len() > 0 {
        let rest = b.subrange(1, b.len() as int);
        let eb = escape_byte(b[0]);
        lemma_escape_quotes(rest);
        lemma_escape_byte_shape(b[0]);
        let e = escape(b);
        assert(e == eb + escape(rest));
        assert forall|k: int| 0 <= k < e.len() && #[trigger] e[k] == 34 implies k >= 1 && e[k - 1]
            == 92 by {
            if k < eb.len() {
                assert(e[k] == eb[k]);
                assert(e[k - 1] == eb[k - 1]);
            } else {
                assert(e[k] == escape(rest)[k - eb.len()]);
                if k - eb.len() >= 1 {
                    assert(e[k - 1] == escape(rest)[k - 1 - eb.len()]);
                }
            }
        }
    }
}

proof fn lemma_escape_last(b: Seq<u8>)
    requires
        b.len() > 0,
        b[b.len() - 1] != 92,
    ensures
        escape(b).len() > 0,
        escape(b)[escape(b).len() - 1] != 92,
{
    let n = b.len() - 1;
    let head = b.subrange(0, n);
    let one = seq![b[n]];
    assert(b =~= head + one);
    lemma_escape_concat(head, one);
    assert(one.subrange(1, 1) =~= Seq::<u8>::empty());
    assert(escape(one) == escape_byte(one[0]) + escape(one.subrange(1, 1)));
    assert(escape(one) =~= escape_byte(b[n]));
    lemma_escape_byte_shape(b[n]);
    let e = escape(b);
    assert(e[e.len() - 1] == escape_byte(b[n])[escape_byte(b[n]).len() - 1]);
}

/// Escaping, then reading the escapes, gives the bytes back.
proof fn lemma_unescape_escape(b: Seq<u8>)
    requires
        forall|i: int| 0 <= i < b.len() ==> text_byte_ok(#[trigger] b[i]),
    ensures
        unescape(escape(b)) == b,
    decreases b.len(),
{
    if b.len() > 0 {
        let rest = b.subrange(1, b.len() as int);
        assert forall|i: int| 0 <= i < rest.len() implies text_byte_ok(#[trigger] rest[i]) by {
            assert(rest[i] == b[i + 1]);
        }
        lemma_unescape_escape(rest);
        let c = b[0];
        assert(text_byte_ok(b[0]));
        let eb = escape_byte(c);
        let x = escape(rest);
        let e = eb + x;
        assert(escape(b) == e);
        if eb.len() == 2 {
            assert(e[0] == 92);
            assert(e.subrange(2, e.len() as int) =~= x);
            assert(unescape_byte(eb[1]) == c);
            assert(unescape(e) == seq![c] + unescape(x));
        } else {
            assert(eb =~= seq![c]);
            assert(e[0] == c);
            assert(c != 92);
            assert(e.subrange(1, e.len() as int) =~= x);
            assert(unescape(e) == seq![c] + unescape(x));
        }
        assert(seq![c] + rest =~= b);
    }
}

proof fn lemma_unescape_plain(b: Seq<u8>)
    requires
        forall|i: int| 0 <= i < b.len() ==> #[trigger] b[i] != 92,
    ensures
        unescape(b) == b,
    decreases b.len(),
{
    if b.len() > 0 {
        let rest = b.subrange(1, b.len() as int);
        assert forall|i: int| 0 <= i < rest.len() implies #[trigger] rest[i] != 92 by {
            assert(rest[i] == b[i + 1]);
        }
        lemma_unescape_plain(rest);
        assert(b[0] != 92);
        assert(seq![b[0]] + rest =~= b);
    }
}

/// A string that reads back as itself is written with safe quotes, and its
/// escapes read back as its bytes.
proof fn lemma_quoted_safe(s: Seq<char>)
    requires
        text_ok(s),
    ensures
        quote_safe(quoted(s)),
        quoted(s) == seq![34u8] + escape(encode_utf8(s)) + seq![34u8],
        unescape(escape(encode_utf8(s))) == encode_utf8(s),
{
    let b = encode_utf8(s);
    let e = escape(b);
    let q = quoted(s);
    lemma_escape_quotes(b);
    lemma_unescape_escape(b);
    assert(q.len() == e.len() + 2);
    assert forall|k: int| 1 <= k < q.len() - 1 && #[trigger] q[k] == 34 implies q[k - 1] == 92 by {
        assert(q[k] == e[k - 1]);
        assert(q[k - 1] == e[k - 2]);
    }
    if b.len() > 0 {
        lemma_escape_last(b);
        assert(q[q.len() - 2] == e[e.len() - 1]);
    } else {
        assert(e.len() == 0);
    }
}

/// A raw payload that the format carries is written with safe quotes, and
/// its text is valid UTF-8 with no backslash.
proof fn lemma_raw_safe(m: RawModel, unpack: bool)
    requires
        raw_ok(m, unpack),
    ensures
        quote_safe(seq![34u8] + raw_text(m) + seq![34u8]),
        unescape(raw_text(m)) == raw_text(m),
        valid_utf8(raw_text(m)),
{
    let t = raw_text(m);
    if m.encoded.len() > 0 {
        encode_utf8_valid_utf8(m.encoded);
    } else if m.data.len() > 0 {
        lemma_z85_encode_shape(m.data);
        lemma_ascii_valid_utf8(t);
    } else {
        lemma_ascii_valid_utf8(t);
    }
    assert forall|i: int| 0 <= i < t.len() implies #[trigger] t[i] != 34 && t[i] != 92 by {
        if m.encoded.len() == 0 && m.data.len() > 0 {
            lemma_z85_encode_shape(m.data);
        }
    }
    lemma_unescape_plain(t);
    let q = seq![34u8] + t + seq![34u8];
    assert forall|k: int| 1 <= k < q.len() - 1 && #[trigger] q[k] == 34 implies q[k - 1] == 92 by {
        assert(q[k] == t[k - 1]);
    }
    if t.len() > 0 {
        assert(q[q.len() - 2] == t[t.len() - 1]);
    }
}

proof fn lemma_quote_end_at(s: Seq<u8>, i: int, e: int)
    requires
        1 <= i <= e < s.len(),
        s[e] == 34 && s[e - 1] != 92,
        forall|k: int| i <= k < e ==> !(#[trigger] s[k] == 34 && s[k - 1] != 92),
    ensures
        quote_end_from(s, i) == e,
    decreases e - i,
{
    if i < e {
        assert(!(s[i] == 34 && s[i - 1] != 92));
        lemma_quote_end_at(s, i + 1, e);
    }
}

/// Reading a string written with safe quotes: its inside, and the bytes used
/// with a comma that follows.
proof fn lemma_read_safe_quoted(q: Seq<u8>, rest: Seq<u8>)
    requires
        quote_safe(q),
        rest.len() == 0 || rest[0] == 44,
    ensures
        quote_end(q + rest) == q.len() - 1,
        skip_comma(q + rest, q.len() as int) == q.len() + if rest.len() > 0 {
            1int
        } else {
            0int
        },
        (q + rest).subrange(1, q.len() - 1) == q.subrange(1, q.len() - 1),
{
    let d = q + rest;
    assert forall|k: int| 1 <= k < q.len() - 1 implies !(#[trigger] d[k] == 34 && d[k - 1] != 92) by {
        assert(d[k] == q[k]);
        assert(d[k - 1] == q[k - 1]);
    }
    lemma_quote_end_at(d, 1, q.len() - 1);
    assert(d.subrange(1, q.len() - 1) =~= q.subrange(1, q.len() - 1));
}

/// A string written with safe quotes leaves the bracket scan as it was.
proof fn lemma_safe_quoted_neutral(s: Seq<u8>, i: int, q: Seq<u8>, o: u8, c: u8)
    requires
        occurs_at(s, i, q),
        quote_safe(q),
        bracket_pair(o, c),
        i == 0 || s[i - 1] != 92,
    ensures
        neutral(s, i, i + q.len(), o, c),
{
    lemma_occurs_index(s, i, q);
    assert(s[i] == q[0]);
    assert(s[i + q.len() - 1] == q[q.len() - 1]);
    assert(s[i + q.len() - 2] == q[q.len() - 2]);
    assert forall|k: int| i < k < i + q.len() - 1 implies !#[trigger] is_quote_at(s, k) by {
        assert(s[k] == q[k - i]);
        assert(s[k - 1] == q[k - i - 1]);
    }
    lemma_quoted_neutral(s, i, i + q.len(), o, c);
}

// ---------------------------------------------------------------------------
// Written text leaves the bracket scan as it was
// ---------------------------------------------------------------------------

/// An item of an array's text: plain bytes, or a string with safe quotes.
pub open spec fn item_safe(w: Seq<u8>) -> bool {
    plain_bytes(w) || quote_safe(w)
}

proof fn lemma_item_neutral(s: Seq<u8>, i: int, w: Seq<u8>, o: u8, c: u8)
    requires
        occurs_at(s, i, w),
        item_safe(w),
        bracket_pair(o, c),
        i == 0 || s[i - 1] != 92,
    ensures
        neutral(s, i, i + w.len(), o, c),
{
    if plain_bytes(w) {
        lemma_plain_text_neutral(s, i, w, o, c);
    } else {
        lemma_safe_quoted_neutral(s, i, w, o, c);
    }
}

proof fn lemma_comma_neutral(s: Seq<u8>, i: int, o: u8, c: u8)
    requires
        0 <= i < s.len(),
        s[i] == 44,
        bracket_pair(o, c),
    ensures
        neutral(s, i, i + 1, o, c),
{
    lemma_plain_neutral(s, i, i + 1, o, c);
}

/// Items separated by commas, each plain or a safely quoted string.
proof fn lemma_join_neutral(items: Seq<Seq<u8>>, s: Seq<u8>, i: int, o: u8, c: u8)
    requires
        forall|j: int| 0 <= j < items.len() ==> item_safe(#[trigger] items[j]),
        occurs_at(s, i, join_items(items)),
        bracket_pair(o, c),
        i == 0 || s[i - 1] != 92,
    ensures
        neutral(s, i, i + join_items(items).len(), o, c),
    decreases items.len(),
{
    if items.len() == 1 {
        assert(item_safe(items[0]));
        lemma_item_neutral(s, i, items[0], o, c);
    } else if items.len() > 1 {
        let w0 = items[0];
        let tail = items.subrange(1, items.len() as int);
        assert forall|j: int| 0 <= j < tail.len() implies item_safe(#[trigger] tail[j]) by {
            assert(tail[j] == items[j + 1]);
        }
        assert(item_safe(w0));
        lemma_occurs_split(s, i, w0 + seq![44u8], join_items(tail));
        lemma_occurs_split(s, i, w0, seq![44u8]);
        lemma_occurs_index(s, i + w0.len(), seq![44u8]);
        assert(s[i + w0.len() + 0] == seq![44u8][0]);
        lemma_item_neutral(s, i, w0, o, c);
        lemma_comma_neutral(s, i + w0.len(), o, c);
        lemma_join_neutral(tail, s, i + w0.len() + 1, o, c);
        lemma_neutral_concat(s, i, i + w0.len(), i + w0.len() + 1, o, c);
        lemma_neutral_concat(s, i, i + w0.len() + 1, i + join_items(items).len(), o, c);
    }
}

/// A bracketed segment of either kind whose inside leaves the scan as it was.
proof fn lemma_bracketed_neutral(s: Seq<u8>, i: int, j: int, ob: u8, cb: u8, o: u8, c: u8)
    requires
        bracket_pair(ob, cb),
        bracket_pair(o, c),
        0 <= i,
        i + 2 <= j <= s.len(),
        s[i] == ob,
        s[j - 1] == cb,
        neutral(s, i + 1, j - 1, o, c),
    ensures
        neutral(s, i, j, o, c),
{
    if ob == o {
        lemma_nested_neutral(s, i, j, o, c);
    } else {
        lemma_plain_neutral(s, i, i + 1, o, c);
        lemma_plain_neutral(s, j - 1, j, o, c);
        lemma_neutral_concat(s, i, i + 1, j - 1, o, c);
        lemma_neutral_concat(s, i, j - 1, j, o, c);
    }
}

proof fn lemma_tag_plain(v: ValueModel)
    ensures
        plain_bytes(seq![61u8, tag_of(v), 58u8]),
{
    let m = seq![61u8, tag_of(v), 58u8];
    assert forall|t: int| 0 <= t < m.len() implies #[trigger] m[t] != 34 && m[t] != 123 && m[t]
        != 125 && m[t] != 91 && m[t] != 93 by {
        if t == 0 {
        } else if t == 1 {
        } else {
        }
    }
}

/// The text of a value that the format carries leaves the scan as it was.
proof fn lemma_value_neutral(
    v: ValueModel,
    depth: int,
    opts: DeserializeOptions,
    s: Seq<u8>,
    i: int,
    o: u8,
    c: u8,
)
    requires
        writable_value(v, depth, opts),
        occurs_at(s, i, write_value(v)),
        bracket_pair(o, c),
        i == 0 || s[i - 1] != 92,
    ensures
        neutral(s, i, i + write_value(v).len(), o, c),
    decreases v,
{
    let w = write_value(v);
    lemma_occurs_index(s, i, w);
    match v {
        ValueModel::Integer(_, x) => {
            lemma_decimal_bytes(x);
            assert(plain_bytes(w));
            lemma_plain_text_neutral(s, i, w, o, c);
        },
        ValueModel::Decimal(_, t) => {
            lemma_float_bytes(encode_utf8(t));
            assert(plain_bytes(w));
            lemma_plain_text_neutral(s, i, w, o, c);
        },
        ValueModel::Bool(b) => {
            assert(plain_bytes(w));
            lemma_plain_text_neutral(s, i, w, o, c);
        },
        ValueModel::Text(st) => {
            lemma_quoted_safe(st);
            lemma_safe_quoted_neutral(s, i, w, o, c);
        },
        ValueModel::Raw(m) => {
            lemma_raw_safe(m, opts.unpack_raw);
            lemma_safe_quoted_neutral(s, i, w, o, c);
        },
        ValueModel::Object(fs) => {
            let body = write_fields(fs);
            lemma_occurs_split(s, i, seq![123u8] + body, seq![125u8]);
            lemma_occurs_split(s, i, seq![123u8], body);
            assert(s[i + 0] == w[0]);
            assert(s[i + (w.len() - 1)] == w[w.len() - 1]);
            lemma_fields_neutral(fs, depth + 1, opts, s, i + 1, o, c);
            lemma_bracketed_neutral(s, i, i + w.len(), 123, 125, o, c);
        },
        ValueModel::Integers(_, xs) => {
            let items = xs.map_values(|x: int| decimal(x));
            assert forall|j: int| 0 <= j < items.len() implies item_safe(#[trigger] items[j]) by {
                lemma_decimal_bytes(xs[j]);
                assert(plain_bytes(items[j]));
            }
            lemma_array_neutral(items, s, i, o, c);
        },
        ValueModel::Decimals(_, ts) => {
            let items = ts.map_values(|t: Seq<char>| encode_utf8(t));
            assert forall|j: int| 0 <= j < items.len() implies item_safe(#[trigger] items[j]) by {
                lemma_float_bytes(encode_utf8(ts[j]));
                assert(plain_bytes(items[j]));
            }
            lemma_array_neutral(items, s, i, o, c);
        },
        ValueModel::Bools(bs) => {
            let items = bs.map_values(|b: bool| bool_text(b));
            assert forall|j: int| 0 <= j < items.len() implies item_safe(#[trigger] items[j]) by {
                assert(plain_bytes(items[j]));
            }
            lemma_array_neutral(items, s, i, o, c);
        },
        ValueModel::Texts(ss) => {
            let items = ss.map_values(|t: Seq<char>| quoted(t));
            assert forall|j: int| 0 <= j < items.len() implies item_safe(#[trigger] items[j]) by {
                lemma_quoted_safe(ss[j]);
            }
            lemma_array_neutral(items, s, i, o, c);
        },
        ValueModel::Objects(os) => {
            let body = write_objects(os);
            lemma_occurs_split(s, i, seq![91u8] + body, seq![93u8]);
            lemma_occurs_split(s, i, seq![91u8], body);
            assert(s[i + 0] == w[0]);
            assert(s[i + (w.len() - 1)] == w[w.len() - 1]);
            lemma_objects_neutral(os, depth + 1, opts, s, i + 1, o, c);
            lemma_bracketed_neutral(s, i, i + w.len(), 91, 93, o, c);
        },
    }
}

/// An array's text: `[`, safe items separated by commas, `]`.
proof fn lemma_array_neutral(items: Seq<Seq<u8>>, s: Seq<u8>, i: int, o: u8, c: u8)
    requires
        forall|j: int| 0 <= j < items.len() ==> item_safe(#[trigger] items[j]),
        occurs_at(s, i, seq![91u8] + join_items(items) + seq![93u8]),
        bracket_pair(o, c),
    ensures
        neutral(s, i, i + join_items(items).len() + 2, o, c),
{
    let body = join_items(items);
    let w = seq![91u8] + body + seq![93u8];
    lemma_occurs_index(s, i, w);
    lemma_occurs_split(s, i, seq![91u8] + body, seq![93u8]);
    lemma_occurs_split(s, i, seq![91u8], body);
    assert(s[i + 0] == w[0]);
    assert(s[i + (w.len() - 1)] == w[w.len() - 1]);
    lemma_join_neutral(items, s, i + 1, o, c);
    lemma_bracketed_neutral(s, i, i + w.len(), 91, 93, o, c);
}

/// The text of fields that the format carries leaves the scan as it was.
proof fn lemma_fields_neutral(
    fs: Seq<(Seq<char>, ValueModel)>,
    depth: int,
    opts: DeserializeOptions,
    s: Seq<u8>,
    i: int,
    o: u8,
    c: u8,
)
    requires
        writable_fields(fs, depth, opts),
        occurs_at(s, i, write_fields(fs)),
        bracket_pair(o, c),
    ensures
        neutral(s, i, i + write_fields(fs).len(), o, c),
    decreases fs,
{
    if fs.len() > 0 {
        let f = fs[0];
        assert(key_ok(f.0) && writable_value(f.1, depth, opts));
        let kb = encode_utf8(f.0);
        let mid = seq![61u8, tag_of(f.1), 58u8];
        let wv = write_value(f.1);
        let wf = write_field(f);
        assert(wf == kb + mid + wv);
        if fs.len() == 1 {
            assert(write_fields(fs) == wf);
        } else {
            let tail = fs.subrange(1, fs.len() as int);
            assert(write_fields(fs) == wf + seq![44u8] + write_fields(tail));
            lemma_occurs_split(s, i, wf + seq![44u8], write_fields(tail));
            lemma_occurs_split(s, i, wf, seq![44u8]);
        }
        lemma_occurs_split(s, i, kb + mid, wv);
        lemma_occurs_split(s, i, kb, mid);
        assert(plain_bytes(kb));
        lemma_tag_plain(f.1);
        lemma_plain_text_neutral(s, i, kb, o, c);
        lemma_plain_text_neutral(s, i + kb.len(), mid, o, c);
        lemma_occurs_index(s, i + kb.len(), mid);
        assert(s[i + kb.len() + 2] == mid[2]);
        lemma_value_neutral(f.1, depth, opts, s, i + kb.len() + 3, o, c);
        lemma_neutral_concat(s, i, i + kb.len(), i + kb.len() + 3, o, c);
        lemma_neutral_concat(s, i, i + kb.len() + 3, i + wf.len(), o, c);
        if fs.len() > 1 {
            let tail = fs.subrange(1, fs.len() as int);
            assert forall|j: int| 0 <= j < tail.len() implies key_ok(#[trigger] tail[j].0)
                && writable_value(tail[j].1, depth, opts) by {
                assert(tail[j] == fs[j + 1]);
            }
            lemma_occurs_index(s, i + wf.len(), seq![44u8]);
            assert(s[i + wf.len() + 0] == seq![44u8][0]);
            lemma_comma_neutral(s, i + wf.len(), o, c);
            lemma_fields_neutral(tail, depth, opts, s, i + wf.len() + 1, o, c);
            lemma_neutral_concat(s, i, i + wf.len(), i + wf.len() + 1, o, c);
            lemma_neutral_concat(s, i, i + wf.len() + 1, i + write_fields(fs).len(), o, c);
        }
    }
}

/// The text of an object array's records leaves the scan as it was.
proof fn lemma_objects_neutral(
    os: Seq<Seq<(Seq<char>, ValueModel)>>,
    depth: int,
    opts: DeserializeOptions,
    s: Seq<u8>,
    i: int,
    o: u8,
    c: u8,
)
    requires
        forall|j: int| 0 <= j < os.len() ==> writable_fields(#[trigger] os[j], depth, opts),
        occurs_at(s, i, write_objects(os)),
        bracket_pair(o, c),
    ensures
        neutral(s, i, i + write_objects(os).len(), o, c),
    decreases os,
{
    if os.len() > 0 {
        let body = write_fields(os[0]);
        let obj = seq![123u8] + body + seq![125u8];
        assert(writable_fields(os[0], depth, opts));
        if os.len() == 1 {
            assert(write_objects(os) == obj);
        } else {
            let tail = os.subrange(1, os.len() as int);
            assert(write_objects(os) =~= obj + seq![44u8] + write_objects(tail));
            lemma_occurs_split(s, i, obj + seq![44u8], write_objects(tail));
            lemma_occurs_split(s, i, obj, seq![44u8]);
        }
        lemma_occurs_index(s, i, obj);
        lemma_occurs_split(s, i, seq![123u8] + body, seq![125u8]);
        lemma_occurs_split(s, i, seq![123u8], body);
        assert(s[i + 0] == obj[0]);
        assert(s[i + (obj.len() - 1)] == obj[obj.len() - 1]);
        lemma_fields_neutral(os[0], depth, opts, s, i + 1, o, c);
        lemma_bracketed_neutral(s, i, i + obj.len(), 123, 125, o, c);
        if os.len() > 1 {
            let tail = os.subrange(1, os.len() as int);
            assert forall|j: int| 0 <= j < tail.len() implies writable_fields(
                #[trigger] tail[j],
                depth,
                opts,
            ) by {
                assert(tail[j] == os[j + 1]);
            }
            lemma_occurs_index(s, i + obj.len(), seq![44u8]);
            assert(s[i + obj.len() + 0] == seq![44u8][0]);
            lemma_comma_neutral(s, i + obj.len(), o, c);
            lemma_objects_neutral(tail, depth, opts, s, i + obj.len() + 1, o, c);
            lemma_neutral_concat(s, i, i + obj.len(), i + obj.len() + 1, o, c);
            lemma_neutral_concat(s, i, i + obj.len() + 1, i + write_objects(os).len(), o, c);
        }
    }
}

// ---------------------------------------------------------------------------
// Reading written text
// ---------------------------------------------------------------------------

/// The bytes used by a value written before `rest`: its text, and the comma
/// that `rest` starts with.
pub open spec fn used(w: Seq<u8>, rest: Seq<u8>) -> int {
    w.len() + if rest.len() > 0 {
        1int
    } else {
        0int
    }
}

proof fn lemma_find_first(s: Seq<u8>, b: u8, i: int, j: int)
    requires
        0 <= i <= j < s.len(),
        s[j] == b,
        forall|k: int| i <= k < j ==> #[trigger] s[k] != b,
    ensures
        find_from(s, b, i) == Some(j),
    decreases j - i,
{
    if i < j {
        assert(s[i] != b);
        lemma_find_first(s, b, i + 1, j);
    }
}

proof fn lemma_value_end_at(s: Seq<u8>, e: int)
    requires
        0 <= e <= s.len(),
        forall|k: int| 0 <= k < e ==> !ends_value(#[trigger] s[k]),
        e == s.len() || ends_value(s[e]),
    ensures
        value_end(s) == e,
{
    lemma_value_end_bound(s);
    let v = value_end(s);
    if v < e {
        assert(ends_value(s[v]));
    } else if v > e {
        assert(!ends_value(s[e]));
    }
}

/// A plain token written before `rest`: where it ends, and the comma after.
proof fn lemma_token(w: Seq<u8>, rest: Seq<u8>)
    requires
        forall|t: int| 0 <= t < w.len() ==> !ends_value(#[trigger] w[t]),
        rest.len() == 0 || rest[0] == 44,
    ensures
        value_end(w + rest) == w.len(),
        (w + rest).subrange(0, w.len() as int) == w,
        skip_comma(w + rest, w.len() as int) == used(w, rest),
{
    let d = w + rest;
    assert forall|k: int| 0 <= k < w.len() implies !ends_value(#[trigger] d[k]) by {
        assert(d[k] == w[k]);
    }
    if rest.len() > 0 {
        assert(d[w.len() as int] == rest[0]);
    }
    lemma_value_end_at(d, w.len() as int);
    assert(d.subrange(0, w.len() as int) =~= w);
}

/// Reading a string written with safe quotes before `rest`.
proof fn lemma_read_string_safe(q: Seq<u8>, rest: Seq<u8>)
    requires
        quote_safe(q),
        rest.len() == 0 || rest[0] == 44,
        valid_utf8(unescape(q.subrange(1, q.len() - 1))),
    ensures
        read_string(q + rest) == Ok::<(Seq<char>, int), Failure>(
            (decode_utf8(unescape(q.subrange(1, q.len() - 1))), used(q, rest)),
        ),
{
    lemma_read_safe_quoted(q, rest);
    assert((q + rest)[0] == 34);
}

proof fn lemma_read_quoted(st: Seq<char>, rest: Seq<u8>)
    requires
        text_ok(st),
        rest.len() == 0 || rest[0] == 44,
    ensures
        read_string(quoted(st) + rest) == Ok::<(Seq<char>, int), Failure>(
            (st, used(quoted(st), rest)),
        ),
{
    let q = quoted(st);
    lemma_quoted_safe(st);
    assert(q.subrange(1, q.len() - 1) =~= escape(encode_utf8(st)));
    encode_utf8_valid_utf8(st);
    encode_utf8_decode_utf8(st);
    lemma_read_string_safe(q, rest);
}

/// Reading the content of an array written before `rest`.
proof fn lemma_read_array_of(items: Seq<Seq<u8>>, rest: Seq<u8>)
    requires
        forall|j: int| 0 <= j < items.len() ==> item_safe(#[trigger] items[j]),
        rest.len() == 0 || rest[0] == 44,
    ensures
        read_array(seq![91u8] + join_items(items) + seq![93u8] + rest) == Ok::<
            (Seq<u8>, int),
            Failure,
        >((join_items(items), used(seq![91u8] + join_items(items) + seq![93u8], rest))),
{
    let body = join_items(items);
    let w = seq![91u8] + body + seq![93u8];
    let d = w + rest;
    assert(occurs_at(d, 0, w)) by {
        assert(d.subrange(0, w.len() as int) =~= w);
    }
    lemma_array_neutral(items, d, 0, 91, 93);
    lemma_occurs_split(d, 0, seq![91u8] + body, seq![93u8]);
    lemma_occurs_split(d, 0, seq![91u8], body);
    lemma_occurs_index(d, 0, w);
    assert(d[0] == w[0]);
    assert(d[0 + (w.len() - 1)] == w[w.len() - 1]);
    lemma_join_neutral(items, d, 1, 91, 93);
    lemma_closing_at_start(d, w.len() as int, 91, 93);
    assert(d.subrange(1, w.len() - 1) =~= body);
    if rest.len() > 0 {
        assert(d[w.len() as int] == rest[0]);
    }
}

proof fn lemma_join_first(items: Seq<Seq<u8>>)
    requires
        items.len() > 1,
    ensures
        join_items(items) == items[0] + seq![44u8] + join_items(items.subrange(1, items.len() as int)),
{
}

proof fn lemma_join_len(items: Seq<Seq<u8>>)
    requires
        items.len() > 0,
        items[0].len() > 0,
    ensures
        join_items(items).len() > 0,
{
    if items.len() > 1 {
        lemma_join_first(items);
    }
}

proof fn lemma_read_int_items(xs: Seq<int>, k: IntKind)
    requires
        forall|j: int| 0 <= j < xs.len() ==> int_min(k) <= #[trigger] xs[j] <= int_max(k),
    ensures
        read_int_items(join_items(xs.map_values(|x: int| decimal(x))), k) == Ok::<
            Seq<int>,
            Failure,
        >(xs),
    decreases xs.len(),
{
    let items = xs.map_values(|x: int| decimal(x));
    let c = join_items(items);
    if xs.len() == 0 {
        assert(xs =~= Seq::<int>::empty());
    } else {
        let d0 = decimal(xs[0]);
        assert(items[0] == d0);
        lemma_decimal_bytes(xs[0]);
        lemma_atoi_decimal(xs[0], k);
        let tail = xs.subrange(1, xs.len() as int);
        let rest = if xs.len() == 1 {
            Seq::<u8>::empty()
        } else {
            seq![44u8] + join_items(items.subrange(1, items.len() as int))
        };
        if xs.len() > 1 {
            lemma_join_first(items);
        }
        assert(c =~= d0 + rest);
        lemma_token(d0, rest);
        if xs.len() == 1 {
            assert(xs =~= seq![xs[0]]);
        } else {
            assert forall|j: int| 0 <= j < tail.len() implies int_min(k) <= #[trigger] tail[j]
                <= int_max(k) by {
                assert(tail[j] == xs[j + 1]);
            }
            lemma_read_int_items(tail, k);
            assert(items.subrange(1, items.len() as int) =~= tail.map_values(
                |x: int| decimal(x),
            ));
            lemma_decimal_bytes(tail[0]);
            lemma_join_len(tail.map_values(|x: int| decimal(x)));
            assert(c.subrange(d0.len() as int + 1, c.len() as int) =~= join_items(
                items.subrange(1, items.len() as int),
            ));
            assert(seq![xs[0]] + tail =~= xs);
        }
    }
}

proof fn lemma_read_float_items(ts: Seq<Seq<char>>)
    requires
        forall|j: int| 0 <= j < ts.len() ==> float_text_ok(encode_utf8(#[trigger] ts[j])),
    ensures
        read_float_items(join_items(ts.map_values(|t: Seq<char>| encode_utf8(t)))) == Ok::<
            Seq<Seq<char>>,
            Failure,
        >(ts),
    decreases ts.len(),
{
    let items = ts.map_values(|t: Seq<char>| encode_utf8(t));
    let c = join_items(items);
    if ts.len() == 0 {
        assert(ts =~= Seq::<Seq<char>>::empty());
    } else {
        let d0 = encode_utf8(ts[0]);
        assert(items[0] == d0);
        assert(float_text_ok(d0));
        lemma_float_bytes(d0);
        encode_utf8_decode_utf8(ts[0]);
        let tail = ts.subrange(1, ts.len() as int);
        let rest = if ts.len() == 1 {
            Seq::<u8>::empty()
        } else {
            seq![44u8] + join_items(items.subrange(1, items.len() as int))
        };
        if ts.len() > 1 {
            lemma_join_first(items);
        }
        assert(c =~= d0 + rest);
        lemma_token(d0, rest);
        if ts.len() == 1 {
            assert(ts =~= seq![ts[0]]);
        } else {
            assert forall|j: int| 0 <= j < tail.len() implies float_text_ok(
                encode_utf8(#[trigger] tail[j]),
            ) by {
                assert(tail[j] == ts[j + 1]);
            }
            lemma_read_float_items(tail);
            assert(items.subrange(1, items.len() as int) =~= tail.map_values(
                |t: Seq<char>| encode_utf8(t),
            ));
            assert(float_text_ok(encode_utf8(tail[0])));
            lemma_float_bytes(encode_utf8(tail[0]));
            lemma_join_len(tail.map_values(|t: Seq<char>| encode_utf8(t)));
            assert(c.subrange(d0.len() as int + 1, c.len() as int) =~= join_items(
                items.subrange(1, items.len() as int),
            ));
            assert(seq![ts[0]] + tail =~= ts);
        }
    }
}

proof fn lemma_read_bool_items(bs: Seq<bool>)
    ensures
        read_bool_items(join_items(bs.map_values(|b: bool| bool_text(b)))) == Ok::<
            Seq<bool>,
            Failure,
        >(bs),
    decreases bs.len(),
{
    let items = bs.map_values(|b: bool| bool_text(b));
    let c = join_items(items);
    if bs.len() == 0 {
        assert(bs =~= Seq::<bool>::empty());
    } else {
        let d0 = bool_text(bs[0]);
        assert(items[0] == d0);
        let tail = bs.subrange(1, bs.len() as int);
        let rest = if bs.len() == 1 {
            Seq::<u8>::empty()
        } else {
            seq![44u8] + join_items(items.subrange(1, items.len() as int))
        };
        if bs.len() > 1 {
            lemma_join_first(items);
        }
        assert(c =~= d0 + rest);
        lemma_token(d0, rest);
        assert(c[0] == d0[0]);
        if bs.len() == 1 {
            assert(bs =~= seq![bs[0]]);
        } else {
            lemma_read_bool_items(tail);
            assert(items.subrange(1, items.len() as int) =~= tail.map_values(
                |b: bool| bool_text(b),
            ));
            lemma_join_len(tail.map_values(|b: bool| bool_text(b)));
            assert(c.subrange(d0.len() as int + 1, c.len() as int) =~= join_items(
                items.subrange(1, items.len() as int),
            ));
            assert(seq![bs[0]] + tail =~= bs);
        }
    }
}

proof fn lemma_read_string_items(ss: Seq<Seq<char>>)
    requires
        forall|j: int| 0 <= j < ss.len() ==> text_ok(#[trigger] ss[j]),
    ensures
        read_string_items(join_items(ss.map_values(|t: Seq<char>| quoted(t)))) == Ok::<
            Seq<Seq<char>>,
            Failure,
        >(ss),
    decreases ss.len(),
{
    let items = ss.map_values(|t: Seq<char>| quoted(t));
    let c = join_items(items);
    if ss.len() == 0 {
        assert(ss =~= Seq::<Seq<char>>::empty());
    } else {
        let q0 = quoted(ss[0]);
        assert(items[0] == q0);
        assert(text_ok(ss[0]));
        let tail = ss.subrange(1, ss.len() as int);
        let rest = if ss.len() == 1 {
            Seq::<u8>::empty()
        } else {
            seq![44u8] + join_items(items.subrange(1, items.len() as int))
        };
        if ss.len() > 1 {
            lemma_join_first(items);
        }
        assert(c =~= q0 + rest);
        lemma_read_quoted(ss[0], rest);
        lemma_quoted_safe(ss[0]);
        if ss.len() == 1 {
            assert(ss =~= seq![ss[0]]);
        } else {
            assert forall|j: int| 0 <= j < tail.len() implies text_ok(#[trigger] tail[j]) by {
                assert(tail[j] == ss[j + 1]);
            }
            lemma_read_string_items(tail);
            assert(items.subrange(1, items.len() as int) =~= tail.map_values(
                |t: Seq<char>| quoted(t),
            ));
            lemma_quoted_safe(tail[0]);
            lemma_join_len(tail.map_values(|t: Seq<char>| quoted(t)));
            assert(c.subrange(q0.len() as int + 1, c.len() as int) =~= join_items(
                items.subrange(1, items.len() as int),
            ));
            assert(seq![ss[0]] + tail =~= ss);
        }
    }
}

proof fn lemma_fields_first(fs: Seq<(Seq<char>, ValueModel)>)
    requires
        fs.len() > 0,
        key_ok(fs[0].0),
    ensures
        write_fields(fs).len() > 0,
        write_fields(fs)[0] != 44,
{
    let f = fs[0];
    let kb = encode_utf8(f.0);
    let wf = write_field(f);
    assert(wf == kb + seq![61u8, tag_of(f.1), 58u8] + write_value(f.1));
    if fs.len() > 1 {
        let tail = fs.subrange(1, fs.len() as int);
        assert(write_fields(fs) == wf + seq![44u8] + write_fields(tail));
    }
    assert(write_fields(fs)[0] == wf[0]);
    if kb.len() > 0 {
        assert(wf[0] == kb[0]);
    }
}


/// Reading a scalar value: an integer, floating-point text or a boolean.
proof fn lemma_read_scalar(v: ValueModel, rest: Seq<u8>, depth: int, opts: DeserializeOptions)
    requires
        writable_value(v, depth, opts),
        v is Integer || v is Decimal || v is Bool,
        rest.len() == 0 || rest[0] == 44,
    ensures
        read_value(write_value(v) + rest, tag_of(v), depth, opts) == Ok::<
            (ValueModel, int),
            Failure,
        >((v, used(write_value(v), rest))),
{
    let w = write_value(v);
    let d = w + rest;
    match v {
        ValueModel::Integer(k, x) => {
            lemma_decimal_bytes(x);
            lemma_atoi_decimal(x, k);
            lemma_token(w, rest);
            assert(d[0] == w[0]);
            assert(tag_int_kind(int_tag(k)) == Some(k));
        },
        ValueModel::Decimal(k, t) => {
            lemma_float_bytes(w);
            lemma_token(w, rest);
            encode_utf8_decode_utf8(t);
            assert(d[0] == w[0]);
            assert(tag_int_kind(float_tag(k)) is None);
            assert(tag_float_kind(float_tag(k)) == Some(k));
        },
        ValueModel::Bool(b) => {
            lemma_token(w, rest);
            assert(d[0] == w[0]);
        },
        _ => {},
    }
}

/// Reading a string or a raw payload.
proof fn lemma_read_quoted_value(
    v: ValueModel,
    rest: Seq<u8>,
    depth: int,
    opts: DeserializeOptions,
)
    requires
        writable_value(v, depth, opts),
        v is Text || v is Raw,
        rest.len() == 0 || rest[0] == 44,
    ensures
        read_value(write_value(v) + rest, tag_of(v), depth, opts) == Ok::<
            (ValueModel, int),
            Failure,
        >((read_back_value(v, opts.unpack_raw), used(write_value(v), rest))),
{
    let w = write_value(v);
    let d = w + rest;
    match v {
        ValueModel::Text(st) => {
            lemma_read_quoted(st, rest);
            assert(d[0] == w[0]);
        },
        ValueModel::Raw(m) => {
            lemma_raw_safe(m, opts.unpack_raw);
            let t = raw_text(m);
            let q = seq![34u8] + t + seq![34u8];
            assert(q.subrange(1, q.len() - 1) =~= t);
            lemma_read_string_safe(q, rest);
            assert(d[0] == w[0]);
            let txt = decode_utf8(t);
            let got = RawModel { data: Seq::empty(), encoded: txt };
            if m.encoded.len() > 0 {
                encode_utf8_decode_utf8(m.encoded);
                assert(m.data =~= Seq::<u8>::empty());
                assert(got == m);
            } else if m.data.len() == 0 {
                assert(t =~= Seq::<u8>::empty());
                assert(txt =~= Seq::<char>::empty());
                assert(m.encoded =~= Seq::<char>::empty());
                assert(m.data =~= Seq::<u8>::empty());
                assert(got == m);
            } else {
                let p = spec_pack(m);
                assert(p.data =~= Seq::<u8>::empty());
                assert(p.encoded =~= txt);
                assert(got == p);
            }
            if opts.unpack_raw {
                if m.data.len() > 0 {
                    lemma_unpack_pack(m);
                }
            } else {
                assert(got == spec_pack(m));
            }
        },
        _ => {},
    }
}

/// Reading an array of integers, floating-point texts, booleans or strings.
proof fn lemma_read_scalar_array(
    v: ValueModel,
    rest: Seq<u8>,
    depth: int,
    opts: DeserializeOptions,
)
    requires
        writable_value(v, depth, opts),
        v is Integers || v is Decimals || v is Bools || v is Texts,
        rest.len() == 0 || rest[0] == 44,
    ensures
        read_value(write_value(v) + rest, tag_of(v), depth, opts) == Ok::<
            (ValueModel, int),
            Failure,
        >((v, used(write_value(v), rest))),
{
    let w = write_value(v);
    let d = w + rest;
    match v {
        ValueModel::Integers(k, xs) => {
            let items = xs.map_values(|x: int| decimal(x));
            assert forall|j: int| 0 <= j < items.len() implies item_safe(#[trigger] items[j]) by {
                lemma_decimal_bytes(xs[j]);
                assert(plain_bytes(items[j]));
            }
            lemma_read_array_of(items, rest);
            lemma_read_int_items(xs, k);
            assert(d[0] == w[0]);
            assert(tag_int_kind(int_tag(k)) == Some(k));
        },
        ValueModel::Decimals(k, ts) => {
            let items = ts.map_values(|t: Seq<char>| encode_utf8(t));
            assert forall|j: int| 0 <= j < items.len() implies item_safe(#[trigger] items[j]) by {
                lemma_float_bytes(encode_utf8(ts[j]));
                assert(plain_bytes(items[j]));
            }
            lemma_read_array_of(items, rest);
            lemma_read_float_items(ts);
            assert(d[0] == w[0]);
            assert(tag_int_kind(float_tag(k)) is None);
            assert(tag_float_kind(float_tag(k)) == Some(k));
        },
        ValueModel::Bools(bs) => {
            let items = bs.map_values(|b: bool| bool_text(b));
            assert forall|j: int| 0 <= j < items.len() implies item_safe(#[trigger] items[j]) by {
                assert(plain_bytes(items[j]));
            }
            lemma_read_array_of(items, rest);
            lemma_read_bool_items(bs);
            assert(d[0] == w[0]);
        },
        ValueModel::Texts(ss) => {
            let items = ss.map_values(|t: Seq<char>| quoted(t));
            assert forall|j: int| 0 <= j < items.len() implies item_safe(#[trigger] items[j]) by {
                lemma_quoted_safe(ss[j]);
            }
            lemma_read_array_of(items, rest);
            lemma_read_string_items(ss);
            assert(d[0] == w[0]);
        },
        _ => {},
    }
}

/// Where the closing bracket of a bracketed text at the start of `d` is,
/// when its inside leaves the scan as it was.
proof fn lemma_bracketed_start(d: Seq<u8>, body: Seq<u8>, rest: Seq<u8>, o: u8, c: u8)
    requires
        bracket_pair(o, c),
        d == seq![o] + body + seq![c] + rest,
        neutral(d, 1, 1 + body.len() as int, o, c),
        rest.len() == 0 || rest[0] == 44,
    ensures
        closing(d, o, c) == Some(1 + body.len() as int),
        d.subrange(1, 1 + body.len() as int) == body,
        skip_comma(d, 2 + body.len() as int) == 2 + body.len() + if rest.len() > 0 {
            1int
        } else {
            0int
        },
{
    let w = seq![o] + body + seq![c];
    assert(d[0] == w[0]);
    assert(d[w.len() - 1] == w[w.len() - 1]);
    lemma_closing_at_start(d, w.len() as int, o, c);
    assert(d.subrange(1, 1 + body.len() as int) =~= body);
    if rest.len() > 0 {
        assert(d[w.len() as int] == rest[0]);
    }
}

/// Reading the text of a value that the format carries, written before
/// `rest`: the value as it is read back, and the bytes it used with the comma
/// after it.
proof fn lemma_read_value(v: ValueModel, rest: Seq<u8>, depth: int, opts: DeserializeOptions)
    requires
        writable_value(v, depth, opts),
        rest.len() == 0 || rest[0] == 44,
    ensures
        read_value(write_value(v) + rest, tag_of(v), depth, opts) == Ok::<
            (ValueModel, int),
            Failure,
        >((read_back_value(v, opts.unpack_raw), used(write_value(v), rest))),
    decreases v,
{
    let w = write_value(v);
    let d = w + rest;
    match v {
        ValueModel::Object(fs) => {
            let body = write_fields(fs);
            assert(d =~= seq![123u8] + body + seq![125u8] + rest);
            assert(occurs_at(d, 1, body)) by {
                assert(d.subrange(1, 1 + body.len() as int) =~= body);
            }
            lemma_fields_neutral(fs, depth + 1, opts, d, 1, 123, 125);
            lemma_bracketed_start(d, body, rest, 123, 125);
            lemma_read_fields(fs, depth + 1, opts);
            assert(read_object(d, depth + 1, opts) == Ok::<
                (Seq<(Seq<char>, ValueModel)>, int),
                Failure,
            >((read_back_fields(fs, opts.unpack_raw), used(w, rest))));
        },
        ValueModel::Objects(os) => {
            let body = write_objects(os);
            assert(d =~= seq![91u8] + body + seq![93u8] + rest);
            assert(occurs_at(d, 1, body)) by {
                assert(d.subrange(1, 1 + body.len() as int) =~= body);
            }
            lemma_objects_neutral(os, depth + 1, opts, d, 1, 91, 93);
            lemma_bracketed_start(d, body, rest, 91, 93);
            lemma_read_objects(os, depth + 1, opts);
            assert(read_object_array(d, depth + 1, opts) == Ok::<
                (Seq<Seq<(Seq<char>, ValueModel)>>, int),
                Failure,
            >((read_back_objects(os, opts.unpack_raw), used(w, rest))));
        },
        ValueModel::Integer(..) => lemma_read_scalar(v, rest, depth, opts),
        ValueModel::Decimal(..) => lemma_read_scalar(v, rest, depth, opts),
        ValueModel::Bool(..) => lemma_read_scalar(v, rest, depth, opts),
        ValueModel::Text(..) => lemma_read_quoted_value(v, rest, depth, opts),
        ValueModel::Raw(..) => lemma_read_quoted_value(v, rest, depth, opts),
        _ => lemma_read_scalar_array(v, rest, depth, opts),
    }
}

/// Reading the records of an object array's text.
proof fn lemma_read_objects(
    os: Seq<Seq<(Seq<char>, ValueModel)>>,
    depth: int,
    opts: DeserializeOptions,
)
    requires
        depth <= opts.max_depth,
        forall|j: int| 0 <= j < os.len() ==> writable_fields(#[trigger] os[j], depth, opts),
    ensures
        read_objects(write_objects(os), depth, opts) == Ok::<
            Seq<Seq<(Seq<char>, ValueModel)>>,
            Failure,
        >(read_back_objects(os, opts.unpack_raw)),
    decreases os,
{
    let c = write_objects(os);
    if os.len() == 0 {
        assert(os =~= Seq::<Seq<(Seq<char>, ValueModel)>>::empty());
    } else {
        let body = write_fields(os[0]);
        let obj = seq![123u8] + body + seq![125u8];
        let tail = os.subrange(1, os.len() as int);
        let rest = if os.len() == 1 {
            Seq::<u8>::empty()
        } else {
            seq![44u8] + write_objects(tail)
        };
        assert(c =~= seq![123u8] + body + seq![125u8] + rest);
        assert(writable_fields(os[0], depth, opts));
        assert(occurs_at(c, 1, body)) by {
            assert(c.subrange(1, 1 + body.len() as int) =~= body);
        }
        lemma_fields_neutral(os[0], depth, opts, c, 1, 123, 125);
        lemma_bracketed_start(c, body, rest, 123, 125);
        lemma_read_fields(os[0], depth, opts);
        let n = used(obj, rest);
        let u = opts.unpack_raw;
        assert(read_object(c, depth, opts) == Ok::<
            (Seq<(Seq<char>, ValueModel)>, int),
            Failure,
        >((read_back_fields(os[0], u), n)));
        if os.len() == 1 {
            assert(tail =~= Seq::<Seq<(Seq<char>, ValueModel)>>::empty());
            assert(read_back_objects(tail, u) =~= Seq::<Seq<(Seq<char>, ValueModel)>>::empty());
            assert(read_back_objects(os, u) =~= seq![read_back_fields(os[0], u)]);
        } else {
            assert forall|j: int| 0 <= j < tail.len() implies writable_fields(
                #[trigger] tail[j],
                depth,
                opts,
            ) by {
                assert(tail[j] == os[j + 1]);
            }
            lemma_read_objects(tail, depth, opts);
            assert(write_objects(tail).len() > 0);
            assert(c.subrange(n, c.len() as int) =~= write_objects(tail));
        }
    }
}

/// The start of a field's text: its key up to the first `=`, its type tag
/// and `:`, then its value.
proof fn lemma_field_text(f: (Seq<char>, ValueModel), rest: Seq<u8>)
    requires
        key_ok(f.0),
    ensures
        ({
            let s = write_field(f) + rest;
            let eq = encode_utf8(f.0).len() as int;
            &&& first_index_of(s, 61) == Some(eq)
            &&& eq + 2 < s.len()
            &&& s[eq + 1] == tag_of(f.1)
            &&& s[eq + 2] == 58
            &&& valid_utf8(s.subrange(0, eq))
            &&& decode_utf8(s.subrange(0, eq)) == f.0
            &&& s.subrange(eq + 3, s.len() as int) == write_value(f.1) + rest
        }),
{
    let kb = encode_utf8(f.0);
    let s = write_field(f) + rest;
    let eq = kb.len() as int;
    assert(s =~= kb + seq![61u8, tag_of(f.1), 58u8] + write_value(f.1) + rest);
    assert(s[eq] == 61);
    assert forall|k: int| 0 <= k < eq implies #[trigger] s[k] != 61 by {
        assert(s[k] == kb[k]);
    }
    lemma_find_first(s, 61, 0, eq);
    assert(s[eq + 1] == tag_of(f.1));
    assert(s[eq + 2] == 58);
    assert(s.subrange(0, eq) =~= kb);
    encode_utf8_valid_utf8(f.0);
    encode_utf8_decode_utf8(f.0);
    assert(s.subrange(eq + 3, s.len() as int) =~= write_value(f.1) + rest);
}

/// The fields after the first of fields the format carries are carried too.
proof fn lemma_writable_tail(fs: Seq<(Seq<char>, ValueModel)>, depth: int, opts: DeserializeOptions)
    requires
        fs.len() > 0,
        writable_fields(fs, depth, opts),
    ensures
        writable_fields(fs.subrange(1, fs.len() as int), depth, opts),
{
    let tail = fs.subrange(1, fs.len() as int);
    assert(forall|i: int|
        0 <= i < fs.len() ==> key_ok(#[trigger] fs[i].0) && writable_value(fs[i].1, depth, opts));
    assert forall|j: int| 0 <= j < tail.len() implies key_ok(#[trigger] tail[j].0)
        && writable_value(tail[j].1, depth, opts) by {
        assert(tail[j] == fs[j + 1]);
        assert(key_ok(fs[j + 1].0));
    }
    assert(writable_fields(tail, depth, opts));
}

/// Reading the text of fields that the format carries: they come back as
/// `read_back_fields` gives them.
proof fn lemma_read_fields(fs: Seq<(Seq<char>, ValueModel)>, depth: int, opts: DeserializeOptions)
    requires
        writable_fields(fs, depth, opts),
    ensures
        read_fields(write_fields(fs), depth, opts) == Ok::<
            Seq<(Seq<char>, ValueModel)>,
            Failure,
        >(read_back_fields(fs, opts.unpack_raw)),
    decreases fs,
{
    let s = write_fields(fs);
    if fs.len() == 0 {
        assert(fs =~= Seq::<(Seq<char>, ValueModel)>::empty());
    } else {
        let f = fs[0];
        assert(key_ok(f.0) && writable_value(f.1, depth, opts));
        let tail = fs.subrange(1, fs.len() as int);
        let rest = if fs.len() == 1 {
            Seq::<u8>::empty()
        } else {
            seq![44u8] + write_fields(tail)
        };
        if fs.len() > 1 {
            assert(s == write_field(f) + seq![44u8] + write_fields(tail));
        }
        assert(s =~= write_field(f) + rest);
        lemma_field_text(f, rest);
        let eq = encode_utf8(f.0).len() as int;
        lemma_read_value(f.1, rest, depth, opts);
        let n = used(write_value(f.1), rest);
        let u = opts.unpack_raw;
        assert(read_value(s.subrange(eq + 3, s.len() as int), s[eq + 1], depth, opts) == Ok::<
            (ValueModel, int),
            Failure,
        >((read_back_value(f.1, u), n)));
        if fs.len() == 1 {
            assert(tail =~= Seq::<(Seq<char>, ValueModel)>::empty());
            assert(read_back_fields(tail, u) =~= Seq::<(Seq<char>, ValueModel)>::empty());
            assert(read_back_fields(fs, u) =~= seq![(f.0, read_back_value(f.1, u))]);
        } else {
            lemma_writable_tail(fs, depth, opts);
            lemma_read_fields(tail, depth, opts);
            lemma_fields_first(tail);
            let p = eq + 3 + n;
            assert(s[p] == write_fields(tail)[0]);
            assert(skip_comma(s, p) == p);
            assert(s.subrange(p, s.len() as int) =~= write_fields(tail));
        }
    }
}

/// What is written of one value reads back as the same value: for a value
/// whose strings, numbers, raw payloads and nested records the format
/// carries at nesting depth `depth`, reading the text that `write_value`
/// makes of it, as a value of its own type tag, gives it back (with its raw
/// payloads in the form the reader gives them) and uses the whole text. So
/// `parse_value` on what `serialize_value` appended gives the value back.
pub proof fn lemma_read_written_value(v: ValueModel, depth: int, opts: DeserializeOptions)
    requires
        writable_value(v, depth, opts),
    ensures
        read_value(write_value(v), tag_of(v), depth, opts) == Ok::<(ValueModel, int), Failure>(
            (read_back_value(v, opts.unpack_raw), write_value(v).len() as int),
        ),
{
    lemma_read_value(v, Seq::empty(), depth, opts);
    assert(write_value(v) + Seq::<u8>::empty() =~= write_value(v));
}

/// What is written of a record reads back as the same record: for fields
/// whose keys, strings, numbers and raw payloads the format carries, nested
/// no deeper than `opts.max_depth`, reading the text that `write_fields`
/// makes of them gives them back, with their raw payloads in the form the
/// reader gives them (see `read_back_fields`).
pub proof fn lemma_read_written_fields(fs: Seq<(Seq<char>, ValueModel)>, opts: DeserializeOptions)
    requires
        writable_fields(fs, 0, opts),
    ensures
        read_line(write_fields(fs), opts) == Ok::<Seq<(Seq<char>, ValueModel)>, Failure>(
            read_back_fields(fs, opts.unpack_raw),
        ),
{
    crate::format::lemma_fields_valid(fs);
    lemma_read_fields(fs, 0, opts);
}

// ---------------------------------------------------------------------------
// Dumps
// ---------------------------------------------------------------------------

/// The lines that are not empty, in order.
pub open spec fn nonempty_lines(ls: Seq<Seq<u8>>) -> Seq<Seq<u8>>
    decreases ls.len(),
{
    if ls.len() == 0 {
        Seq::empty()
    } else if ls.last().len() == 0 {
        nonempty_lines(ls.drop_last())
    } else {
        nonempty_lines(ls.drop_last()).push(ls.last())
    }
}

/// The records that have fields, in order.
pub open spec fn nonempty_records(rs: Seq<Seq<(Seq<char>, ValueModel)>>) -> Seq<
    Seq<(Seq<char>, ValueModel)>,
>
    decreases rs.len(),
{
    if rs.len() == 0 {
        Seq::empty()
    } else if rs.last().len() == 0 {
        nonempty_records(rs.drop_last())
    } else {
        nonempty_records(rs.drop_last()).push(rs.last())
    }
}

/// The text of each record.
pub open spec fn record_texts(rs: Seq<Seq<(Seq<char>, ValueModel)>>) -> Seq<Seq<u8>> {
    rs.map_values(|r: Seq<(Seq<char>, ValueModel)>| write_fields(r))
}

/// Text that holds no line break.
pub open spec fn line_free(w: Seq<u8>) -> bool {
    forall|i: int| 0 <= i < w.len() ==> !ends_line(#[trigger] w[i])
}

/// Text that starts with the bytes of a UTF-8 byte-order mark.
pub open spec fn starts_with_bom(w: Seq<u8>) -> bool {
    w.len() >= 3 && w[0] == 0xEF && w[1] == 0xBB && w[2] == 0xBF
}

proof fn lemma_line_end_at(s: Seq<u8>, i: int, t: int)
    requires
        0 <= i <= t < s.len(),
        ends_line(s[t]),
        forall|k: int| i <= k < t ==> !ends_line(#[trigger] s[k]),
    ensures
        line_end_from(s, i) == Some(t),
    decreases t - i,
{
    if i < t {
        assert(!ends_line(s[i]));
        lemma_line_end_at(s, i + 1, t);
    }
}

/// A line without line breaks, followed by `\n`, is one line (or none when
/// it is empty).
proof fn lemma_one_line(w: Seq<u8>)
    requires
        line_free(w),
    ensures
        text_lines(w + seq![10u8]) == if w.len() == 0 {
            Seq::<Seq<u8>>::empty()
        } else {
            seq![w]
        },
{
    let s = w + seq![10u8];
    let t = w.len() as int;
    assert(s[t] == 10);
    assert forall|k: int| 0 <= k < t implies !ends_line(#[trigger] s[k]) by {
        assert(s[k] == w[k]);
    }
    lemma_line_end_at(s, 0, t);
    assert(after_line_end(s, t) == t + 1);
    assert(s.subrange(t + 1, s.len() as int) =~= Seq::<u8>::empty());
    assert(text_lines(Seq::<u8>::empty()) =~= Seq::<Seq<u8>>::empty());
    if t > 0 {
        assert(s.subrange(0, t) =~= w);
        assert(seq![w] + Seq::<Seq<u8>>::empty() =~= seq![w]);
    }
}

/// Lines written one after the other, each followed by `\n`, split back
/// into the lines that are not empty.
proof fn lemma_text_lines_of_lines(ls: Seq<Seq<u8>>)
    requires
        forall|i: int| 0 <= i < ls.len() ==> line_free(#[trigger] ls[i]),
    ensures
        text_lines(lines_text(ls)) == nonempty_lines(ls),
    decreases ls.len(),
{
    if ls.len() > 0 {
        let init = ls.drop_last();
        let w = ls.last();
        assert forall|i: int| 0 <= i < init.len() implies line_free(#[trigger] init[i]) by {
            assert(init[i] == ls[i]);
        }
        assert(line_free(ls[ls.len() - 1]));
        lemma_text_lines_of_lines(init);
        lemma_one_line(w);
        let a = lines_text(init);
        assert(lines_text(ls) =~= a + (w + seq![10u8]));
        if init.len() > 0 {
            assert(a[a.len() - 1] == 10);
            lemma_text_lines_concat(a, w + seq![10u8]);
        } else {
            assert(a =~= Seq::<u8>::empty());
            assert(a + (w + seq![10u8]) =~= w + seq![10u8]);
            assert(text_lines(a) =~= Seq::<Seq<u8>>::empty());
        }
        if w.len() == 0 {
            assert(nonempty_lines(init) + Seq::<Seq<u8>>::empty() =~= nonempty_lines(init));
        } else {
            assert(nonempty_lines(init) + seq![w] =~= nonempty_lines(init).push(w));
        }
    }
}

/// The front of lines written one after the other.
proof fn lemma_lines_text_front(ls: Seq<Seq<u8>>)
    requires
        ls.len() > 0,
    ensures
        lines_text(ls) == ls[0] + seq![10u8] + lines_text(ls.subrange(1, ls.len() as int)),
    decreases ls.len(),
{
    let tail = ls.subrange(1, ls.len() as int);
    if ls.len() == 1 {
        assert(ls.drop_last() =~= Seq::<Seq<u8>>::empty());
        assert(tail =~= Seq::<Seq<u8>>::empty());
        assert(lines_text(ls) =~= ls[0] + seq![10u8] + lines_text(tail));
    } else {
        let init = ls.drop_last();
        lemma_lines_text_front(init);
        assert(init[0] == ls[0]);
        assert(init.subrange(1, init.len() as int) =~= tail.drop_last());
        assert(tail.last() == ls.last());
        assert(lines_text(ls) =~= ls[0] + seq![10u8] + lines_text(tail));
    }
}

/// What written records are read back as (see `read_back_fields`).
pub open spec fn read_back_records(rs: Seq<Seq<(Seq<char>, ValueModel)>>, unpack: bool) -> Seq<
    Seq<(Seq<char>, ValueModel)>,
> {
    rs.map_values(|r: Seq<(Seq<char>, ValueModel)>| read_back_fields(r, unpack))
}

/// Reading back keeps the number of fields.
proof fn lemma_read_back_len(fs: Seq<(Seq<char>, ValueModel)>, unpack: bool)
    ensures
        read_back_fields(fs, unpack).len() == fs.len(),
    decreases fs.len(),
{
    if fs.len() > 0 {
        lemma_read_back_len(fs.subrange(1, fs.len() as int), unpack);
    }
}

/// The records read back from the written lines of records.
proof fn lemma_read_lines_of_records(
    rs: Seq<Seq<(Seq<char>, ValueModel)>>,
    opts: DeserializeOptions,
)
    requires
        forall|i: int| 0 <= i < rs.len() ==> writable_fields(#[trigger] rs[i], 0, opts),
    ensures
        read_records(nonempty_lines(record_texts(rs)), opts) == Ok::<
            Seq<Seq<(Seq<char>, ValueModel)>>,
            Failure,
        >(nonempty_records(read_back_records(rs, opts.unpack_raw))),
        forall|i: int|
            0 <= i < nonempty_lines(record_texts(rs)).len() ==> read_fields(
                #[trigger] nonempty_lines(record_texts(rs))[i],
                0,
                opts,
            ) is Ok,
    decreases rs.len(),
{
    let u = opts.unpack_raw;
    let ls = record_texts(rs);
    if rs.len() == 0 {
        assert(ls =~= Seq::<Seq<u8>>::empty());
        assert(read_back_records(rs, u) =~= Seq::<Seq<(Seq<char>, ValueModel)>>::empty());
    } else {
        let init = rs.drop_last();
        let r = rs.last();
        assert forall|i: int| 0 <= i < init.len() implies writable_fields(#[trigger] init[i], 0, opts) by {
            assert(init[i] == rs[i]);
        }
        assert(writable_fields(rs[rs.len() - 1], 0, opts));
        lemma_read_lines_of_records(init, opts);
        assert(ls.drop_last() =~= record_texts(init));
        assert(ls.last() == write_fields(r));
        let rb = read_back_records(rs, u);
        assert(rb.drop_last() =~= read_back_records(init, u));
        assert(rb.last() == read_back_fields(r, u));
        lemma_read_back_len(r, u);
        let prev = nonempty_lines(ls.drop_last());
        lemma_read_fields(r, 0, opts);
        let w = write_fields(r);
        if r.len() == 0 {
            assert(w.len() == 0);
        } else {
            lemma_fields_first(r);
            let one = seq![w];
            assert(prev.push(w) =~= prev + one);
            lemma_read_records_concat(prev, one, opts);
            assert(one.subrange(1, 1) =~= Seq::<Seq<u8>>::empty());
            assert(one[0] == w);
            assert(read_records(Seq::<Seq<u8>>::empty(), opts) == Ok::<
                Seq<Seq<(Seq<char>, ValueModel)>>,
                Failure,
            >(Seq::empty()));
            let got = nonempty_records(read_back_records(init, u));
            assert(got + seq![read_back_fields(r, u)] =~= got.push(read_back_fields(r, u)));
            assert forall|i: int| 0 <= i < prev.push(w).len() implies read_fields(
                #[trigger] prev.push(w)[i],
                0,
                opts,
            ) is Ok by {
                if i < prev.len() {
                    assert(prev.push(w)[i] == prev[i]);
                }
            }
        }
    }
}

/// What is written of a dump reads back as its records with fields, in
/// increasing order of id: for records that the format carries, whose text
/// holds no line break and does not start with a byte-order mark, the text
/// that `serialize_dump_to_string` makes of a dump is valid UTF-8, no line of
/// it stops the reader, and its lines read back as the records that are not
/// empty (as `read_back_fields` gives them), in order of id.
pub proof fn lemma_read_written_dump(
    ids: Seq<u64>,
    m: Map<u64, Seq<(Seq<char>, ValueModel)>>,
    opts: DeserializeOptions,
)
    requires
        ids_in_order(ids, m),
        forall|id: u64|
            #[trigger] m.contains_key(id) ==> writable_fields(m[id], 0, opts) && line_free(
                write_fields(m[id]),
            ) && !starts_with_bom(write_fields(m[id])),
    ensures
        ({
            let t = lines_text(texts_in_order(ids, m));
            &&& strip_bom(t) == t
            &&& valid_utf8(t)
            &&& no_line_aborts(t, opts)
            &&& read_records(text_lines(t), opts) == Ok::<
                Seq<Seq<(Seq<char>, ValueModel)>>,
                Failure,
            >(nonempty_records(read_back_records(ids.map_values(|id: u64| m[id]), opts.unpack_raw)))
        }),
{
    let rs = ids.map_values(|id: u64| m[id]);
    let ls = texts_in_order(ids, m);
    let t = lines_text(ls);
    assert(ls =~= record_texts(rs));
    assert forall|i: int| 0 <= i < rs.len() implies writable_fields(#[trigger] rs[i], 0, opts) by {
        assert(m.contains_key(ids[i]));
    }
    assert forall|i: int| 0 <= i < ls.len() implies line_free(#[trigger] ls[i]) by {
        assert(m.contains_key(ids[i]));
    }
    assert forall|i: int| 0 <= i < ls.len() implies valid_utf8(#[trigger] ls[i]) by {
        crate::format::lemma_fields_valid(m[ids[i]]);
    }
    lemma_lines_text_valid(ls);
    lemma_text_lines_of_lines(ls);
    lemma_read_lines_of_records(rs, opts);
    let tl = text_lines(t);
    assert forall|i: int| 0 <= i < tl.len() implies !(#[trigger] read_fields(tl[i], 0, opts) matches Err(
        Failure::Aborts,
    )) by {
        assert(read_fields(nonempty_lines(ls)[i], 0, opts) is Ok);
    }
    if ls.len() > 0 {
        lemma_lines_text_front(ls);
        let w = ls[0];
        assert(m.contains_key(ids[0]));
        assert(!starts_with_bom(w));
        if w.len() >= 3 {
            assert(t[0] == w[0] && t[1] == w[1] && t[2] == w[2]);
        } else if t.len() >= 3 {
            assert(t[w.len() as int] == 10);
        }
    } else {
        assert(t =~= Seq::<u8>::empty());
    }
}

} // verus!

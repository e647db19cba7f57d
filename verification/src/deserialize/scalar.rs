//! Leaf value parsing: integers (through the `atoi` crate), floating-point
//! text, arrays of them, booleans, and quoted strings.

use vstd::prelude::*;
use vstd::slice::{slice_subrange, slice_to_vec};
use vstd::string::StringExecFns;
use vstd::utf8::*;

use crate::deserialize::scan::{find_closing_bracket, find_value_end};
use crate::error::{parse_error, FonError};
use crate::format::{
    atoi_value, digit_run, exponent_ok, float_text_ok, is_digit, lemma_prepend_empty,
    lemma_prepend_last, lemma_prepend_step, lemma_value_end_bound, lower, number_error, number_ok,
    prepend, quote_end, quote_end_from, read_array, read_bool_array, read_bool_items,
    read_float_array, read_float_items, read_int_array, read_int_items, read_string,
    read_string_array, read_string_items, skip_comma, spells, suffix, unescape, unescape_byte,
    value_end, Failure,
};
use crate::text::{all_ascii, lemma_ascii_valid_utf8, lossy_string, string_from_utf8};
use crate::types::IntKind;

verus! {

// ---------------------------------------------------------------------------
// Integers, read by `atoi`
// ---------------------------------------------------------------------------

/// `atoi::atoi::<u8>`: an optional sign and the digits after it, when the
/// value fits (see `atoi_value`).
#[verifier::external_body]
fn atoi_u8(text: &[u8]) -> (r: Option<u8>)
    ensures
        match atoi_value(text@, IntKind::Byte) {
            Some(v) => r == Some(v as u8),
            None => r is None,
        },
{
    atoi::atoi::<u8>(text)
}

/// `atoi::atoi::<i16>` (see `atoi_value`).
#[verifier::external_body]
fn atoi_i16(text: &[u8]) -> (r: Option<i16>)
    ensures
        match atoi_value(text@, IntKind::Short) {
            Some(v) => r == Some(v as i16),
            None => r is None,
        },
{
    atoi::atoi::<i16>(text)
}

/// `atoi::atoi::<i32>` (see `atoi_value`).
#[verifier::external_body]
fn atoi_i32(text: &[u8]) -> (r: Option<i32>)
    ensures
        match atoi_value(text@, IntKind::Int) {
            Some(v) => r == Some(v as i32),
            None => r is None,
        },
{
    atoi::atoi::<i32>(text)
}

/// `atoi::atoi::<u32>` (see `atoi_value`).
#[verifier::external_body]
fn atoi_u32(text: &[u8]) -> (r: Option<u32>)
    ensures
        match atoi_value(text@, IntKind::UInt) {
            Some(v) => r == Some(v as u32),
            None => r is None,
        },
{
    atoi::atoi::<u32>(text)
}

/// `atoi::atoi::<i64>` (see `atoi_value`).
#[verifier::external_body]
fn atoi_i64(text: &[u8]) -> (r: Option<i64>)
    ensures
        match atoi_value(text@, IntKind::Long) {
            Some(v) => r == Some(v as i64),
            None => r is None,
        },
{
    atoi::atoi::<i64>(text)
}

/// `atoi::atoi::<u64>` (see `atoi_value`).
#[verifier::external_body]
fn atoi_u64(text: &[u8]) -> (r: Option<u64>)
    ensures
        match atoi_value(text@, IntKind::ULong) {
            Some(v) => r == Some(v as u64),
            None => r is None,
        },
{
    atoi::atoi::<u64>(text)
}

/// The error for a number that does not parse, quoting its text.
pub fn num_err(bytes: &[u8]) -> (e: FonError)
    ensures
        e matches FonError::Parse(m) && m@ == number_error(bytes@),
{
    let mut m = "Failed to parse number: '".to_owned();
    let t = lossy_string(bytes);
    m.append(t.as_str());
    m.append("'");
    FonError::Parse(m)
}

/// An integer type that a field can be read as.
pub trait NumParse: Sized {
    /// The kind of integer.
    spec fn kind() -> IntKind;

    /// The number a value stands for.
    spec fn as_int(v: Self) -> int;

    /// Reads the number at the start of `bytes` (see `atoi_value`).
    fn parse_field(bytes: &[u8]) -> (r: Result<Self, FonError>)
        ensures
            match atoi_value(bytes@, Self::kind()) {
                Some(v) => r matches Ok(x) && Self::as_int(x) == v,
                None => r matches Err(FonError::Parse(m)) && m@ == number_error(bytes@),
            },
    ;
}

impl NumParse for u8 {
    open spec fn kind() -> IntKind {
        IntKind::Byte
    }

    open spec fn as_int(v: u8) -> int {
        v as int
    }

    fn parse_field(bytes: &[u8]) -> (r: Result<u8, FonError>) {
        match atoi_u8(bytes) {
            Some(v) => Ok(v),
            None => Err(num_err(bytes)),
        }
    }
}

impl NumParse for i16 {
    open spec fn kind() -> IntKind {
        IntKind::Short
    }

    open spec fn as_int(v: i16) -> int {
        v as int
    }

    fn parse_field(bytes: &[u8]) -> (r: Result<i16, FonError>) {
        match atoi_i16(bytes) {
            Some(v) => Ok(v),
            None => Err(num_err(bytes)),
        }
    }
}

impl NumParse for i32 {
    open spec fn kind() -> IntKind {
        IntKind::Int
    }

    open spec fn as_int(v: i32) -> int {
        v as int
    }

    fn parse_field(bytes: &[u8]) -> (r: Result<i32, FonError>) {
        match atoi_i32(bytes) {
            Some(v) => Ok(v),
            None => Err(num_err(bytes)),
        }
    }
}

impl NumParse for u32 {
    open spec fn kind() -> IntKind {
        IntKind::UInt
    }

    open spec fn as_int(v: u32) -> int {
        v as int
    }

    fn parse_field(bytes: &[u8]) -> (r: Result<u32, FonError>) {
        match atoi_u32(bytes) {
            Some(v) => Ok(v),
            None => Err(num_err(bytes)),
        }
    }
}

impl NumParse for i64 {
    open spec fn kind() -> IntKind {
        IntKind::Long
    }

    open spec fn as_int(v: i64) -> int {
        v as int
    }

    fn parse_field(bytes: &[u8]) -> (r: Result<i64, FonError>) {
        match atoi_i64(bytes) {
            Some(v) => Ok(v),
            None => Err(num_err(bytes)),
        }
    }
}

impl NumParse for u64 {
    open spec fn kind() -> IntKind {
        IntKind::ULong
    }

    open spec fn as_int(v: u64) -> int {
        v as int
    }

    fn parse_field(bytes: &[u8]) -> (r: Result<u64, FonError>) {
        match atoi_u64(bytes) {
            Some(v) => Ok(v),
            None => Err(num_err(bytes)),
        }
    }
}

/// Reads the integer at the start of `bytes`.
pub fn parse_num<T: NumParse>(bytes: &[u8]) -> (r: Result<T, FonError>)
    ensures
        match atoi_value(bytes@, T::kind()) {
            Some(v) => r matches Ok(x) && T::as_int(x) == v,
            None => r matches Err(FonError::Parse(m)) && m@ == number_error(bytes@),
        },
{
    T::parse_field(bytes)
}

// ---------------------------------------------------------------------------
// Floating-point text
// ---------------------------------------------------------------------------

fn lower_byte(c: u8) -> (r: u8)
    ensures
        r == lower(c),
{
    if 65 <= c && c <= 90 {
        c + 32
    } else {
        c
    }
}

fn digit_run_from(s: &[u8], from: usize) -> (r: usize)
    ensures
        r == digit_run(s@, from as int),
        from + r <= s@.len() || (from >= s@.len() && r == 0),
{
    let mut i = from;
    while i < s.len() && 48 <= s[i] && s[i] <= 57
        invariant
            from <= i,
            i <= s@.len() || i == from,
            digit_run(s@, from as int) == (i - from) + digit_run(s@, i as int),
        decreases s@.len() - i,
    {
        i += 1;
    }
    i - from
}

fn exponent_ok_at(s: &[u8], from: usize) -> (r: bool)
    requires
        from <= s@.len(),
    ensures
        r == exponent_ok(s@, from as int),
{
    let n = s.len();
    if from == n {
        return true;
    }
    if lower_byte(s[from]) != 101 {
        return false;
    }
    let d = if n - from > 1 && (s[from + 1] == 43 || s[from + 1] == 45) {
        from + 2
    } else {
        from + 1
    };
    let k = digit_run_from(s, d);
    k > 0 && k == n - d
}

fn number_ok_exec(s: &[u8]) -> (r: bool)
    ensures
        r == number_ok(s@),
{
    let i = digit_run_from(s, 0);
    if i < s.len() && s[i] == 46 {
        let f = digit_run_from(s, i + 1);
        (i > 0 || f > 0) && exponent_ok_at(s, i + 1 + f)
    } else {
        i > 0 && exponent_ok_at(s, i)
    }
}

fn spells_exec(s: &[u8], w0: u8, w1: u8, w2: u8) -> (r: bool)
    ensures
        r == spells(s@, seq![w0, w1, w2]),
{
    if s.len() != 3 {
        return false;
    }
    let r = lower_byte(s[0]) == w0 && lower_byte(s[1]) == w1 && lower_byte(s[2]) == w2;
    proof {
        if r {
            assert forall|i: int| 0 <= i < s@.len() implies #[trigger] lower(s@[i]) == seq![
                w0,
                w1,
                w2,
            ][i] by {}
        } else {
            assert(!(lower(s@[0]) == seq![w0, w1, w2][0] && lower(s@[1]) == seq![w0, w1, w2][1]
                && lower(s@[2]) == seq![w0, w1, w2][2]));
        }
    }
    r
}

fn spells_infinity(s: &[u8]) -> (r: bool)
    ensures
        r == spells(s@, seq![105u8, 110, 102, 105, 110, 105, 116, 121]),
{
    let ghost w = seq![105u8, 110, 102, 105, 110, 105, 116, 121];
    if s.len() != 8 {
        return false;
    }
    let r = lower_byte(s[0]) == 105 && lower_byte(s[1]) == 110 && lower_byte(s[2]) == 102
        && lower_byte(s[3]) == 105 && lower_byte(s[4]) == 110 && lower_byte(s[5]) == 105
        && lower_byte(s[6]) == 116 && lower_byte(s[7]) == 121;
    proof {
        if r {
            assert forall|i: int| 0 <= i < s@.len() implies #[trigger] lower(s@[i]) == w[i] by {}
        } else {
            assert(!(lower(s@[0]) == w[0] && lower(s@[1]) == w[1] && lower(s@[2]) == w[2] && lower(
                s@[3],
            ) == w[3] && lower(s@[4]) == w[4] && lower(s@[5]) == w[5] && lower(s@[6]) == w[6]
                && lower(s@[7]) == w[7]));
        }
    }
    r
}

/// True when std would accept `t` as the text of a floating-point number.
pub fn float_text_ok_exec(t: &[u8]) -> (r: bool)
    ensures
        r == float_text_ok(t@),
{
    let n = t.len();
    let body = if n > 0 && (t[0] == 43 || t[0] == 45) {
        &t[1..n]
    } else {
        t
    };
    spells_exec(body, 105, 110, 102) || spells_infinity(body) || spells_exec(body, 110, 97, 110)
        || number_ok_exec(body)
}

proof fn lemma_digit_run(s: Seq<u8>, from: int)
    requires
        0 <= from,
    ensures
        forall|j: int| from <= j < from + digit_run(s, from) ==> is_digit(#[trigger] s[j]),
        from + digit_run(s, from) <= s.len() || digit_run(s, from) == 0,
    decreases s.len() - from,
{
    if 0 <= from < s.len() && is_digit(s[from]) {
        lemma_digit_run(s, from + 1);
    }
}

proof fn lemma_spells_ascii(s: Seq<u8>, w: Seq<u8>)
    requires
        spells(s, w),
        all_ascii(w),
    ensures
        all_ascii(s),
{
    assert forall|i: int| 0 <= i < s.len() implies #[trigger] s[i] < 128 by {
        assert(lower(s[i]) == w[i]);
    }
}

proof fn lemma_number_ascii(s: Seq<u8>)
    requires
        number_ok(s),
    ensures
        all_ascii(s),
{
    let i = digit_run(s, 0);
    lemma_digit_run(s, 0);
    let e = if i < s.len() && s[i] == 46 {
        let f = digit_run(s, i + 1);
        lemma_digit_run(s, i + 1);
        i + 1 + f
    } else {
        i
    };
    assert(exponent_ok(s, e));
    if e < s.len() {
        let d = if e + 1 < s.len() && (s[e + 1] == 43 || s[e + 1] == 45) {
            e + 2
        } else {
            e + 1
        };
        lemma_digit_run(s, d);
    }
    assert forall|j: int| 0 <= j < s.len() implies #[trigger] s[j] < 128 by {
        if j < i {
            assert(is_digit(s[j]));
        } else if j == i {
        } else if j < e {
            assert(is_digit(s[j]));
        } else if j == e {
            assert(lower(s[j]) == 101);
        } else {
            let d = if e + 1 < s.len() && (s[e + 1] == 43 || s[e + 1] == 45) {
                e + 2
            } else {
                e + 1
            };
            if j >= d {
                assert(is_digit(s[j]));
            }
        }
    }
}

/// Accepted floating-point text is ASCII.
pub proof fn lemma_float_text_ascii(t: Seq<u8>)
    requires
        float_text_ok(t),
    ensures
        all_ascii(t),
{
    let has_sign = t.len() > 0 && (t[0] == 43 || t[0] == 45);
    let body = if has_sign {
        t.subrange(1, t.len() as int)
    } else {
        t
    };
    if spells(body, seq![105u8, 110, 102]) {
        lemma_spells_ascii(body, seq![105u8, 110, 102]);
    } else if spells(body, seq![105u8, 110, 102, 105, 110, 105, 116, 121]) {
        lemma_spells_ascii(body, seq![105u8, 110, 102, 105, 110, 105, 116, 121]);
    } else if spells(body, seq![110u8, 97, 110]) {
        lemma_spells_ascii(body, seq![110u8, 97, 110]);
    } else {
        lemma_number_ascii(body);
    }
    assert forall|j: int| 0 <= j < t.len() implies #[trigger] t[j] < 128 by {
        if has_sign && j > 0 {
            assert(t[j] == body[j - 1]);
        }
    }
}

/// Reads floating-point text: the text itself when std would accept it as a
/// number, the number error otherwise.
pub fn parse_float_text(bytes: &[u8]) -> (r: Result<String, FonError>)
    ensures
        float_text_ok(bytes@) ==> (r matches Ok(s) && s@ == decode_utf8(bytes@)),
        !float_text_ok(bytes@) ==> (r matches Err(FonError::Parse(m)) && m@ == number_error(
            bytes@,
        )),
{
    if !float_text_ok_exec(bytes) {
        return Err(num_err(bytes));
    }
    proof {
        lemma_float_text_ascii(bytes@);
        lemma_ascii_valid_utf8(bytes@);
    }
    match string_from_utf8(slice_to_vec(bytes)) {
        Some(s) => Ok(s),
        None => Err(num_err(bytes)),
    }
}

// ---------------------------------------------------------------------------
// Arrays
// ---------------------------------------------------------------------------

/// The content between the brackets of the array at the start of `data`,
/// and the bytes the array uses with a comma that follows it.
fn array_content(data: &[u8]) -> (r: Result<(&[u8], usize), FonError>)
    requires
        data@.len() > 0,
    ensures
        match read_array(data@) {
            Ok((c, n)) => r matches Ok((rc, rn)) && rc@ == c && rn == n,
            Err(f) => r matches Err(FonError::Parse(m)) && f == Failure::Error(m@),
        },
        r matches Ok((_, n)) ==> n <= data@.len(),
        r matches Ok((rc, _)) ==> rc@.len() < data@.len(),
{
    if data[0] != 91 {
        return Err(parse_error("Array must start with '['"));
    }
    let close = match find_closing_bracket(data) {
        Ok(c) => c,
        Err(e) => return Err(e),
    };
    proof {
        crate::format::lemma_closing_from_bound(data@, 0, 0, false, 91, 93);
    }
    let content = &data[1..close];
    let mut total = close + 1;
    if total < data.len() && data[total] == 44 {
        total += 1;
    }
    Ok((content, total))
}

/// Reads an integer array: `[`, items separated by commas, `]`.
pub fn parse_number_array<T: NumParse>(data: &[u8]) -> (r: Result<(Vec<T>, usize), FonError>)
    requires
        data@.len() > 0,
    ensures
        match read_int_array(data@, T::kind()) {
            Ok((vs, n)) => r matches Ok((v, m)) && m == n && v@.len() == vs.len() && forall|i: int|
                0 <= i < vs.len() ==> #[trigger] T::as_int(v@[i]) == vs[i],
            Err(f) => r matches Err(FonError::Parse(m)) && f == Failure::Error(m@),
        },
        r matches Ok((_, n)) ==> n <= data@.len(),
{
    let (content, total) = match array_content(data) {
        Ok(x) => x,
        Err(e) => return Err(e),
    };
    let ghost c = content@;
    let ghost k = T::kind();
    let mut result: Vec<T> = Vec::new();
    let ghost mut got: Seq<int> = Seq::empty();
    let mut pos: usize = 0;
    proof {
        assert(suffix(c, 0) =~= c);
        lemma_prepend_empty(read_int_items(c, k));
    }
    while pos < content.len()
        invariant
            c == content@,
            pos <= c.len(),
            read_array(data@) == Ok::<(Seq<u8>, int), Failure>((c, total as int)),
            k == T::kind(),
            result@.len() == got.len(),
            forall|i: int| 0 <= i < got.len() ==> #[trigger] T::as_int(result@[i]) == got[i],
            read_int_items(c, k) == prepend(got, read_int_items(suffix(c, pos as int), k)),
        decreases c.len() - pos,
    {
        let remaining = &content[pos..content.len()];
        let ghost rest = remaining@;
        assert(rest == suffix(c, pos as int));
        let end = find_value_end(remaining);
        proof {
            lemma_value_end_bound(rest);
        }
        let ghost tok = rest.subrange(0, end as int);
        let tok_bytes = slice_subrange(remaining, 0, end);
        assert(tok_bytes@ == tok);
        let res = parse_num::<T>(tok_bytes);
        let x = match res {
            Ok(x) => x,
            Err(e) => {
                assert(rest.len() > 0);
                assert(value_end(rest) == end);
                assert(atoi_value(tok, k) is None);
                assert(read_int_items(rest, k) == Err::<Seq<int>, Failure>(
                    Failure::Error(number_error(tok)),
                ));
                return Err(e);
            },
        };
        proof {
            crate::format::lemma_atoi_nonempty(tok, k);
        }
        let ghost v = T::as_int(x);
        let ghost old_got = got;
        result.push(x);
        proof {
            got = got.push(v);
        }
        let mut p = end;
        if p < remaining.len() && remaining[p] == 44 {
            p += 1;
        }
        proof {
            assert(p == skip_comma(rest, end as int));
            let next = read_int_items(suffix(c, pos + p), k);
            if p < rest.len() {
                assert(rest.subrange(p as int, rest.len() as int) =~= suffix(c, pos + p));
                assert(read_int_items(rest, k) == prepend(seq![v], next));
            } else {
                assert(suffix(c, pos + p) =~= Seq::<u8>::empty());
                lemma_prepend_last(v);
                assert(read_int_items(rest, k) == prepend(seq![v], next));
            }
            lemma_prepend_step(old_got, v, next);
        }
        pos += p;
        proof {
            assert forall|i: int| 0 <= i < got.len() implies #[trigger] T::as_int(result@[i])
                == got[i] by {}
        }
    }
    proof {
        assert(suffix(c, pos as int) =~= Seq::<u8>::empty());
        assert(got + Seq::<int>::empty() =~= got);
    }
    Ok((result, total))
}

/// Reads a floating-point array, keeping the text of its items.
pub fn parse_float_array(data: &[u8]) -> (r: Result<(Vec<String>, usize), FonError>)
    requires
        data@.len() > 0,
    ensures
        match read_float_array(data@) {
            Ok((vs, n)) => r matches Ok((v, m)) && m == n && v@.map_values(|s: String| s@) == vs,
            Err(f) => r matches Err(FonError::Parse(m)) && f == Failure::Error(m@),
        },
        r matches Ok((_, n)) ==> n <= data@.len(),
{
    let (content, total) = match array_content(data) {
        Ok(x) => x,
        Err(e) => return Err(e),
    };
    let ghost c = content@;
    let mut result: Vec<String> = Vec::new();
    let mut pos: usize = 0;
    proof {
        assert(suffix(c, 0) =~= c);
        lemma_prepend_empty(read_float_items(c));
        assert(result@.map_values(|s: String| s@) =~= Seq::<Seq<char>>::empty());
    }
    while pos < content.len()
        invariant
            c == content@,
            pos <= c.len(),
            read_array(data@) == Ok::<(Seq<u8>, int), Failure>((c, total as int)),
            read_float_items(c) == prepend(
                result@.map_values(|s: String| s@),
                read_float_items(suffix(c, pos as int)),
            ),
        decreases c.len() - pos,
    {
        let remaining = &content[pos..content.len()];
        let ghost rest = remaining@;
        assert(rest == suffix(c, pos as int));
        let end = find_value_end(remaining);
        proof {
            lemma_value_end_bound(rest);
        }
        let ghost tok = rest.subrange(0, end as int);
        let ghost before = result@.map_values(|s: String| s@);
        let text = match parse_float_text(&remaining[0..end]) {
            Ok(t) => t,
            Err(e) => {
                assert(read_float_items(rest) == Err::<Seq<Seq<char>>, Failure>(
                    Failure::Error(number_error(tok)),
                ));
                return Err(e);
            },
        };
        proof {
            crate::format::lemma_float_text_nonempty(tok);
        }
        let ghost tv = text@;
        result.push(text);
        let mut p = end;
        if p < remaining.len() && remaining[p] == 44 {
            p += 1;
        }
        proof {
            assert(result@.map_values(|s: String| s@) =~= before.push(tv));
            let next = read_float_items(suffix(c, pos + p));
            if p < rest.len() {
                assert(rest.subrange(p as int, rest.len() as int) =~= suffix(c, pos + p));
                assert(read_float_items(rest) == prepend(seq![tv], next));
            } else {
                assert(suffix(c, pos + p) =~= Seq::<u8>::empty());
                lemma_prepend_last(tv);
                assert(read_float_items(rest) == prepend(seq![tv], next));
            }
            lemma_prepend_step(before, tv, next);
        }
        pos += p;
    }
    proof {
        assert(suffix(c, pos as int) =~= Seq::<u8>::empty());
        let got = result@.map_values(|s: String| s@);
        assert(got + Seq::<Seq<char>>::empty() =~= got);
    }
    Ok((result, total))
}

/// Reads a boolean array: an item is false when it starts with `0`; an empty
/// item is an error.
pub fn parse_bool_array(data: &[u8]) -> (r: Result<(Vec<bool>, usize), FonError>)
    requires
        data@.len() > 0,
    ensures
        match read_bool_array(data@) {
            Ok((vs, n)) => r matches Ok((v, m)) && m == n && v@ == vs,
            Err(f) => r matches Err(FonError::Parse(m)) && f == Failure::Error(m@),
        },
        r matches Ok((_, n)) ==> n <= data@.len(),
{
    let (content, total) = match array_content(data) {
        Ok(x) => x,
        Err(e) => return Err(e),
    };
    let ghost c = content@;
    let mut result: Vec<bool> = Vec::new();
    let mut pos: usize = 0;
    proof {
        assert(suffix(c, 0) =~= c);
        lemma_prepend_empty(read_bool_items(c));
    }
    while pos < content.len()
        invariant
            c == content@,
            pos <= c.len(),
            read_array(data@) == Ok::<(Seq<u8>, int), Failure>((c, total as int)),
            read_bool_items(c) == prepend(result@, read_bool_items(suffix(c, pos as int))),
        decreases c.len() - pos,
    {
        let remaining = &content[pos..content.len()];
        let ghost rest = remaining@;
        assert(rest == suffix(c, pos as int));
        let end = find_value_end(remaining);
        proof {
            lemma_value_end_bound(rest);
        }
        if end == 0 {
            assert(read_bool_items(rest) == Err::<Seq<bool>, Failure>(
                Failure::Error("Empty value"@),
            ));
            return Err(parse_error("Empty value"));
        }
        let ghost before = result@;
        let item = remaining[0] != 48;
        result.push(item);
        let mut p = end;
        if p < remaining.len() && remaining[p] == 44 {
            p += 1;
        }
        proof {
            let next = read_bool_items(suffix(c, pos + p));
            if p < rest.len() {
                assert(rest.subrange(p as int, rest.len() as int) =~= suffix(c, pos + p));
                assert(read_bool_items(rest) == prepend(seq![item], next));
            } else {
                assert(suffix(c, pos + p) =~= Seq::<u8>::empty());
                lemma_prepend_last(item);
                assert(read_bool_items(rest) == prepend(seq![item], next));
            }
            lemma_prepend_step(before, item, next);
        }
        pos += p;
    }
    proof {
        assert(suffix(c, pos as int) =~= Seq::<u8>::empty());
        assert(result@ + Seq::<bool>::empty() =~= result@);
    }
    Ok((result, total))
}

/// Reads a string array: quoted strings separated by commas.
pub fn parse_string_array(data: &[u8]) -> (r: Result<(Vec<String>, usize), FonError>)
    requires
        data@.len() > 0,
    ensures
        match read_string_array(data@) {
            Ok((vs, n)) => r matches Ok((v, m)) && m == n && v@.map_values(|s: String| s@) == vs,
            Err(f) => r matches Err(FonError::Parse(m)) && f == Failure::Error(m@),
        },
        r matches Ok((_, n)) ==> n <= data@.len(),
{
    let (content, total) = match array_content(data) {
        Ok(x) => x,
        Err(e) => return Err(e),
    };
    let ghost c = content@;
    let mut result: Vec<String> = Vec::new();
    let mut pos: usize = 0;
    let ghost whole_len = data.len();
    proof {
        assert(c.len() < whole_len);
        assert(suffix(c, 0) =~= c);
        lemma_prepend_empty(read_string_items(c));
        assert(result@.map_values(|s: String| s@) =~= Seq::<Seq<char>>::empty());
    }
    while pos < content.len()
        invariant
            c == content@,
            c.len() < usize::MAX,
            pos <= c.len() + 1,
            read_array(data@) == Ok::<(Seq<u8>, int), Failure>((c, total as int)),
            read_string_items(c) == prepend(
                result@.map_values(|s: String| s@),
                read_string_items(suffix(c, pos as int)),
            ),
        decreases c.len() + 1 - pos,
    {
        let remaining = &content[pos..content.len()];
        let ghost rest = remaining@;
        assert(rest == suffix(c, pos as int));
        let ghost before = result@.map_values(|s: String| s@);
        let (s, p) = match parse_string(remaining) {
            Ok(x) => x,
            Err(e) => return Err(e),
        };
        let ghost sv = s@;
        result.push(s);
        proof {
            crate::format::lemma_quote_end_from(rest, 1);
            assert(result@.map_values(|s: String| s@) =~= before.push(sv));
            let next = read_string_items(suffix(c, pos + p));
            if p < rest.len() {
                assert(rest.subrange(p as int, rest.len() as int) =~= suffix(c, pos + p));
                assert(read_string_items(rest) == prepend(seq![sv], next));
            } else {
                assert(suffix(c, pos + p) =~= Seq::<u8>::empty());
                lemma_prepend_last(sv);
                assert(read_string_items(rest) == prepend(seq![sv], next));
            }
            lemma_prepend_step(before, sv, next);
        }
        pos += p;
    }
    proof {
        assert(suffix(c, pos as int) =~= Seq::<u8>::empty());
        let got = result@.map_values(|s: String| s@);
        assert(got + Seq::<Seq<char>>::empty() =~= got);
    }
    Ok((result, total))
}

// ---------------------------------------------------------------------------
// Strings
// ---------------------------------------------------------------------------

proof fn lemma_unescape_plain(b: Seq<u8>)
    requires
        forall|i: int| 0 <= i < b.len() ==> #[trigger] b[i] != 92,
    ensures
        unescape(b) == b,
    decreases b.len(),
{
    if b.len() > 0 {
        lemma_unescape_plain(b.subrange(1, b.len() as int));
        assert(b =~= seq![b[0]] + b.subrange(1, b.len() as int));
    }
}

/// Reads escapes: a backslash and the byte after it stand for one byte.
fn unescape_bytes(content: &[u8]) -> (r: Vec<u8>)
    ensures
        r@ == unescape(content@),
{
    let ghost c = content@;
    let mut bytes: Vec<u8> = Vec::new();
    let mut i: usize = 0;
    assert(c.subrange(0, c.len() as int) =~= c);
    assert(bytes@ + unescape(c) =~= unescape(c));
    while i < content.len()
        invariant
            c == content@,
            i <= c.len(),
            unescape(c) == bytes@ + unescape(c.subrange(i as int, c.len() as int)),
        decreases c.len() - i,
    {
        let ghost tail = c.subrange(i as int, c.len() as int);
        if content[i] == 92 && i + 1 < content.len() {
            let b = content[i + 1];
            let u = if b == 110 {
                10
            } else if b == 114 {
                13
            } else if b == 116 {
                9
            } else if b == 98 {
                8
            } else if b == 102 {
                12
            } else {
                b
            };
            assert(u == unescape_byte(b));
            bytes.push(u);
            i += 2;
            assert(tail.subrange(2, tail.len() as int) =~= c.subrange(i as int, c.len() as int));
        } else {
            bytes.push(content[i]);
            i += 1;
            assert(tail.subrange(1, tail.len() as int) =~= c.subrange(i as int, c.len() as int));
        }
    }
    assert(c.subrange(i as int, c.len() as int) =~= Seq::<u8>::empty());
    bytes
}

/// Reads a quoted string at the start of `data`: its text and the bytes used
/// (with a comma that follows it). The string ends at the first double quote
/// that no backslash precedes.
pub fn parse_string(data: &[u8]) -> (r: Result<(String, usize), FonError>)
    requires
        0 < data@.len() < usize::MAX,
    ensures
        match read_string(data@) {
            Ok((s, n)) => r matches Ok((rs, rn)) && rs@ == s && rn == n,
            Err(f) => r matches Err(FonError::Parse(m)) && f == Failure::Error(m@),
        },
        r matches Ok((_, n)) ==> 0 < n <= data@.len() + 1,
{
    if data[0] != 34 {
        return Err(parse_error("String must start with '\"'"));
    }
    let mut end_quote: usize = 1;
    let mut has_escape = false;
    while end_quote < data.len()
        invariant
            1 <= end_quote <= data@.len(),
            quote_end(data@) == quote_end_from(data@, end_quote as int),
            has_escape == exists|j: int| 1 <= j < end_quote && data@[j] == 92,
        ensures
            1 <= end_quote <= data@.len(),
            quote_end(data@) == end_quote,
            has_escape == exists|j: int| 1 <= j < end_quote && data@[j] == 92,
        decreases data@.len() - end_quote,
    {
        let b = data[end_quote];
        if b == 34 && data[end_quote - 1] != 92 {
            break;
        }
        if b == 92 {
            has_escape = true;
        }
        end_quote += 1;
    }
    let content = &data[1..end_quote];
    let bytes = if !has_escape {
        proof {
            assert forall|i: int| 0 <= i < content@.len() implies #[trigger] content@[i] != 92 by {
                assert(content@[i] == data@[i + 1]);
            }
            lemma_unescape_plain(content@);
        }
        slice_to_vec(content)
    } else {
        unescape_bytes(content)
    };
    let s = match string_from_utf8(bytes) {
        Some(s) => s,
        None => return Err(parse_error("Invalid UTF-8 in input")),
    };
    let mut consumed = end_quote + 1;
    if consumed < data.len() && data[consumed] == 44 {
        consumed += 1;
    }
    Ok((s, consumed))
}

} // verus!

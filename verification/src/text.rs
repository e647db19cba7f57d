//! Conversions between bytes and text, as std performs them.

use vstd::prelude::*;
use vstd::utf8::*;

verus! {

/// `String::from_utf8`: the bytes as a `String` when they are valid UTF-8,
/// nothing otherwise.
#[verifier::external_body]
pub(crate) fn string_from_utf8(bytes: Vec<u8>) -> (r: Option<String>)
    ensures
        r is Some <==> valid_utf8(bytes@),
        r matches Some(s) ==> s@ == decode_utf8(bytes@),
{
    String::from_utf8(bytes).ok()
}

/// `std::str::from_utf8`, asked only whether the bytes are valid UTF-8.
#[verifier::external_body]
pub(crate) fn is_valid_utf8(bytes: &[u8]) -> (r: bool)
    ensures
        r == valid_utf8(bytes@),
{
    std::str::from_utf8(bytes).is_ok()
}

/// The text that `String::from_utf8_lossy` makes of the bytes: their
/// characters, with a replacement character where they are not valid UTF-8.
pub uninterp spec fn lossy_utf8(bytes: Seq<u8>) -> Seq<char>;

/// `String::from_utf8_lossy`, made an owned `String`. Its documentation
/// says that valid UTF-8 is converted as it stands; the replacement of
/// invalid sequences is left to the name `lossy_utf8`.
#[verifier::external_body]
pub(crate) fn lossy_string(bytes: &[u8]) -> (r: String)
    ensures
        r@ == lossy_utf8(bytes@),
        valid_utf8(bytes@) ==> r@ == decode_utf8(bytes@),
{
    String::from_utf8_lossy(bytes).into_owned()
}

/// True when every byte is an ASCII byte.
pub open spec fn all_ascii(b: Seq<u8>) -> bool {
    forall|i: int| 0 <= i < b.len() ==> #[trigger] b[i] < 128
}

/// ASCII bytes are valid UTF-8.
pub proof fn lemma_ascii_valid_utf8(b: Seq<u8>)
    requires
        all_ascii(b),
    ensures
        valid_utf8(b),
{
    assert(b.subrange(0, 0) =~= Seq::<u8>::empty());
    assert(valid_utf8(Seq::<u8>::empty()));
    assert forall|i: int| 0 <= 0 <= i < b.len() <= b.len() implies #[trigger] is_leading_byte_width_1(
        b[i],
    ) by {}
    partial_valid_utf8_extend_ascii_block(b, 0, b.len() as int);
    assert(b.subrange(0, b.len() as int) =~= b);
}

/// The bytes of a decoded valid UTF-8 sequence are the sequence itself.
pub proof fn lemma_decode_encode(b: Seq<u8>)
    requires
        valid_utf8(b),
    ensures
        encode_utf8(decode_utf8(b)) == b,
{
    decode_utf8_encode_utf8(b);
}

/// In valid UTF-8, the position after an ASCII byte that starts a character
/// starts a character too.
proof fn lemma_boundary_after_ascii(bytes: Seq<u8>, k: int)
    requires
        valid_utf8(bytes),
        0 <= k < bytes.len(),
        is_char_boundary(bytes, k),
        bytes[k] < 128,
    ensures
        is_char_boundary(bytes, k + 1),
    decreases bytes.len(),
{
    let l = length_of_first_scalar(bytes);
    let rest = pop_first_scalar(bytes);
    assert(valid_first_scalar(bytes) && valid_utf8(rest));
    assert(1 <= l <= bytes.len());
    assert(rest.len() == bytes.len() - l);
    if k == 0 {
        assert(is_leading_byte_width_1(bytes[0]));
        assert(l == 1);
        assert(is_char_boundary(rest, 0));
    } else {
        assert(is_char_boundary(rest, k - l));
        if k - l < 0 {
            assert(false);
        }
        if k - l == 0 {
            assert(rest[0] == bytes[k]);
            lemma_boundary_after_ascii(rest, 0);
        } else {
            assert(rest[k - l] == bytes[k]);
            lemma_boundary_after_ascii(rest, k - l);
        }
    }
}

/// Valid UTF-8 split before an ASCII byte gives two valid parts.
pub proof fn lemma_split_before_ascii(a: Seq<u8>, b: Seq<u8>)
    requires
        valid_utf8(a + b),
        b.len() > 0,
        b[0] < 128,
    ensures
        valid_utf8(a),
        valid_utf8(b),
{
    let s = a + b;
    let k = a.len() as int;
    assert(s[k] == b[0]);
    is_char_boundary_iff_not_is_continuation_byte(s, k);
    valid_utf8_split(s, k);
    assert(s.subrange(0, k) =~= a);
    assert(s.subrange(k, s.len() as int) =~= b);
}

/// Valid UTF-8 split after an ASCII byte gives two valid parts.
pub proof fn lemma_split_after_ascii(a: Seq<u8>, b: Seq<u8>)
    requires
        valid_utf8(a + b),
        a.len() > 0,
        a[a.len() - 1] < 128,
    ensures
        valid_utf8(a),
        valid_utf8(b),
{
    let s = a + b;
    let k = a.len() - 1;
    assert(s[k] == a[k]);
    is_char_boundary_iff_not_is_continuation_byte(s, k);
    lemma_boundary_after_ascii(s, k);
    valid_utf8_split(s, a.len() as int);
    assert(s.subrange(0, a.len() as int) =~= a);
    assert(s.subrange(a.len() as int, s.len() as int) =~= b);
}

} // verus!

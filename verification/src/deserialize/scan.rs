//! Byte-level scanners: locating delimiters and matching brackets/braces.

use memchr::{memchr, memchr2};
use vstd::prelude::*;

use crate::error::{parse_error, FonError};
use crate::format::{
    closing, closing_from, first_index_of, is_quote_at, line_end_from, value_end, value_end_from,
};

verus! {

/// `memchr::memchr`: the position of the first byte of `data` equal to
/// `target`, if there is one. The contract states exactly that.
#[verifier::external_body]
pub(crate) fn find_byte(data: &[u8], target: u8) -> (r: Option<usize>)
    ensures
        match first_index_of(data@, target) {
            Some(i) => r == Some(i as usize),
            None => r is None,
        },
{
    memchr(target, data)
}

/// The number of bytes before the first `,`, `]`, `\r` or `\n`.
pub fn find_value_end(data: &[u8]) -> (r: usize)
    ensures
        r == value_end(data@),
{
    let mut i: usize = 0;
    while i < data.len()
        invariant
            i <= data@.len(),
            value_end(data@) == value_end_from(data@, i as int),
        decreases data@.len() - i,
    {
        let c = data[i];
        if c == 44 || c == 93 || c == 13 || c == 10 {
            return i;
        }
        i += 1;
    }
    i
}

/// The position of the `close` byte that matches the first `open` byte,
/// skipping strings.
fn closing_index(data: &[u8], open: u8, close: u8) -> (r: Option<usize>)
    ensures
        match closing(data@, open, close) {
            Some(i) => r == Some(i as usize),
            None => r is None,
        },
{
    let mut depth: i128 = 0;
    let mut in_string = false;
    let mut i: usize = 0;
    while i < data.len()
        invariant
            i <= data@.len(),
            -(i as int) <= depth <= i,
            closing(data@, open, close) == closing_from(
                data@,
                i as int,
                depth as int,
                in_string,
                open,
                close,
            ),
        decreases data@.len() - i,
    {
        let c = data[i];
        if c == 34 && (i == 0 || data[i - 1] != 92) {
            assert(is_quote_at(data@, i as int));
            in_string = !in_string;
        } else if !in_string && c == open {
            depth += 1;
        } else if !in_string && c == close {
            depth -= 1;
            if depth == 0 {
                return Some(i);
            }
        }
        i += 1;
    }
    None
}

/// The position of the `]` that matches the `[` at the start.
pub fn find_closing_bracket(data: &[u8]) -> (r: Result<usize, FonError>)
    ensures
        match closing(data@, 91, 93) {
            Some(i) => r == Ok::<usize, FonError>(i as usize),
            None => r matches Err(FonError::Parse(m)) && m@ == "Closing bracket not found"@,
        },
{
    match closing_index(data, 91, 93) {
        Some(i) => Ok(i),
        None => Err(parse_error("Closing bracket not found")),
    }
}

/// The position of the `}` that matches the `{` at the start.
pub fn find_closing_brace(data: &[u8]) -> (r: Result<usize, FonError>)
    ensures
        match closing(data@, 123, 125) {
            Some(i) => r == Ok::<usize, FonError>(i as usize),
            None => r matches Err(FonError::Parse(m)) && m@ == "Closing brace not found"@,
        },
{
    match closing_index(data, 123, 125) {
        Some(i) => Ok(i),
        None => Err(parse_error("Closing brace not found")),
    }
}

/// `memchr::memchr2` asked for `\n` and `\r`: the position of the first byte
/// of `data` that ends a line, if there is one. The contract states exactly
/// that.
#[verifier::external_body]
pub(crate) fn find_line_end(data: &[u8]) -> (r: Option<usize>)
    ensures
        match line_end_from(data@, 0) {
            Some(i) => r == Some(i as usize),
            None => r is None,
        },
{
    memchr2(b'\n', b'\r', data)
}

} // verus!

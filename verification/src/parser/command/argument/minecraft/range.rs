//! Ranges of numbers such as `1..5`, `..-3` or `7`.

use crate::parser::command::argument::brigadier::{decimal_literal, is_decimal_literal};
use crate::text::{
    after, is_suffix, lemma_after_suffix,
    bytes_start_with, find_span_end, lemma_span_end, lemma_splittable_after_ascii,
    lemma_view_text, parse_i32, parse_i32_spec, skip_str, slice_str, span_end, splittable,
    starts_with_at, take_str, text,
};
use vstd::prelude::*;
use vstd::string::*;

verus! {

/// A range of numbers; a missing bound is unbounded.
#[derive(Clone, Debug, Eq, PartialEq)]
pub struct MinecraftRange<N> {
    /// The lower bound.
    pub min: Option<N>,
    /// The upper bound.
    pub max: Option<N>,
}

/// A character of a number in a range, apart from `.`.
pub open spec fn range_digit_char(c: char) -> bool {
    ('0' <= c <= '9') || c == '-'
}

/// The predicate `range_digit_char` as a value.
pub open spec fn range_digit_pred() -> spec_fn(char) -> bool {
    |c: char| range_digit_char(c)
}

/// Where the number that starts at offset `i` of `b` ends: digits and `-`, joined by single `.`
/// that do not start a `..` separator.
pub open spec fn range_number_end(b: Seq<u8>, i: int) -> int
    decreases b.len() - i,
{
    let j = span_end(b, i, range_digit_pred());
    if 0 <= i <= j < b.len() && b[j] == '.' as u8 && !(j + 1 < b.len() && b[j + 1] == '.' as u8) {
        range_number_end(b, j + 1)
    } else {
        j
    }
}

proof fn lemma_range_number_end(b: Seq<u8>, i: int)
    requires
        0 <= i <= b.len(),
    ensures
        i <= range_number_end(b, i) <= b.len(),
        i < range_number_end(b, i) ==> b[range_number_end(b, i) - 1] < 0x80,
    decreases b.len() - i,
{
    lemma_span_end(b, i, range_digit_pred());
    let j = span_end(b, i, range_digit_pred());
    if i < j {
        assert(range_digit_char(b[j - 1] as char));
    }
    if j < b.len() && b[j] == '.' as u8 && !(j + 1 < b.len() && b[j + 1] == '.' as u8) {
        lemma_range_number_end(b, j + 1);
    }
}

/// Whether `c` may appear in a number of a range, apart from `.`.
fn is_allowed_number(c: char) -> (res: bool)
    ensures
        res == range_digit_char(c),
{
    c >= '0' && c <= '9' || c == '-'
}

/// The length of the number at the start of `string`.
fn number_len(string: &str) -> (res: usize)
    ensures
        res == range_number_end(string.spec_bytes(), 0),
{
    let b = string.as_bytes();
    let ghost bs = b@;
    let mut index: usize = 0;
    loop
        invariant
            bs == b@,
            bs == string.spec_bytes(),
            index <= bs.len(),
            range_number_end(bs, index as int) == range_number_end(bs, 0),
        decreases bs.len() - index,
    {
        let ghost start = index;
        index = find_span_end(b, index, is_allowed_number, Ghost(range_digit_pred()));
        proof {
            lemma_span_end(bs, start as int, range_digit_pred());
        }
        if index < b.len() && b[index] == '.' as u8 && !(index + 1 < b.len() && b[index + 1]
            == '.' as u8) {
            index = index + 1;
        } else {
            return index;
        }
    }
}

/// How a range is laid out at the start of `b`: the length of its lower bound, whether a `..`
/// separator follows, and the length of the upper bound after it.
pub open spec fn range_layout(b: Seq<u8>) -> (int, bool, int) {
    let m = range_number_end(b, 0);
    if starts_with_at(b, m, seq!['.' as u8, '.' as u8]) {
        (m, true, range_number_end(b.subrange(m + 2, b.len() as int), 0))
    } else {
        (m, false, 0)
    }
}

/// The text of the lower bound of the range at the start of `b`.
pub open spec fn range_min_text(b: Seq<u8>) -> Seq<u8> {
    b.subrange(0, range_layout(b).0)
}

/// The text of the upper bound of the range at the start of `b`.
pub open spec fn range_max_text(b: Seq<u8>) -> Seq<u8> {
    let (m, sep, k) = range_layout(b);
    if sep {
        b.subrange(m + 2, m + 2 + k)
    } else {
        b.subrange(0, m)
    }
}

/// The number of bytes the range at the start of `b` takes.
pub open spec fn range_len(b: Seq<u8>) -> int {
    let (m, sep, k) = range_layout(b);
    if sep {
        m + 2 + k
    } else {
        m
    }
}

/// A bound of an integer range: `Some(None)` when absent, `None` when invalid.
pub open spec fn int_bound(t: Seq<u8>) -> Option<Option<i32>> {
    if t.len() == 0 {
        Some(None)
    } else {
        match parse_i32_spec(t) {
            Some(v) => Some(Some(v)),
            None => None,
        }
    }
}

/// The message for an invalid bound.
pub open spec fn invalid_bound_message(t: Seq<u8>) -> Seq<char> {
    "Invalid integer '"@ + text(t) + "'"@
}

/// The message for a range without bounds.
pub open spec fn empty_range_message() -> Seq<char> {
    "Expected value or range of values"@
}

/// The parts of a range at the start of `string` and their offsets.
struct RangeParts<'l> {
    min: &'l str,
    max: &'l str,
    len: usize,
    rest: &'l str,
}

/// Splits the range at the start of `string` into the texts of its bounds.
fn range_parts(string: &str) -> (res: RangeParts)
    ensures
        res.min.spec_bytes() == range_min_text(string.spec_bytes()),
        res.max.spec_bytes() == range_max_text(string.spec_bytes()),
        res.len == range_len(string.spec_bytes()),
        res.rest.spec_bytes() == after(string.spec_bytes(), range_len(string.spec_bytes())),
        is_suffix(res.rest.spec_bytes(), string.spec_bytes()),
{
    let b = string.as_bytes();
    let min_len = number_len(string);
    proof {
        lemma_range_number_end(b@, 0);
        lemma_splittable_after_ascii(string, min_len as int);
    }
    let min = take_str(string, min_len);
    let n = b.len();
    let sep: [u8; 2] = ['.' as u8, '.' as u8];
    let sep_slice: &[u8] = &sep;
    proof {
        assert(sep_slice@ =~= seq!['.' as u8, '.' as u8]);
    }
    if bytes_start_with(b, min_len, sep_slice) {
        proof {
            assert(min_len + 2 <= n);
            lemma_splittable_after_ascii(string, min_len + 2);
        }
        let suffix = skip_str(string, min_len + 2);
        let max_len = number_len(suffix);
        proof {
            lemma_range_number_end(suffix.spec_bytes(), 0);
            lemma_splittable_after_ascii(suffix, max_len as int);
        }
        let max = take_str(suffix, max_len);
        let rest = skip_str(suffix, max_len);
        proof {
            assert(max.spec_bytes() =~= b@.subrange(min_len + 2, min_len + 2 + max_len));
            assert(rest.spec_bytes() =~= after(b@, min_len + 2 + max_len));
            lemma_after_suffix(b@, min_len + 2 + max_len);
        }
        RangeParts { min, max, len: min_len + 2 + max_len, rest }
    } else {
        proof {
            lemma_after_suffix(b@, min_len as int);
        }
        RangeParts { min, max: min, len: min_len, rest: skip_str(string, min_len) }
    }
}

/// An integer bound from its text.
fn parse_int_bound(t: &str) -> (res: Result<Option<i32>, String>)
    ensures
        match int_bound(t.spec_bytes()) {
            Some(v) => res == Ok::<Option<i32>, String>(v),
            None => res matches Err(e) && e@ == invalid_bound_message(t.spec_bytes()),
        },
{
    if t.as_bytes().len() == 0 {
        Ok(None)
    } else {
        match parse_i32(t) {
            Some(v) => Ok(Some(v)),
            None => {
                let mut e = String::from_str("Invalid integer '");
                e.append(t);
                e.append("'");
                proof {
                    lemma_view_text(t);
                }
                Err(e)
            },
        }
    }
}

impl MinecraftRange<i32> {
    /// The integer range at the start of `string` and its length in bytes.
    pub fn parse(string: &str) -> (res: Result<(Self, usize), String>)
        ensures
            ({
                let b = string.spec_bytes();
                match (int_bound(range_min_text(b)), int_bound(range_max_text(b))) {
                    (None, _) => res matches Err(e) && e@ == invalid_bound_message(
                        range_min_text(b),
                    ),
                    (Some(_), None) => res matches Err(e) && e@ == invalid_bound_message(
                        range_max_text(b),
                    ),
                    (Some(None), Some(None)) => res matches Err(e) && e@ == empty_range_message(),
                    (Some(min), Some(max)) => res == Ok::<(Self, usize), String>(
                        (MinecraftRange { min, max }, range_len(b) as usize),
                    ),
                }
            }),
    {
        let parts = range_parts(string);
        let min = parse_int_bound(parts.min)?;
        let max = parse_int_bound(parts.max)?;
        if min.is_none() && max.is_none() {
            Err(String::from_str("Expected value or range of values"))
        } else {
            Ok((MinecraftRange { min, max }, parts.len))
        }
    }
}

/// A decimal bound: `Some(None)` when absent, `None` when invalid; the text when present.
pub open spec fn decimal_bound(t: Seq<u8>) -> Option<Option<Seq<u8>>> {
    if t.len() == 0 {
        Some(None)
    } else if decimal_literal(t) {
        Some(Some(t))
    } else {
        None
    }
}

/// The text of an optional bound.
pub open spec fn bound_text(b: Option<&str>) -> Option<Seq<u8>> {
    match b {
        Some(s) => Some(s.spec_bytes()),
        None => None,
    }
}

/// A decimal bound from its text.
fn parse_decimal_bound(t: &str) -> (res: Result<Option<&str>, String>)
    ensures
        match decimal_bound(t.spec_bytes()) {
            Some(v) => res matches Ok(r) && bound_text(r) == v,
            None => res matches Err(e) && e@ == invalid_bound_message(t.spec_bytes()),
        },
{
    if t.as_bytes().len() == 0 {
        Ok(None)
    } else if is_decimal_literal(t) {
        Ok(Some(t))
    } else {
        let mut e = String::from_str("Invalid integer '");
        e.append(t);
        e.append("'");
        proof {
            lemma_view_text(t);
        }
        Err(e)
    }
}

impl<'l> MinecraftRange<&'l str> {
    /// The range of decimal numbers at the start of `string`, with the bounds as text, and its
    /// length in bytes.
    pub fn parse(string: &'l str) -> (res: Result<(Self, usize), String>)
        ensures
            ({
                let b = string.spec_bytes();
                match (decimal_bound(range_min_text(b)), decimal_bound(range_max_text(b))) {
                    (None, _) => res matches Err(e) && e@ == invalid_bound_message(
                        range_min_text(b),
                    ),
                    (Some(_), None) => res matches Err(e) && e@ == invalid_bound_message(
                        range_max_text(b),
                    ),
                    (Some(None), Some(None)) => res matches Err(e) && e@ == empty_range_message(),
                    (Some(min), Some(max)) => res matches Ok((r, n)) && n == range_len(b)
                        && bound_text(r.min) == min && bound_text(r.max) == max,
                }
            }),
    {
        let parts = range_parts(string);
        let min = parse_decimal_bound(parts.min)?;
        let max = parse_decimal_bound(parts.max)?;
        if min.is_none() && max.is_none() {
            Err(String::from_str("Expected value or range of values"))
        } else {
            Ok((MinecraftRange { min, max }, parts.len))
        }
    }
}

/// The integer range at the start of `b` and what follows it.
pub open spec fn int_range_spec(b: Seq<u8>) -> Result<(MinecraftRange<i32>, Seq<u8>), Seq<char>> {
    match (int_bound(range_min_text(b)), int_bound(range_max_text(b))) {
        (None, _) => Err(invalid_bound_message(range_min_text(b))),
        (Some(_), None) => Err(invalid_bound_message(range_max_text(b))),
        (Some(None), Some(None)) => Err(empty_range_message()),
        (Some(min), Some(max)) => Ok((MinecraftRange { min, max }, after(b, range_len(b)))),
    }
}

/// The bounds of a range of decimal numbers, as text.
pub open spec fn decimal_range_model(r: MinecraftRange<&str>) -> (Option<Seq<u8>>, Option<Seq<u8>>) {
    (bound_text(r.min), bound_text(r.max))
}

/// The range of decimal numbers at the start of `b`, its bounds as text, and what follows it.
pub open spec fn decimal_range_spec(b: Seq<u8>) -> Result<
    ((Option<Seq<u8>>, Option<Seq<u8>>), Seq<u8>),
    Seq<char>,
> {
    match (decimal_bound(range_min_text(b)), decimal_bound(range_max_text(b))) {
        (None, _) => Err(invalid_bound_message(range_min_text(b))),
        (Some(_), None) => Err(invalid_bound_message(range_max_text(b))),
        (Some(None), Some(None)) => Err(empty_range_message()),
        (Some(min), Some(max)) => Ok(((min, max), after(b, range_len(b)))),
    }
}

/// The integer range at the start of `string`, and the rest of `string`.
pub fn parse_int_range_prefix(string: &str) -> (res: Result<(MinecraftRange<i32>, &str), String>)
    ensures
        match int_range_spec(string.spec_bytes()) {
            Ok((v, r)) => res matches Ok((w, x)) && w == v && x.spec_bytes() == r && is_suffix(
                r,
                string.spec_bytes(),
            ),
            Err(m) => res matches Err(e) && e@ == m,
        },
{
    let parts = range_parts(string);
    let min = match parse_int_bound(parts.min) {
        Ok(v) => v,
        Err(e) => return Err(e),
    };
    let max = match parse_int_bound(parts.max) {
        Ok(v) => v,
        Err(e) => return Err(e),
    };
    if min.is_none() && max.is_none() {
        Err(String::from_str("Expected value or range of values"))
    } else {
        Ok((MinecraftRange { min, max }, parts.rest))
    }
}

/// The range of decimal numbers at the start of `string`, and the rest of `string`.
pub fn parse_decimal_range_prefix<'l>(string: &'l str) -> (res: Result<(MinecraftRange<&'l str>, &'l str), String>)
    ensures
        match decimal_range_spec(string.spec_bytes()) {
            Ok((v, r)) => res matches Ok((w, x)) && decimal_range_model(w) == v && x.spec_bytes()
                == r && is_suffix(r, string.spec_bytes()),
            Err(m) => res matches Err(e) && e@ == m,
        },
{
    let parts = range_parts(string);
    let min = match parse_decimal_bound(parts.min) {
        Ok(v) => v,
        Err(e) => return Err(e),
    };
    let max = match parse_decimal_bound(parts.max) {
        Ok(v) => v,
        Err(e) => return Err(e),
    };
    if min.is_none() && max.is_none() {
        Err(String::from_str("Expected value or range of values"))
    } else {
        Ok((MinecraftRange { min, max }, parts.rest))
    }
}

} // verus!

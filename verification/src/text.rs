//! Byte-level helpers for working with UTF-8 string slices.

use vstd::prelude::*;
use vstd::string::*;
use vstd::utf8::*;

verus! {

/// A byte offset into `b` at which a string slice may be split: the end of the bytes, or a byte
/// that does not continue a multi-byte character.
pub open spec fn splittable(b: Seq<u8>, i: int) -> bool {
    i == b.len() || (0 <= i < b.len() && !is_continuation_byte(b[i]))
}

/// Splitting a valid UTF-8 encoding at a splittable offset splits it at a character boundary.
pub proof fn lemma_splittable_is_boundary(s: &str, i: int)
    requires
        splittable(s.spec_bytes(), i),
    ensures
        is_char_boundary(s.spec_bytes(), i),
{
    let b = s.spec_bytes();
    encode_utf8_valid_utf8(s@);
    if i == b.len() {
        is_char_boundary_start_end_of_seq(b);
    } else {
        is_char_boundary_iff_not_is_continuation_byte(b, i);
    }
}

/// Splits `s` at byte offset `mid`.
pub fn split_str(s: &str, mid: usize) -> (res: (&str, &str))
    requires
        splittable(s.spec_bytes(), mid as int),
    ensures
        res.0.spec_bytes() == s.spec_bytes().subrange(0, mid as int),
        res.1.spec_bytes() == s.spec_bytes().subrange(mid as int, s.spec_bytes().len() as int),
{
    proof {
        lemma_splittable_is_boundary(s, mid as int);
    }
    s.split_at(mid)
}


/// The bytes of a string slice starting at byte offset `i` begin with `p`.
pub open spec fn starts_with_at(b: Seq<u8>, i: int, p: Seq<u8>) -> bool {
    0 <= i && i + p.len() <= b.len() && b.subrange(i, i + p.len()) == p
}

/// The UTF-8 encoding of a single character.
pub open spec fn char_bytes(c: char) -> Seq<u8> {
    encode_scalar(c as u32)
}

/// Right after a complete first character, a valid UTF-8 encoding may be split.
pub proof fn lemma_after_first_char_splittable(b: Seq<u8>)
    requires
        valid_utf8(b),
        b.len() > 0,
    ensures
        1 <= length_of_first_scalar(b) <= 4,
        length_of_first_scalar(b) <= b.len(),
        splittable(b, length_of_first_scalar(b)),
        valid_utf8(b.subrange(length_of_first_scalar(b), b.len() as int)),
{
    let k = length_of_first_scalar(b);
    let rest = pop_first_scalar(b);
    assert(valid_utf8(rest));
    if rest.len() > 0 {
        assert(valid_first_scalar(rest));
        assert(rest[0] == b[k]);
    }
}

/// The UTF-8 encoding of a string slice that starts with the encoding of `c` may be split right
/// after it.
pub proof fn lemma_char_prefix_splittable(s: &str, c: char)
    requires
        starts_with_at(s.spec_bytes(), 0, char_bytes(c)),
    ensures
        splittable(s.spec_bytes(), char_bytes(c).len() as int),
        1 <= char_bytes(c).len() <= 4,
{
    let b = s.spec_bytes();
    let e = encode_utf8(seq![c]);
    encode_utf8_valid_utf8(s@);
    encode_utf8_first_scalar(seq![c]);
    assert(seq![c].drop_first() =~= Seq::<char>::empty());
    reveal_with_fuel(encode_utf8, 2);
    assert(e =~= char_bytes(c));
    assert(b[0] == char_bytes(c)[0]) by {
        assert(b.subrange(0, char_bytes(c).len() as int)[0] == b[0]);
    }
    lemma_after_first_char_splittable(b);
}

/// The UTF-8 encoding of `c`.
pub fn encode_char(c: char) -> (res: Vec<u8>)
    ensures
        res@ == char_bytes(c),
{
    let v = c as u32;
    proof {
        char_is_scalar(c);
    }
    let mut res = Vec::new();
    if v <= 0x7F {
        res.push((v & 0x7F) as u8);
    } else if v <= 0x7FF {
        res.push(0xC0 | ((v >> 6) & 0x1F) as u8);
        res.push(0x80 | (v & 0x3F) as u8);
    } else if v <= 0xFFFF {
        res.push(0xE0 | ((v >> 12) & 0x0F) as u8);
        res.push(0x80 | ((v >> 6) & 0x3F) as u8);
        res.push(0x80 | (v & 0x3F) as u8);
    } else {
        res.push(0xF0 | ((v >> 18) & 0x7) as u8);
        res.push(0x80 | ((v >> 12) & 0x3F) as u8);
        res.push(0x80 | ((v >> 6) & 0x3F) as u8);
        res.push(0x80 | (v & 0x3F) as u8);
    }
    proof {
        assert(res@ =~= char_bytes(c));
    }
    res
}

/// Whether `b` holds `p` at byte offset `i`.
pub fn bytes_start_with(b: &[u8], i: usize, p: &[u8]) -> (res: bool)
    ensures
        res == starts_with_at(b@, i as int, p@),
{
    if i > b.len() || p.len() > b.len() - i {
        return false;
    }
    let mut k: usize = 0;
    while k < p.len()
        invariant
            i + p.len() <= b.len(),
            k <= p.len(),
            forall|j: int| 0 <= j < k ==> b@[i + j] == p@[j],
        decreases p.len() - k,
    {
        if b[i + k] != p[k] {
            proof {
                assert(b@.subrange(i as int, i + p.len())[k as int] != p@[k as int]);
            }
            return false;
        }
        k = k + 1;
    }
    proof {
        assert(b@.subrange(i as int, i + p@.len()) =~= p@);
    }
    true
}

/// `s` without its first character, if that character is `c`.
pub fn strip_prefix_char(s: &str, c: char) -> (res: Option<&str>)
    ensures
        res is Some <==> starts_with_at(s.spec_bytes(), 0, char_bytes(c)),
        res matches Some(rest) ==> rest.spec_bytes() == s.spec_bytes().subrange(
            char_bytes(c).len() as int,
            s.spec_bytes().len() as int,
        ),
{
    let e = encode_char(c);
    let b = s.as_bytes();
    if bytes_start_with(b, 0, e.as_slice()) {
        proof {
            lemma_char_prefix_splittable(s, c);
        }
        let (_, rest) = split_str(s, e.len());
        Some(rest)
    } else {
        None
    }
}


/// The number of bytes of the UTF-8 encoded Unicode `White_Space` character that `b` starts with,
/// or 0 when `b` does not start with one. These are U+0009 to U+000D, U+0020, U+0085, U+00A0,
/// U+1680, U+2000 to U+200A, U+2028, U+2029, U+202F, U+205F and U+3000.
pub open spec fn whitespace_len(b: Seq<u8>) -> int {
    if b.len() >= 1 && ((0x09 <= b[0] <= 0x0D) || b[0] == 0x20) {
        1
    } else if b.len() >= 2 && b[0] == 0xC2 && (b[1] == 0x85 || b[1] == 0xA0) {
        2
    } else if b.len() >= 3 && b[0] == 0xE1 && b[1] == 0x9A && b[2] == 0x80 {
        3
    } else if b.len() >= 3 && b[0] == 0xE2 && b[1] == 0x80 && ((0x80 <= b[2] <= 0x8A) || b[2]
        == 0xA8 || b[2] == 0xA9 || b[2] == 0xAF) {
        3
    } else if b.len() >= 3 && b[0] == 0xE2 && b[1] == 0x81 && b[2] == 0x9F {
        3
    } else if b.len() >= 3 && b[0] == 0xE3 && b[1] == 0x80 && b[2] == 0x80 {
        3
    } else {
        0
    }
}

/// The number of bytes of leading whitespace in `b`.
pub open spec fn trim_start_len(b: Seq<u8>) -> int
    decreases b.len(),
{
    let w = whitespace_len(b);
    if w == 0 {
        0
    } else {
        w + trim_start_len(b.subrange(w, b.len() as int))
    }
}

/// Bounds of the leading whitespace.
pub proof fn lemma_trim_start_len_bounds(b: Seq<u8>)
    ensures
        0 <= trim_start_len(b) <= b.len(),
    decreases b.len(),
{
    let w = whitespace_len(b);
    if w != 0 {
        lemma_trim_start_len_bounds(b.subrange(w, b.len() as int));
    }
}

fn whitespace_len_at(b: &[u8], i: usize) -> (w: usize)
    requires
        i <= b@.len(),
    ensures
        w == whitespace_len(b@.subrange(i as int, b@.len() as int)),
        w <= b@.len() - i,
{
    let ghost t = b@.subrange(i as int, b@.len() as int);
    let n = b.len() - i;
    if n >= 1 && ((0x09 <= b[i] && b[i] <= 0x0D) || b[i] == 0x20) {
        1
    } else if n >= 2 && b[i] == 0xC2 && (b[i + 1] == 0x85 || b[i + 1] == 0xA0) {
        2
    } else if n >= 3 && b[i] == 0xE1 && b[i + 1] == 0x9A && b[i + 2] == 0x80 {
        3
    } else if n >= 3 && b[i] == 0xE2 && b[i + 1] == 0x80 && ((0x80 <= b[i + 2] && b[i + 2]
        <= 0x8A) || b[i + 2] == 0xA8 || b[i + 2] == 0xA9 || b[i + 2] == 0xAF) {
        3
    } else if n >= 3 && b[i] == 0xE2 && b[i + 1] == 0x81 && b[i + 2] == 0x9F {
        3
    } else if n >= 3 && b[i] == 0xE3 && b[i + 1] == 0x80 && b[i + 2] == 0x80 {
        3
    } else {
        0
    }
}

/// `s` with leading Unicode whitespace removed.
pub fn trim_start(s: &str) -> (res: &str)
    ensures
        res.spec_bytes() == s.spec_bytes().subrange(
            trim_start_len(s.spec_bytes()),
            s.spec_bytes().len() as int,
        ),
{
    let b = s.as_bytes();
    let ghost bs = b@;
    let n = b.len();
    let mut i: usize = 0;
    proof {
        encode_utf8_valid_utf8(s@);
        assert(bs.subrange(0, bs.len() as int) =~= bs);
    }
    loop
        invariant
            bs == s.spec_bytes(),
            bs == b@,
            n == bs.len(),
            i <= bs.len(),
            splittable(bs, i as int),
            valid_utf8(bs.subrange(i as int, bs.len() as int)),
            i + trim_start_len(bs.subrange(i as int, bs.len() as int)) == trim_start_len(bs),
        ensures
            i <= bs.len(),
            splittable(bs, i as int),
            whitespace_len(bs.subrange(i as int, bs.len() as int)) == 0,
            i + trim_start_len(bs.subrange(i as int, bs.len() as int)) == trim_start_len(bs),
        decreases bs.len() - i,
    {
        let w = whitespace_len_at(b, i);
        if w == 0 {
            break;
        }
        proof {
            let t = bs.subrange(i as int, bs.len() as int);
            lemma_after_first_char_splittable(t);
            assert(length_of_first_scalar(t) == w);
            assert(t.subrange(w as int, t.len() as int) =~= bs.subrange(i + w, bs.len() as int));
            if i + w < bs.len() {
                assert(t[w as int] == bs[i + w]);
            }
        }
        i = i + w;
    }
    proof {
        lemma_trim_start_len_bounds(bs.subrange(i as int, bs.len() as int));
    }
    let (_, rest) = split_str(s, i);
    rest
}


/// The first offset at or after `i` whose byte, read as a character, does not satisfy `p`
/// (or the length of `b`).
pub open spec fn span_end(b: Seq<u8>, i: int, p: spec_fn(char) -> bool) -> int
    decreases b.len() - i,
{
    if i < 0 || i >= b.len() || !p(b[i] as char) {
        i
    } else {
        span_end(b, i + 1, p)
    }
}

/// What `span_end` is.
pub proof fn lemma_span_end(b: Seq<u8>, i: int, p: spec_fn(char) -> bool)
    requires
        0 <= i <= b.len(),
    ensures
        i <= span_end(b, i, p) <= b.len(),
        forall|j: int| i <= j < span_end(b, i, p) ==> p(#[trigger] b[j] as char),
        span_end(b, i, p) < b.len() ==> !p(b[span_end(b, i, p)] as char),
    decreases b.len() - i,
{
    if i < b.len() && p(b[i] as char) {
        lemma_span_end(b, i + 1, p);
    }
}

/// The offset of the first byte at or after `start` whose character does not satisfy `p`.
pub fn find_span_end(
    b: &[u8],
    start: usize,
    f: impl Fn(char) -> bool,
    Ghost(p): Ghost<spec_fn(char) -> bool>,
) -> (end: usize)
    requires
        start <= b@.len(),
        forall|c: char| f.requires((c,)),
        forall|c: char, r: bool| f.ensures((c,), r) ==> r == p(c),
    ensures
        end == span_end(b@, start as int, p),
        start <= end <= b@.len(),
{
    let mut i: usize = start;
    proof {
        lemma_span_end(b@, start as int, p);
    }
    while i < b.len() && f(b[i] as char)
        invariant
            start <= i <= b@.len(),
            forall|c: char| f.requires((c,)),
            forall|c: char, r: bool| f.ensures((c,), r) ==> r == p(c),
            span_end(b@, i as int, p) == span_end(b@, start as int, p),
        decreases b@.len() - i,
    {
        i = i + 1;
    }
    proof {
        lemma_span_end(b@, i as int, p);
    }
    i
}

/// A string slice may be split at the start, at the end, or right after an ASCII character.
pub proof fn lemma_splittable_after_ascii(s: &str, i: int)
    requires
        0 <= i <= s.spec_bytes().len(),
        i == 0 || s.spec_bytes()[i - 1] < 0x80,
    ensures
        splittable(s.spec_bytes(), i),
{
    let b = s.spec_bytes();
    encode_utf8_valid_utf8(s@);
    if i == b.len() {
    } else if i == 0 {
        assert(valid_first_scalar(b));
    } else {
        is_char_boundary_iff_not_is_continuation_byte(b, i - 1);
        valid_utf8_split(b, i - 1);
        let t = b.subrange(i - 1, b.len() as int);
        lemma_after_first_char_splittable(t);
        assert(t[0] == b[i - 1]);
        assert(t[1] == b[i]);
    }
}

/// The prefix of `s` up to byte offset `mid`.
pub fn take_str(s: &str, mid: usize) -> (res: &str)
    requires
        splittable(s.spec_bytes(), mid as int),
    ensures
        res.spec_bytes() == s.spec_bytes().subrange(0, mid as int),
{
    split_str(s, mid).0
}

/// The suffix of `s` from byte offset `mid`.
pub fn skip_str(s: &str, mid: usize) -> (res: &str)
    requires
        splittable(s.spec_bytes(), mid as int),
    ensures
        res.spec_bytes() == s.spec_bytes().subrange(mid as int, s.spec_bytes().len() as int),
{
    split_str(s, mid).1
}

/// Whether two byte sequences are equal.
pub fn bytes_eq(a: &[u8], b: &[u8]) -> (res: bool)
    ensures
        res == (a@ == b@),
{
    if a.len() != b.len() {
        return false;
    }
    let mut i: usize = 0;
    while i < a.len()
        invariant
            a@.len() == b@.len(),
            i <= a@.len(),
            forall|j: int| 0 <= j < i ==> a@[j] == b@[j],
        decreases a@.len() - i,
    {
        if a[i] != b[i] {
            return false;
        }
        i = i + 1;
    }
    proof {
        assert(a@ =~= b@);
    }
    true
}

/// Whether two string slices hold the same bytes.
pub fn str_eq(a: &str, b: &str) -> (res: bool)
    ensures
        res == (a.spec_bytes() == b.spec_bytes()),
{
    bytes_eq(a.as_bytes(), b.as_bytes())
}

/// An ASCII decimal digit.
pub open spec fn is_digit_byte(c: u8) -> bool {
    '0' as u8 <= c <= '9' as u8
}

/// The value of a sequence of decimal digits.
pub open spec fn digits_value(d: Seq<u8>) -> int
    decreases d.len(),
{
    if d.len() == 0 {
        0
    } else {
        digits_value(d.drop_last()) * 10 + (d.last() - ('0' as u8))
    }
}

/// Every byte of `d` is a decimal digit.
pub open spec fn all_digits(d: Seq<u8>) -> bool {
    forall|i: int| 0 <= i < d.len() ==> is_digit_byte(#[trigger] d[i])
}

/// The number of sign bytes (`+` or `-`) at the start of `b`: 0 or 1.
pub open spec fn sign_len(b: Seq<u8>) -> int {
    if b.len() > 0 && (b[0] == '-' as u8 || b[0] == '+' as u8) {
        1
    } else {
        0
    }
}

/// What `str::parse::<i32>` accepts: an optional `+` or `-` followed by at least one decimal
/// digit, with the value in the range of `i32`.
pub open spec fn parse_i32_spec(b: Seq<u8>) -> Option<i32> {
    let d = b.subrange(sign_len(b), b.len() as int);
    let v = if b.len() > 0 && b[0] == '-' as u8 {
        -digits_value(d)
    } else {
        digits_value(d)
    };
    if d.len() == 0 || !all_digits(d) {
        None
    } else if i32::MIN <= v <= i32::MAX {
        Some(v as i32)
    } else {
        None
    }
}

proof fn lemma_digits_value_prefix(d: Seq<u8>, i: int)
    requires
        0 <= i <= d.len(),
        forall|j: int| 0 <= j < d.len() ==> is_digit_byte(#[trigger] d[j]),
    ensures
        digits_value(d) >= digits_value(d.subrange(0, i)) >= 0,
    decreases d.len(),
{
    if d.len() > 0 {
        let t = d.drop_last();
        assert forall|j: int| 0 <= j < t.len() implies is_digit_byte(#[trigger] t[j]) by {
            assert(t[j] == d[j]);
        }
        if i == d.len() {
            assert(d.subrange(0, i) =~= d);
            lemma_digits_value_prefix(t, t.len() as int);
            assert(t.subrange(0, t.len() as int) =~= t);
        } else {
            lemma_digits_value_prefix(t, i);
            assert(t.subrange(0, i) =~= d.subrange(0, i));
            lemma_digits_value_prefix(t, t.len() as int);
            assert(t.subrange(0, t.len() as int) =~= t);
        }
    }
}

/// Parses `s` as a decimal `i32` the way `str::parse::<i32>` does.
pub fn parse_i32(s: &str) -> (res: Option<i32>)
    ensures
        res == parse_i32_spec(s.spec_bytes()),
{
    let b = s.as_bytes();
    let ghost bs = b@;
    let n = b.len();
    let neg = n > 0 && b[0] == '-' as u8;
    let signed = n > 0 && (b[0] == '-' as u8 || b[0] == '+' as u8);
    let start: usize = if signed {
        1
    } else {
        0
    };
    let ghost d = bs.subrange(start as int, bs.len() as int);
    if start == n {
        return None;
    }
    let mut acc: i64 = 0;
    let mut over = false;
    let mut i: usize = start;
    while i < n
        invariant
            bs == b@,
            bs == s.spec_bytes(),
            n == bs.len(),
            start <= i <= n,
            d == bs.subrange(start as int, bs.len() as int),
            neg == (bs.len() > 0 && bs[0] == '-' as u8),
            signed == (bs.len() > 0 && (bs[0] == '-' as u8 || bs[0] == '+' as u8)),
            start == sign_len(bs),
            forall|j: int| 0 <= j < i - start ==> is_digit_byte(#[trigger] d[j]),
            !over ==> acc == digits_value(d.subrange(0, i - start)),
            !over ==> acc <= 0x80000000,
            over ==> digits_value(d.subrange(0, i - start)) > 0x80000000,
            0 <= acc,
        decreases n - i,
    {
        let c = b[i];
        if c < '0' as u8 || c > '9' as u8 {
            proof {
                let k = (i - start) as int;
                assert(!is_digit_byte(d[k]));
                assert(!all_digits(d));
            }
            return None;
        }
        proof {
            let p = d.subrange(0, i - start + 1);
            assert(p.drop_last() =~= d.subrange(0, i - start));
            assert(p.last() == c);
            assert(forall|j: int| 0 <= j < p.drop_last().len() ==> is_digit_byte(#[trigger] p.drop_last()[j]));
            lemma_digits_value_prefix(p.drop_last(), p.drop_last().len() as int);
            assert(p.drop_last().subrange(0, p.drop_last().len() as int) =~= p.drop_last());
        }
        if !over {
            let next = acc * 10 + (c - '0' as u8) as i64;
            if next > 0x80000000 {
                over = true;
            } else {
                acc = next;
            }
        }
        i = i + 1;
    }
    proof {
        assert(d.subrange(0, n - start) =~= d);
    }
    if over {
        return None;
    }
    if neg {
        Some((-acc) as i32)
    } else if acc <= 0x7FFFFFFF {
        Some(acc as i32)
    } else {
        None
    }
}


/// The characters that the UTF-8 bytes `b` encode.
pub open spec fn text(b: Seq<u8>) -> Seq<char> {
    decode_utf8(b)
}

/// The characters of a string slice are the decoding of its bytes.
pub proof fn lemma_view_text(s: &str)
    ensures
        s@ == text(s.spec_bytes()),
{
    encode_utf8_decode_utf8(s@);
}

/// The first byte of a character's encoding never continues another character.
pub proof fn lemma_char_bytes_leading(c: char)
    ensures
        1 <= char_bytes(c).len() <= 4,
        !is_continuation_byte(char_bytes(c)[0]),
        length_of_first_scalar(char_bytes(c)) == char_bytes(c).len(),
        encode_utf8(seq![c]) == char_bytes(c),
{
    encode_utf8_valid_utf8(seq![c]);
    encode_utf8_first_scalar(seq![c]);
    assert(seq![c].drop_first() =~= Seq::<char>::empty());
    reveal_with_fuel(encode_utf8, 2);
    assert(encode_utf8(seq![c]) =~= char_bytes(c));
}

/// A string slice may be split right before and right after an encoded character in it.
pub proof fn lemma_char_at_splittable(s: &str, i: int, c: char)
    requires
        starts_with_at(s.spec_bytes(), i, char_bytes(c)),
    ensures
        splittable(s.spec_bytes(), i),
        splittable(s.spec_bytes(), i + char_bytes(c).len()),
{
    let b = s.spec_bytes();
    let e = char_bytes(c);
    lemma_char_bytes_leading(c);
    assert(b[i] == b.subrange(i, i + e.len())[0]);
    encode_utf8_valid_utf8(s@);
    is_char_boundary_iff_not_is_continuation_byte(b, i);
    valid_utf8_split(b, i);
    let t = b.subrange(i, b.len() as int);
    assert(t[0] == b[i]);
    lemma_after_first_char_splittable(t);
    if i + e.len() < b.len() {
        assert(t[e.len() as int] == b[i + e.len()]);
    }
}

/// Appends `c` to `s`; this is `String::push`.
#[verifier::external_body]
pub(crate) fn push_char(s: &mut String, c: char)
    ensures
        final(s)@ == old(s)@.push(c),
{
    s.push(c)
}


/// Encoding a concatenation of characters concatenates their encodings.
pub proof fn lemma_encode_concat(a: Seq<char>, c: Seq<char>)
    ensures
        encode_utf8(a + c) == encode_utf8(a) + encode_utf8(c),
    decreases a.len(),
{
    if a.len() == 0 {
        assert(a + c =~= c);
        assert(encode_utf8(a) =~= Seq::<u8>::empty());
        assert(encode_utf8(a) + encode_utf8(c) =~= encode_utf8(c));
    } else {
        lemma_encode_concat(a.drop_first(), c);
        assert((a + c).drop_first() =~= a.drop_first() + c);
        assert((a + c)[0] == a[0]);
        assert(encode_utf8(a + c) =~= encode_scalar(a[0] as u32) + encode_utf8(a.drop_first() + c));
        assert(encode_utf8(a) + encode_utf8(c) =~= encode_scalar(a[0] as u32) + (encode_utf8(
            a.drop_first(),
        ) + encode_utf8(c)));
    }
}

/// The bytes of a `String`.
pub open spec fn string_bytes(s: &String) -> Seq<u8> {
    encode_utf8(s@)
}

/// A valid UTF-8 encoding that starts with another valid UTF-8 encoding has a character boundary
/// right after it.
pub proof fn lemma_valid_prefix_boundary(b: Seq<u8>, p: Seq<u8>)
    requires
        valid_utf8(b),
        valid_utf8(p),
        p.len() <= b.len(),
        b.subrange(0, p.len() as int) == p,
    ensures
        is_char_boundary(b, p.len() as int),
    decreases p.len(),
{
    if p.len() > 0 {
        assert(b[0] == p[0]) by {
            assert(b.subrange(0, p.len() as int)[0] == b[0]);
        }
        assert(valid_first_scalar(p));
        assert(valid_first_scalar(b));
        let k = length_of_first_scalar(p);
        assert(length_of_first_scalar(b) == k);
        let pb = pop_first_scalar(b);
        let pp = pop_first_scalar(p);
        assert(pb.subrange(0, pp.len() as int) =~= pp) by {
            assert forall|j: int| 0 <= j < pp.len() implies pb.subrange(0, pp.len() as int)[j]
                == pp[j] by {
                assert(pp[j] == p[k + j]);
                assert(pb[j] == b[k + j]);
                assert(b.subrange(0, p.len() as int)[k + j] == b[k + j]);
            }
        }
        lemma_valid_prefix_boundary(pb, pp);
    }
}

/// A valid encoding found at a splittable offset of a string slice ends at a splittable offset.
pub proof fn lemma_match_splittable(s: &str, i: int, p: &str)
    requires
        splittable(s.spec_bytes(), i),
        starts_with_at(s.spec_bytes(), i, p.spec_bytes()),
    ensures
        splittable(s.spec_bytes(), i + p.spec_bytes().len()),
{
    let b = s.spec_bytes();
    let pb = p.spec_bytes();
    let k = pb.len();
    encode_utf8_valid_utf8(s@);
    encode_utf8_valid_utf8(p@);
    if i + k < b.len() {
        lemma_splittable_is_boundary(s, i);
        valid_utf8_split(b, i);
        let t = b.subrange(i, b.len() as int);
        assert(t.subrange(0, k as int) =~= pb) by {
            assert forall|j: int| 0 <= j < k implies t.subrange(0, k as int)[j] == pb[j] by {
                assert(b.subrange(i, i + k)[j] == b[i + j]);
            }
        }
        lemma_valid_prefix_boundary(t, pb);
        is_char_boundary_iff_not_is_continuation_byte(t, k as int);
        assert(t[k as int] == b[i + k]);
    }
}

/// A non-empty valid encoding found in a string slice starts at a splittable offset.
pub proof fn lemma_match_start_splittable(s: &str, i: int, p: &str)
    requires
        p.spec_bytes().len() > 0,
        starts_with_at(s.spec_bytes(), i, p.spec_bytes()),
    ensures
        splittable(s.spec_bytes(), i),
{
    encode_utf8_valid_utf8(p@);
    let pb = p.spec_bytes();
    assert(valid_first_scalar(pb));
    assert(s.spec_bytes()[i] == pb[0]) by {
        assert(s.spec_bytes().subrange(i, i + pb.len())[0] == s.spec_bytes()[i]);
    }
}

/// The part of `s` between byte offsets `start` and `end`.
pub fn slice_str(s: &str, start: usize, end: usize) -> (res: &str)
    requires
        start <= end,
        splittable(s.spec_bytes(), start as int),
        splittable(s.spec_bytes(), end as int),
    ensures
        res.spec_bytes() == s.spec_bytes().subrange(start as int, end as int),
        encode_utf8(res@) == s.spec_bytes().subrange(start as int, end as int),
{
    let ghost b = s.spec_bytes();
    let suffix = skip_str(s, start);
    proof {
        let t = suffix.spec_bytes();
        assert(t.len() == b.len() - start);
        if end < b.len() {
            assert(t[end - start] == b[end as int]);
        }
    }
    let res = take_str(suffix, end - start);
    proof {
        assert(res.spec_bytes() =~= b.subrange(start as int, end as int));
    }
    res
}

/// The result of replacing every non-overlapping occurrence of `from`, from left to right, by
/// `to`, as `str::replace` does for a non-empty pattern.
pub open spec fn replace_spec(b: Seq<u8>, from: Seq<u8>, to: Seq<u8>) -> Seq<u8>
    recommends
        from.len() > 0,
    decreases b.len(),
{
    if from.len() == 0 || b.len() < from.len() {
        b
    } else if b.subrange(0, from.len() as int) == from {
        to + replace_spec(b.subrange(from.len() as int, b.len() as int), from, to)
    } else {
        seq![b[0]] + replace_spec(b.subrange(1, b.len() as int), from, to)
    }
}

proof fn lemma_replace_step(b: Seq<u8>, i: int, from: Seq<u8>, to: Seq<u8>)
    requires
        from.len() > 0,
        0 <= i < b.len(),
        i + from.len() <= b.len(),
        b.subrange(i, i + from.len()) != from,
    ensures
        replace_spec(b.subrange(i, b.len() as int), from, to) == seq![b[i]] + replace_spec(
            b.subrange(i + 1, b.len() as int),
            from,
            to,
        ),
{
    let t = b.subrange(i, b.len() as int);
    assert(t.subrange(0, from.len() as int) =~= b.subrange(i, i + from.len()));
    assert(t.subrange(1, t.len() as int) =~= b.subrange(i + 1, b.len() as int));
}

/// `s` with every non-overlapping occurrence of the non-empty `from` replaced by `to`.
pub fn replace(s: &str, from: &str, to: &str) -> (res: String)
    requires
        from.spec_bytes().len() > 0,
    ensures
        string_bytes(&res) == replace_spec(s.spec_bytes(), from.spec_bytes(), to.spec_bytes()),
{
    let b = s.as_bytes();
    let f = from.as_bytes();
    let ghost bs = b@;
    let ghost fs = f@;
    let ghost ts = to.spec_bytes();
    let n = b.len();
    let k = f.len();
    let mut res = String::new();
    let mut last: usize = 0;
    let mut i: usize = 0;
    proof {
        encode_utf8_valid_utf8(s@);
        assert(bs.subrange(0, n as int) =~= bs);
    }
    while i < n
        invariant
            bs == b@,
            bs == s.spec_bytes(),
            fs == f@,
            fs == from.spec_bytes(),
            ts == to.spec_bytes(),
            n == bs.len(),
            k == fs.len(),
            k > 0,
            last <= i <= n,
            splittable(bs, last as int),
            string_bytes(&res) + bs.subrange(last as int, i as int) + replace_spec(
                bs.subrange(i as int, n as int),
                fs,
                ts,
            ) == replace_spec(bs, fs, ts),
        decreases n - i,
    {
        if k <= n - i && bytes_start_with(b, i, f) {
            proof {
                lemma_match_start_splittable(s, i as int, from);
            }
            let piece = slice_str(s, last, i);
            let ghost old_res = res@;
            res.append(piece);
            res.append(to);
            proof {
                lemma_encode_concat(old_res, piece@);
                lemma_encode_concat(old_res + piece@, to@);
                let t = bs.subrange(i as int, n as int);
                assert(t.subrange(0, k as int) =~= fs);
                assert(t.subrange(k as int, t.len() as int) =~= bs.subrange(i + k, n as int));
                assert(bs.subrange(i + k, i + k) =~= Seq::<u8>::empty());
                lemma_match_splittable(s, i as int, from);
            }
            i = i + k;
            last = i;
        } else {
            proof {
                let t = bs.subrange(i as int, n as int);
                if k <= n - i {
                    assert(bs.subrange(i as int, i + k) != fs);
                    lemma_replace_step(bs, i as int, fs, ts);
                } else {
                    assert(replace_spec(t, fs, ts) == t);
                    assert(replace_spec(bs.subrange(i + 1, n as int), fs, ts) == bs.subrange(
                        i + 1,
                        n as int,
                    ));
                    assert(t =~= seq![bs[i as int]] + bs.subrange(i + 1, n as int));
                }
                assert(bs.subrange(last as int, i + 1) =~= bs.subrange(last as int, i as int)
                    + seq![bs[i as int]]);
            }
            i = i + 1;
        }
    }
    let piece = slice_str(s, last, n);
    let ghost old_res = res@;
    res.append(piece);
    proof {
        lemma_encode_concat(old_res, piece@);
        assert(bs.subrange(n as int, n as int) =~= Seq::<u8>::empty());
    }
    res
}


/// Values that hold UTF-8 text: string slices and owned strings.
pub trait Text {
    /// The UTF-8 bytes of the text.
    spec fn text_bytes(&self) -> Seq<u8>;

    /// The text as a string slice.
    fn as_text(&self) -> (res: &str)
        ensures
            res.spec_bytes() == self.text_bytes(),
    ;

    /// A copy of the text.
    fn copy_text(&self) -> (res: Self) where Self: Sized
        ensures
            res.text_bytes() == self.text_bytes(),
    ;
}

impl<'a> Text for &'a str {
    open spec fn text_bytes(&self) -> Seq<u8> {
        (*self).spec_bytes()
    }

    fn as_text(&self) -> (res: &str) {
        *self
    }

    fn copy_text(&self) -> (res: Self) {
        *self
    }
}

impl Text for String {
    open spec fn text_bytes(&self) -> Seq<u8> {
        encode_utf8(self@)
    }

    fn as_text(&self) -> (res: &str) {
        self.as_str()
    }

    fn copy_text(&self) -> (res: Self) {
        self.clone()
    }
}

/// An owned copy of a string slice.
pub fn to_string(s: &str) -> (res: String)
    ensures
        res@ == s@,
        string_bytes(&res) == s.spec_bytes(),
{
    s.to_owned()
}


/// An ASCII character is encoded as its own code.
pub proof fn lemma_ascii_char_bytes(c: char)
    requires
        (c as u32) < 0x80,
    ensures
        char_bytes(c) == seq![c as u8],
        encode_utf8(seq![c]) == seq![c as u8],
{
    let v = c as u32;
    assert(v < 0x80 ==> (v & 0x7f) as u8 == v as u8) by (bit_vector);
    assert(char_bytes(c) =~= seq![c as u8]);
    assert(seq![c].drop_first() =~= Seq::<char>::empty());
    reveal_with_fuel(encode_utf8, 2);
    assert(encode_utf8(seq![c]) =~= char_bytes(c) + Seq::<u8>::empty());
}

/// The bytes of `t` from offset `k` on.
pub open spec fn after(t: Seq<u8>, k: int) -> Seq<u8> {
    t.subrange(k, t.len() as int)
}

/// `t` without its leading whitespace.
pub open spec fn trimmed(t: Seq<u8>) -> Seq<u8> {
    let k = trim_start_len(t);
    if 0 <= k <= t.len() {
        after(t, k)
    } else {
        t
    }
}

/// `t` without its first byte, if that byte is `c`.
pub open spec fn strip_byte(t: Seq<u8>, c: u8) -> Option<Seq<u8>> {
    if t.len() > 0 && t[0] == c {
        Some(after(t, 1))
    } else {
        None
    }
}

/// `r` is what is left of `t` after some prefix of it.
pub open spec fn is_suffix(r: Seq<u8>, t: Seq<u8>) -> bool {
    r.len() <= t.len() && r == after(t, t.len() - r.len())
}

/// A suffix of a suffix is a suffix.
pub proof fn lemma_suffix_trans(a: Seq<u8>, b: Seq<u8>, c: Seq<u8>)
    requires
        is_suffix(a, b),
        is_suffix(b, c),
    ensures
        is_suffix(a, c),
{
    assert(a =~= after(c, c.len() - a.len())) by {
        assert forall|j: int| 0 <= j < a.len() implies a[j] == after(c, c.len() - a.len())[j] by {
            assert(a[j] == b[b.len() - a.len() + j]);
            assert(b[b.len() - a.len() + j] == c[c.len() - b.len() + b.len() - a.len() + j]);
        }
    }
}

/// Every value is a suffix of itself; dropping a prefix leaves a suffix.
pub proof fn lemma_after_suffix(t: Seq<u8>, k: int)
    requires
        0 <= k <= t.len(),
    ensures
        is_suffix(after(t, k), t),
        is_suffix(t, t),
{
    assert(after(t, 0) =~= t);
    assert(after(t, k) =~= after(t, t.len() - after(t, k).len()));
}

/// `s` without its leading whitespace.
pub fn trim(s: &str) -> (res: &str)
    ensures
        res.spec_bytes() == trimmed(s.spec_bytes()),
        is_suffix(res.spec_bytes(), s.spec_bytes()),
{
    proof {
        lemma_trim_start_len_bounds(s.spec_bytes());
        lemma_after_suffix(s.spec_bytes(), trim_start_len(s.spec_bytes()));
    }
    trim_start(s)
}

/// `s` without its first byte, if that byte is the ASCII character `c`.
pub fn strip_ascii(s: &str, c: char) -> (res: Option<&str>)
    requires
        (c as u32) < 0x80,
    ensures
        match strip_byte(s.spec_bytes(), c as u8) {
            Some(r) => res matches Some(x) && x.spec_bytes() == r,
            None => res is None,
        },
        res matches Some(x) ==> is_suffix(x.spec_bytes(), s.spec_bytes()),
{
    let b = s.as_bytes();
    if b.len() > 0 && b[0] == c as u8 {
        proof {
            lemma_splittable_after_ascii(s, 1);
            lemma_after_suffix(s.spec_bytes(), 1);
        }
        Some(skip_str(s, 1))
    } else {
        None
    }
}

/// Whether `s` starts with the ASCII character `c`.
pub fn starts_with_ascii(s: &str, c: char) -> (res: bool)
    requires
        (c as u32) < 0x80,
    ensures
        res == (s.spec_bytes().len() > 0 && s.spec_bytes()[0] == c as u8),
{
    let b = s.as_bytes();
    b.len() > 0 && b[0] == c as u8
}

/// The suffix of `s` from byte offset `mid`, which is a suffix.
pub fn skip_suffix(s: &str, mid: usize) -> (res: &str)
    requires
        splittable(s.spec_bytes(), mid as int),
    ensures
        res.spec_bytes() == after(s.spec_bytes(), mid as int),
        is_suffix(res.spec_bytes(), s.spec_bytes()),
{
    proof {
        lemma_after_suffix(s.spec_bytes(), mid as int);
    }
    skip_str(s, mid)
}

/// The number of bytes in `s`.
pub fn byte_len(s: &str) -> (res: usize)
    ensures
        res == s.spec_bytes().len(),
{
    s.as_bytes().len()
}

/// The first offset at or after `i` at which `b` holds the byte `c`, or the length of `b`.
pub open spec fn find_byte_from(b: Seq<u8>, i: int, c: u8) -> int
    decreases b.len() - i,
{
    if i < 0 || i >= b.len() {
        b.len() as int
    } else if b[i] == c {
        i
    } else {
        find_byte_from(b, i + 1, c)
    }
}

/// What `find_byte_from` finds.
pub proof fn lemma_find_byte(b: Seq<u8>, i: int, c: u8)
    requires
        0 <= i <= b.len(),
    ensures
        i <= find_byte_from(b, i, c) <= b.len(),
        forall|k: int| i <= k < find_byte_from(b, i, c) ==> b[k] != c,
        find_byte_from(b, i, c) < b.len() ==> b[find_byte_from(b, i, c)] == c,
    decreases b.len() - i,
{
    if i < b.len() && b[i] != c {
        lemma_find_byte(b, i + 1, c);
    }
}

/// The offset of the first `c` in `s`, or the length of `s`.
pub fn find_ascii(s: &str, c: char) -> (res: usize)
    requires
        (c as u32) < 0x80,
    ensures
        res == find_byte_from(s.spec_bytes(), 0, c as u8),
        splittable(s.spec_bytes(), res as int),
{
    let b = s.as_bytes();
    let ghost bs = b@;
    let mut i: usize = 0;
    while i < b.len() && b[i] != c as u8
        invariant
            bs == b@,
            bs == s.spec_bytes(),
            i <= bs.len(),
            find_byte_from(bs, i as int, c as u8) == find_byte_from(bs, 0, c as u8),
        decreases bs.len() - i,
    {
        i = i + 1;
    }
    proof {
        if i < bs.len() {
            encode_utf8_valid_utf8(s@);
            let v = c as u32;
            assert(v < 0x80 ==> !is_continuation_byte(v as u8)) by (bit_vector);
        }
    }
    i
}

/// The part of `s` before the first space and the rest of `s` from it on.
pub fn split_at_space(s: &str) -> (res: (&str, &str))
    ensures
        res.0.spec_bytes() == s.spec_bytes().subrange(0, find_byte_from(s.spec_bytes(), 0, ' ' as u8)),
        res.1.spec_bytes() == after(s.spec_bytes(), find_byte_from(s.spec_bytes(), 0, ' ' as u8)),
        is_suffix(res.1.spec_bytes(), s.spec_bytes()),
{
    let i = find_ascii(s, ' ');
    proof {
        lemma_find_byte(s.spec_bytes(), 0, ' ' as u8);
        lemma_after_suffix(s.spec_bytes(), i as int);
    }
    split_str(s, i)
}

/// A string slice that is what is left of another one starts at a character boundary of it.
pub proof fn lemma_suffix_splittable(s: &str, r: &str)
    requires
        is_suffix(r.spec_bytes(), s.spec_bytes()),
    ensures
        splittable(s.spec_bytes(), s.spec_bytes().len() - r.spec_bytes().len()),
{
    let k = s.spec_bytes().len() - r.spec_bytes().len();
    if r.spec_bytes().len() > 0 {
        encode_utf8_valid_utf8(r@);
        assert(valid_first_scalar(r.spec_bytes()));
        assert(r.spec_bytes()[0] == after(s.spec_bytes(), k)[0]);
    }
}

/// The number of bytes of the UTF-8 encoded Unicode `White_Space` character that `b` ends with,
/// or 0 when `b` does not end with one.
pub open spec fn whitespace_suffix_len(b: Seq<u8>) -> int {
    let n = b.len() as int;
    if n >= 1 && ((0x09 <= b[n - 1] <= 0x0D) || b[n - 1] == 0x20) {
        1
    } else if n >= 2 && b[n - 2] == 0xC2 && (b[n - 1] == 0x85 || b[n - 1] == 0xA0) {
        2
    } else if n >= 3 && b[n - 3] == 0xE1 && b[n - 2] == 0x9A && b[n - 1] == 0x80 {
        3
    } else if n >= 3 && b[n - 3] == 0xE2 && b[n - 2] == 0x80 && ((0x80 <= b[n - 1] <= 0x8A) || b[n
        - 1] == 0xA8 || b[n - 1] == 0xA9 || b[n - 1] == 0xAF) {
        3
    } else if n >= 3 && b[n - 3] == 0xE2 && b[n - 2] == 0x81 && b[n - 1] == 0x9F {
        3
    } else if n >= 3 && b[n - 3] == 0xE3 && b[n - 2] == 0x80 && b[n - 1] == 0x80 {
        3
    } else {
        0
    }
}

/// The number of bytes of trailing whitespace in `b`.
pub open spec fn trim_end_len(b: Seq<u8>) -> int
    decreases b.len(),
{
    let w = whitespace_suffix_len(b);
    if w == 0 || w > b.len() {
        0
    } else {
        w + trim_end_len(b.subrange(0, b.len() - w))
    }
}

proof fn lemma_trim_end_len_bounds(b: Seq<u8>)
    ensures
        0 <= trim_end_len(b) <= b.len(),
    decreases b.len(),
{
    let w = whitespace_suffix_len(b);
    if w != 0 && w <= b.len() {
        lemma_trim_end_len_bounds(b.subrange(0, b.len() - w));
    }
}

/// `b` without its leading and trailing whitespace.
pub open spec fn trimmed_both(b: Seq<u8>) -> Seq<u8> {
    let s = trimmed(b);
    s.subrange(0, s.len() - trim_end_len(s))
}

/// `s` with leading and trailing Unicode whitespace removed.
pub fn trim_both(s: &str) -> (res: &str)
    ensures
        res.spec_bytes() == trimmed_both(s.spec_bytes()),
{
    let t = trim(s);
    let b = t.as_bytes();
    let ghost bs = b@;
    let mut n: usize = b.len();
    proof {
        assert(bs.subrange(0, n as int) =~= bs);
        lemma_trim_end_len_bounds(bs);
    }
    loop
        invariant_except_break
            bs == b@,
            bs == t.spec_bytes(),
            n <= bs.len(),
            splittable(bs, n as int),
            bs.len() - trim_end_len(bs) == n - trim_end_len(bs.subrange(0, n as int)),
        ensures
            bs == t.spec_bytes(),
            n <= bs.len(),
            splittable(bs, n as int),
            bs.len() - trim_end_len(bs) == n,
        decreases n,
    {
        let ghost p = bs.subrange(0, n as int);
        let w: usize = if n >= 1 && ((0x09 <= b[n - 1] && b[n - 1] <= 0x0D) || b[n - 1] == 0x20) {
            1
        } else if n >= 2 && b[n - 2] == 0xC2 && (b[n - 1] == 0x85 || b[n - 1] == 0xA0) {
            2
        } else if n >= 3 && b[n - 3] == 0xE1 && b[n - 2] == 0x9A && b[n - 1] == 0x80 {
            3
        } else if n >= 3 && b[n - 3] == 0xE2 && b[n - 2] == 0x80 && ((0x80 <= b[n - 1] && b[n - 1]
            <= 0x8A) || b[n - 1] == 0xA8 || b[n - 1] == 0xA9 || b[n - 1] == 0xAF) {
            3
        } else if n >= 3 && b[n - 3] == 0xE2 && b[n - 2] == 0x81 && b[n - 1] == 0x9F {
            3
        } else if n >= 3 && b[n - 3] == 0xE3 && b[n - 2] == 0x80 && b[n - 1] == 0x80 {
            3
        } else {
            0
        };
        proof {
            assert(w == whitespace_suffix_len(p));
        }
        if w == 0 {
            break;
        }
        proof {
            assert(p.subrange(0, p.len() - w) =~= bs.subrange(0, n - w));
            lemma_trim_end_len_bounds(bs.subrange(0, n - w));
            encode_utf8_valid_utf8(t@);
            let k = (n - w) as int;
            if k < bs.len() {
                let v = bs[k];
                assert(v == 0x09 || v == 0x0A || v == 0x0B || v == 0x0C || v == 0x0D || v == 0x20
                    || v == 0xC2 || v == 0xE1 || v == 0xE2 || v == 0xE3);
                assert(!is_continuation_byte(v)) by {
                    assert(v == 0x09 || v == 0x0A || v == 0x0B || v == 0x0C || v == 0x0D || v == 0x20
                        || v == 0xC2 || v == 0xE1 || v == 0xE2 || v == 0xE3 ==> !is_continuation_byte(v)) by (bit_vector);
                }
            }
        }
        n = n - w;
    }
    proof {
        lemma_trim_start_len_bounds(s.spec_bytes());
    }
    take_str(t, n)
}

/// The decimal digits of `n`, without leading zeros.
pub open spec fn decimal(n: nat) -> Seq<u8>
    decreases n,
{
    if n < 10 {
        seq![('0' as u8 + n) as u8]
    } else {
        decimal(n / 10).push(('0' as u8 + n % 10) as u8)
    }
}

/// Decimal digits are digits, read back as the number they were written from.
pub proof fn lemma_decimal(n: nat)
    ensures
        all_digits(decimal(n)),
        digits_value(decimal(n)) == n,
        decimal(n).len() > 0,
        decimal(n)[0] != '+' as u8,
        decimal(n)[0] != '-' as u8,
        forall|i: int| 0 <= i < decimal(n).len() ==> #[trigger] decimal(n)[i] < 0x80,
    decreases n,
{
    if n >= 10 {
        lemma_decimal(n / 10);
        let d = decimal(n);
        assert(d.drop_last() =~= decimal(n / 10));
        assert((n / 10) * 10 + n % 10 == n) by (nonlinear_arith);
        assert(('0' as u8 + n % 10) as u8 == 48 + n % 10);
        assert(d.last() == 48 + n % 10);
        assert(digits_value(d) == digits_value(d.drop_last()) * 10 + (d.last() - 48));
        assert forall|i: int| 0 <= i < d.len() implies is_digit_byte(#[trigger] d[i]) by {
            if i < d.len() - 1 {
                assert(d[i] == decimal(n / 10)[i]);
            }
        }
        assert forall|i: int| 0 <= i < d.len() implies #[trigger] d[i] < 0x80 by {
            if i < d.len() - 1 {
                assert(d[i] == decimal(n / 10)[i]);
            }
        }
    } else {
        let d = decimal(n);
        assert(('0' as u8 + n) as u8 == 48 + n);
        assert(d.drop_last() =~= Seq::<u8>::empty());
        assert(d.last() == 48 + n);
        assert(digits_value(d.drop_last()) == 0);
        assert(digits_value(d) == digits_value(d.drop_last()) * 10 + (d.last() - 48));
    }
}

/// Appends the decimal digits of `n` to `s`.
pub fn push_decimal(s: &mut String, n: usize)
    ensures
        final(s)@ == old(s)@ + decimal_chars(n as nat),
    decreases n,
{
    if n >= 10 {
        push_decimal(s, n / 10);
    }
    let d = ('0' as u8 + (n % 10) as u8) as char;
    push_char(s, d);
    proof {
        if n >= 10 {
            assert(old(s)@ + decimal_chars(n as nat) =~= old(s)@ + decimal_chars((n / 10) as nat) + seq![d]);
        } else {
            assert(decimal_chars(n as nat) =~= seq![d]);
            assert(old(s)@ + decimal_chars(n as nat) =~= old(s)@.push(d));
        }
    }
}

/// The decimal digits of `n` as characters.
pub open spec fn decimal_chars(n: nat) -> Seq<char>
    decreases n,
{
    if n < 10 {
        seq![('0' as u8 + n) as u8 as char]
    } else {
        decimal_chars(n / 10).push(('0' as u8 + n % 10) as u8 as char)
    }
}

/// The characters of a decimal number are encoded as its digits.
pub proof fn lemma_decimal_chars(n: nat)
    ensures
        encode_utf8(decimal_chars(n)) == decimal(n),
    decreases n,
{
    let c = ('0' as u8 + n % 10) as u8 as char;
    lemma_ascii_char_bytes(c);
    assert(c as u8 == ('0' as u8 + n % 10) as u8);
    if n >= 10 {
        lemma_decimal_chars(n / 10);
        lemma_encode_concat(decimal_chars(n / 10), seq![c]);
        assert(decimal_chars(n) =~= decimal_chars(n / 10) + seq![c]);
        assert(decimal(n) =~= decimal(n / 10) + seq![c as u8]);
    } else {
        assert(decimal_chars(n) =~= seq![c]);
        assert(decimal(n) =~= seq![c as u8]);
    }
}

/// The decimal text of `n`.
pub fn usize_to_string(n: usize) -> (res: String)
    ensures
        res@ == decimal_chars(n as nat),
        string_bytes(&res) == decimal(n as nat),
{
    let mut s = String::new();
    push_decimal(&mut s, n);
    proof {
        assert(s@ =~= decimal_chars(n as nat));
        lemma_decimal_chars(n as nat);
    }
    s
}

/// What `str::parse::<usize>` accepts: an optional `+` followed by at least one decimal digit,
/// with the value in the range of `usize`.
pub open spec fn parse_usize_spec(b: Seq<u8>) -> Option<usize> {
    let start = if b.len() > 0 && b[0] == '+' as u8 {
        1int
    } else {
        0int
    };
    let d = b.subrange(start, b.len() as int);
    if d.len() == 0 || !all_digits(d) {
        None
    } else if digits_value(d) <= usize::MAX {
        Some(digits_value(d) as usize)
    } else {
        None
    }
}

/// The number that `s` spells, as `str::parse::<usize>` reads it.
pub fn parse_usize(s: &str) -> (res: Option<usize>)
    ensures
        res == parse_usize_spec(s.spec_bytes()),
{
    let b = s.as_bytes();
    let ghost bs = b@;
    let n = b.len();
    let start: usize = if n > 0 && b[0] == '+' as u8 {
        1
    } else {
        0
    };
    let ghost d = bs.subrange(start as int, bs.len() as int);
    if start == n {
        return None;
    }
    let mut acc: usize = 0;
    let mut over = false;
    let mut i: usize = start;
    while i < n
        invariant
            bs == b@,
            bs == s.spec_bytes(),
            n == bs.len(),
            start <= i <= n,
            start == (if bs.len() > 0 && bs[0] == '+' as u8 { 1int } else { 0int }),
            d == bs.subrange(start as int, bs.len() as int),
            forall|j: int| 0 <= j < i - start ==> is_digit_byte(#[trigger] d[j]),
            !over ==> acc == digits_value(d.subrange(0, i - start)),
            over ==> digits_value(d.subrange(0, i - start)) > usize::MAX,
        decreases n - i,
    {
        let c = b[i];
        if c < '0' as u8 || c > '9' as u8 {
            proof {
                let k = (i - start) as int;
                assert(!is_digit_byte(d[k]));
                assert(!all_digits(d));
            }
            return None;
        }
        proof {
            let p = d.subrange(0, i - start + 1);
            assert(p.drop_last() =~= d.subrange(0, i - start));
            assert(p.last() == c);
            assert(forall|j: int| 0 <= j < p.drop_last().len() ==> is_digit_byte(#[trigger] p.drop_last()[j]));
            lemma_digits_value_prefix(p.drop_last(), p.drop_last().len() as int);
            assert(p.drop_last().subrange(0, p.drop_last().len() as int) =~= p.drop_last());
        }
        if !over {
            match acc.checked_mul(10) {
                Some(m) => match m.checked_add((c - '0' as u8) as usize) {
                    Some(next) => {
                        acc = next;
                    },
                    None => {
                        over = true;
                    },
                },
                None => {
                    over = true;
                    proof {
                        assert(acc * 10 > usize::MAX);
                    }
                },
            }
        }
        i = i + 1;
    }
    proof {
        assert(d.subrange(0, n - start) =~= d);
    }
    if over {
        None
    } else {
        Some(acc)
    }
}

/// Reading back the decimal text of a number gives the number.
pub proof fn lemma_parse_decimal(n: usize)
    ensures
        parse_usize_spec(decimal(n as nat)) == Some(n),
{
    lemma_decimal(n as nat);
    let b = decimal(n as nat);
    assert(b.subrange(0, b.len() as int) =~= b);
}

/// A text of ASCII characters has as many bytes as characters, each the code of its character.
pub proof fn lemma_ascii_text(s: &str)
    requires
        is_ascii_chars(s@),
    ensures
        s.spec_bytes().len() == s@.len(),
        forall|i: int| 0 <= i < s@.len() ==> #[trigger] s.spec_bytes()[i] == s@[i] as u8,
{
    is_ascii_chars_encode_utf8(s@);
}

/// The bytes of the concatenation of two texts.
pub proof fn lemma_bytes_concat(a: Seq<char>, b: Seq<char>)
    ensures
        encode_utf8(a + b) == encode_utf8(a) + encode_utf8(b),
{
    lemma_encode_concat(a, b);
}

/// `find_byte_from` finds `c` at `j` when no byte from `k` up to `j` is `c` and the byte at `j`
/// is.
pub proof fn lemma_find_byte_at(b: Seq<u8>, k: int, j: int, c: u8)
    requires
        0 <= k <= j < b.len(),
        b[j] == c,
        forall|m: int| k <= m < j ==> b[m] != c,
    ensures
        find_byte_from(b, k, c) == j,
    decreases j - k,
{
    if k < j {
        lemma_find_byte_at(b, k + 1, j, c);
    }
}

/// The characters `cs` with `t` before each of them and after the last.
pub open spec fn interleave(cs: Seq<char>, t: Seq<char>) -> Seq<char>
    decreases cs.len(),
{
    if cs.len() == 0 {
        t
    } else {
        interleave(cs.drop_last(), t) + seq![cs.last()] + t
    }
}

/// `k` occurs in `b`: some part of `b` is `k`.
pub open spec fn occurs(k: Seq<u8>, b: Seq<u8>) -> bool {
    exists|i: int| 0 <= i && i + k.len() <= b.len() && #[trigger] b.subrange(i, i + k.len()) == k
}

/// Replacing a non-empty pattern that does not occur leaves the bytes as they are.
pub proof fn lemma_replace_absent(b: Seq<u8>, from: Seq<u8>, to: Seq<u8>)
    requires
        from.len() > 0,
        !occurs(from, b),
    ensures
        replaced(b, from, to) == b,
    decreases b.len(),
{
    if b.len() >= from.len() {
        assert(b.subrange(0, from.len() as int) != from) by {
            if b.subrange(0, from.len() as int) == from {
                assert(b.subrange(0int, 0int + from.len()) == from);
            }
        }
        let r = b.subrange(1, b.len() as int);
        assert(!occurs(from, r)) by {
            if occurs(from, r) {
                let i = choose|i: int| 0 <= i && i + from.len() <= r.len() && #[trigger] r.subrange(i, i + from.len()) == from;
                assert(b.subrange(i + 1, i + 1 + from.len()) =~= r.subrange(i, i + from.len()));
            }
        }
        lemma_replace_absent(r, from, to);
        assert(seq![b[0]] + r =~= b);
    }
}

/// The bytes of `b` after `str::replace(from, to)`: every non-overlapping occurrence of a
/// non-empty `from`, from left to right, replaced by `to`; for an empty `from`, `to` put before
/// each character and after the last.
pub open spec fn replaced(b: Seq<u8>, from: Seq<u8>, to: Seq<u8>) -> Seq<u8> {
    if from.len() == 0 {
        encode_utf8(interleave(text(b), text(to)))
    } else {
        replace_spec(b, from, to)
    }
}

/// `s` with `to` before each character and after the last.
fn replace_empty(s: &str, to: &str) -> (res: String)
    ensures
        res@ == interleave(s@, to@),
{
    let n = s.unicode_len();
    let mut res = to_string(to);
    let mut i: usize = 0;
    proof {
        assert(s@.take(0) =~= Seq::<char>::empty());
    }
    while i < n
        invariant
            n == s@.len(),
            i <= n,
            res@ == interleave(s@.take(i as int), to@),
        decreases n - i,
    {
        let c = s.get_char(i);
        push_char(&mut res, c);
        res.append(to);
        proof {
            let p = s@.take(i + 1);
            assert(p.drop_last() =~= s@.take(i as int));
            assert(p.last() == c);
        }
        i = i + 1;
    }
    proof {
        assert(s@.take(n as int) =~= s@);
    }
    res
}

/// `s` with `from` replaced by `to`, as `str::replace` does.
pub fn replace_text(s: &str, from: &str, to: &str) -> (res: String)
    ensures
        string_bytes(&res) == replaced(s.spec_bytes(), from.spec_bytes(), to.spec_bytes()),
{
    if from.as_bytes().len() == 0 {
        proof {
            lemma_view_text(s);
            lemma_view_text(to);
        }
        replace_empty(s, to)
    } else {
        replace(s, from, to)
    }
}

/// The offset of the last `c` among the first `n` bytes of `b`, or -1 when there is none.
pub open spec fn last_byte_before(b: Seq<u8>, n: int, c: u8) -> int
    decreases n,
{
    if n <= 0 || n > b.len() {
        -1
    } else if b[n - 1] == c {
        n - 1
    } else {
        last_byte_before(b, n - 1, c)
    }
}

/// The offset of the last `c` in `b`, or -1 when there is none.
pub open spec fn last_byte(b: Seq<u8>, c: u8) -> int {
    last_byte_before(b, b.len() as int, c)
}

/// What `last_byte_before` finds.
pub proof fn lemma_last_byte(b: Seq<u8>, n: int, c: u8)
    requires
        0 <= n <= b.len(),
    ensures
        -1 <= last_byte_before(b, n, c) < n,
        last_byte_before(b, n, c) >= 0 ==> b[last_byte_before(b, n, c)] == c,
        forall|m: int| last_byte_before(b, n, c) < m < n ==> b[m] != c,
    decreases n,
{
    if n > 0 && b[n - 1] != c {
        lemma_last_byte(b, n - 1, c);
    }
}

/// `last_byte_before` finds `j` when `b[j]` is `c` and no `c` follows it before `n`.
pub proof fn lemma_last_byte_at(b: Seq<u8>, n: int, j: int, c: u8)
    requires
        0 <= j < n <= b.len(),
        b[j] == c,
        forall|m: int| j < m < n ==> b[m] != c,
    ensures
        last_byte_before(b, n, c) == j,
    decreases n,
{
    if n - 1 > j {
        lemma_last_byte_at(b, n - 1, j, c);
    }
}

/// `last_byte_before` finds nothing when no byte before `n` is `c`.
pub proof fn lemma_last_byte_none(b: Seq<u8>, n: int, c: u8)
    requires
        0 <= n <= b.len(),
        forall|m: int| 0 <= m < n ==> b[m] != c,
    ensures
        last_byte_before(b, n, c) == -1,
    decreases n,
{
    if n > 0 {
        lemma_last_byte_none(b, n - 1, c);
    }
}

/// The offset of the last `c` in `s`, if there is one.
pub fn rfind_ascii(s: &str, c: char) -> (res: Option<usize>)
    requires
        (c as u32) < 0x80,
    ensures
        match res {
            Some(i) => i == last_byte(s.spec_bytes(), c as u8),
            None => last_byte(s.spec_bytes(), c as u8) == -1,
        },
{
    let b = s.as_bytes();
    let ghost bs = b@;
    let mut n: usize = b.len();
    while n > 0 && b[n - 1] != c as u8
        invariant
            bs == b@,
            bs == s.spec_bytes(),
            n <= bs.len(),
            last_byte_before(bs, n as int, c as u8) == last_byte(bs, c as u8),
        decreases n,
    {
        n = n - 1;
    }
    if n == 0 {
        None
    } else {
        Some(n - 1)
    }
}

/// The number of bytes of `b` that are `c`.
pub open spec fn count_byte(b: Seq<u8>, c: u8) -> nat
    decreases b.len(),
{
    if b.len() == 0 {
        0
    } else {
        count_byte(b.drop_last(), c) + if b.last() == c {
            1nat
        } else {
            0nat
        }
    }
}

/// The number of bytes of `s` that are `c`.
pub fn count_ascii(s: &str, c: char) -> (res: usize)
    requires
        (c as u32) < 0x80,
    ensures
        res == count_byte(s.spec_bytes(), c as u8),
{
    let b = s.as_bytes();
    let ghost bs = b@;
    let mut k: usize = 0;
    let mut i: usize = 0;
    proof {
        assert(bs.take(0) =~= Seq::<u8>::empty());
    }
    while i < b.len()
        invariant
            bs == b@,
            bs == s.spec_bytes(),
            i <= bs.len(),
            k == count_byte(bs.take(i as int), c as u8),
            k <= i,
        decreases bs.len() - i,
    {
        proof {
            assert(bs.take(i + 1).drop_last() =~= bs.take(i as int));
        }
        if b[i] == c as u8 {
            k = k + 1;
        }
        i = i + 1;
    }
    proof {
        assert(bs.take(i as int) =~= bs);
    }
    k
}

/// `s` with each `from` replaced by `to`, both single ASCII characters.
pub fn replace_char(s: &str, from: char, to: char) -> (res: String)
    requires
        (from as u32) < 0x80,
        (to as u32) < 0x80,
    ensures
        string_bytes(&res) == replace_spec(s.spec_bytes(), seq![from as u8], seq![to as u8]),
{
    let mut f = String::new();
    push_char(&mut f, from);
    let mut t = String::new();
    push_char(&mut t, to);
    proof {
        lemma_ascii_char_bytes(from);
        lemma_ascii_char_bytes(to);
        assert(f@ =~= seq![from]);
        assert(t@ =~= seq![to]);
    }
    replace(s, f.as_str(), t.as_str())
}

/// What follows `p` in `s`, when `s` starts with `p`.
pub fn strip_prefix_str<'a>(s: &'a str, p: &str) -> (res: Option<&'a str>)
    ensures
        res is Some <==> starts_with_at(s.spec_bytes(), 0, p.spec_bytes()),
        res matches Some(rest) ==> rest.spec_bytes() == after(s.spec_bytes(), p.spec_bytes().len() as int),
{
    let b = s.as_bytes();
    let pb = p.as_bytes();
    if bytes_start_with(b, 0, pb) {
        proof {
            lemma_splittable_after_ascii(s, 0);
            lemma_match_splittable(s, 0, p);
        }
        Some(skip_str(s, pb.len()))
    } else {
        None
    }
}

/// A string slice may be split right before an ASCII byte of it.
pub proof fn lemma_splittable_at_ascii(s: &str, i: int)
    requires
        0 <= i < s.spec_bytes().len(),
        s.spec_bytes()[i] < 0x80,
    ensures
        splittable(s.spec_bytes(), i),
{
    let v = s.spec_bytes()[i];
    assert(v < 0x80 ==> !is_continuation_byte(v)) by (bit_vector);
}

/// Replacing a single byte in a text that starts with a byte `z`.
pub proof fn lemma_replace_byte_cons(z: u8, r: Seq<u8>, y: u8, w: Seq<u8>)
    ensures
        replace_spec(seq![z] + r, seq![y], w) == (if z == y {
            w
        } else {
            seq![z]
        }) + replace_spec(r, seq![y], w),
{
    let b = seq![z] + r;
    assert(b.subrange(0, 1) =~= seq![z]);
    assert(b.subrange(1, b.len() as int) =~= r);
    if z != y {
        assert(b.subrange(0, 1)[0] == z);
        assert(b.subrange(0, 1) != seq![y]);
        assert(seq![b[0]] =~= seq![z]);
    }
}

/// Replacing the byte `a` by `c` and back gives back a text that held no `c`.
pub proof fn lemma_replace_byte_inverse(x: Seq<u8>, a: u8, c: u8)
    requires
        a != c,
        !x.contains(c),
    ensures
        replace_spec(replace_spec(x, seq![a], seq![c]), seq![c], seq![a]) == x,
    decreases x.len(),
{
    if x.len() > 0 {
        let r = x.subrange(1, x.len() as int);
        assert(x =~= seq![x[0]] + r);
        assert(!r.contains(c)) by {
            if r.contains(c) {
                let i = choose|i: int| 0 <= i < r.len() && r[i] == c;
                assert(x[i + 1] == c);
            }
        }
        assert(x[0] != c) by {
            assert(x.contains(x[0]) ==> x[0] != c);
            assert(x[0] == x[0]);
        }
        lemma_replace_byte_cons(x[0], r, a, seq![c]);
        lemma_replace_byte_inverse(r, a, c);
        let inner = replace_spec(r, seq![a], seq![c]);
        if x[0] == a {
            lemma_replace_byte_cons(c, inner, c, seq![a]);
            assert(seq![c] + inner =~= seq![c] + inner);
        } else {
            lemma_replace_byte_cons(x[0], inner, c, seq![a]);
        }
    }
}

/// The offset of the first occurrence of `p` in `b` at or after `i`, or -1 when there is none.
pub open spec fn find_from(b: Seq<u8>, p: Seq<u8>, i: int) -> int
    decreases b.len() + 1 - i,
{
    if i < 0 || i + p.len() > b.len() {
        -1
    } else if b.subrange(i, i + p.len()) == p {
        i
    } else {
        find_from(b, p, i + 1)
    }
}

/// The offset of the first occurrence of the non-empty `p` in `s`, if there is one.
pub fn find_str(s: &str, p: &str) -> (res: Option<usize>)
    requires
        p.spec_bytes().len() > 0,
    ensures
        match res {
            Some(i) => i as int == find_from(s.spec_bytes(), p.spec_bytes(), 0) && splittable(
                s.spec_bytes(),
                i as int,
            ) && splittable(s.spec_bytes(), i + p.spec_bytes().len()) && starts_with_at(
                s.spec_bytes(),
                i as int,
                p.spec_bytes(),
            ),
            None => find_from(s.spec_bytes(), p.spec_bytes(), 0) == -1,
        },
{
    let b = s.as_bytes();
    let pb = p.as_bytes();
    let n = b.len();
    let k = pb.len();
    let mut i: usize = 0;
    while i <= n && k <= n - i
        invariant
            b@ == s.spec_bytes(),
            pb@ == p.spec_bytes(),
            n == b@.len(),
            k == pb@.len(),
            k > 0,
            find_from(b@, pb@, i as int) == find_from(b@, pb@, 0),
        decreases n + 1 - i,
    {
        if bytes_start_with(b, i, pb) {
            proof {
                lemma_match_start_splittable(s, i as int, p);
                lemma_match_splittable(s, i as int, p);
            }
            return Some(i);
        }
        i = i + 1;
    }
    None
}

} // verus!

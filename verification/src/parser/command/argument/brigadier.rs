//! Parsers for the argument types that Brigadier itself defines: strings, booleans and numbers.

use crate::text::{
    after, is_suffix, lemma_after_suffix, lemma_ascii_char_bytes, strip_byte, bytes_start_with, char_bytes, encode_char, find_span_end, is_digit_byte, lemma_char_at_splittable,
    lemma_span_end, lemma_splittable_after_ascii, lemma_view_text, parse_i32, parse_i32_spec,
    push_char, sign_len, skip_str, span_end, splittable, starts_with_at, str_eq, strip_prefix_char,
    take_str, text,
};
use vstd::prelude::*;
use vstd::string::*;

verus! {

/// The message of a failed `expect`.
pub open spec fn expect_message(prefix: char) -> Seq<char> {
    "Expected '"@ + seq![prefix] + "'"@
}

/// `string` without the leading `prefix`, or an error when `string` does not start with it.
pub fn expect(string: &str, prefix: char) -> (res: Result<&str, String>)
    ensures
        res is Ok <==> starts_with_at(string.spec_bytes(), 0, char_bytes(prefix)),
        res matches Ok(rest) ==> rest.spec_bytes() == string.spec_bytes().subrange(
            char_bytes(prefix).len() as int,
            string.spec_bytes().len() as int,
        ),
        res matches Err(e) ==> e@ == expect_message(prefix),
{
    match strip_prefix_char(string, prefix) {
        Some(rest) => Ok(rest),
        None => {
            let mut e = String::from_str("Expected '");
            push_char(&mut e, prefix);
            e.append("'");
            Err(e)
        },
    }
}

/// A quotation mark that may start a quoted string.
pub open spec fn quote_char(c: char) -> bool {
    c == '"' || c == '\''
}

/// Whether `c` starts a quoted string.
pub fn is_quote(c: char) -> (res: bool)
    ensures
        res == quote_char(c),
{
    c == '"' || c == '\''
}

/// A character allowed in an unquoted string.
pub open spec fn unquoted_char(c: char) -> bool {
    ('0' <= c <= '9') || ('A' <= c <= 'Z') || ('a' <= c <= 'z') || c == '+' || c == '-' || c
        == '.' || c == '_'
}

/// The predicate `unquoted_char` as a value.
pub open spec fn unquoted_pred() -> spec_fn(char) -> bool {
    |c: char| unquoted_char(c)
}

/// The length of the unquoted string at the start of `b`.
pub open spec fn unquoted_len(b: Seq<u8>) -> int {
    span_end(b, 0, unquoted_pred())
}

/// Whether `c` may appear in an unquoted string.
pub fn is_allowed_in_unquoted_string(c: char) -> (res: bool)
    ensures
        res == unquoted_char(c),
{
    ('0' <= c && c <= '9') || ('A' <= c && c <= 'Z') || ('a' <= c && c <= 'z') || c == '+' || c
        == '-' || c == '.' || c == '_'
}

/// A string slice may be split after any prefix of characters that are all ASCII.
pub proof fn lemma_ascii_span_splittable(s: &str, n: int, p: spec_fn(char) -> bool)
    requires
        0 <= n <= s.spec_bytes().len(),
        forall|j: int| 0 <= j < n ==> p(#[trigger] s.spec_bytes()[j] as char),
        forall|c: char| #[trigger] p(c) ==> (c as u32) < 0x80,
    ensures
        splittable(s.spec_bytes(), n),
{
    if n > 0 {
        let c = s.spec_bytes()[n - 1];
        assert(p(c as char));
        assert((c as char) as u32 == c);
    }
    lemma_splittable_after_ascii(s, n);
}

/// The longest prefix of `string` made of characters allowed in an unquoted string, and its
/// length in bytes.
pub fn parse_unquoted_string(string: &str) -> (res: (&str, usize))
    ensures
        res.1 == unquoted_len(string.spec_bytes()),
        res.1 <= string.spec_bytes().len(),
        res.0.spec_bytes() == string.spec_bytes().subrange(0, res.1 as int),
{
    let b = string.as_bytes();
    let len = find_span_end(b, 0, is_allowed_in_unquoted_string, Ghost(unquoted_pred()));
    proof {
        lemma_span_end(b@, 0, unquoted_pred());
        lemma_ascii_span_splittable(string, len as int, unquoted_pred());
    }
    (take_str(string, len), len)
}

/// Whether the byte at offset `i` of `b` is escaped by an unescaped backslash before it.
pub open spec fn escaped_at(b: Seq<u8>, i: int) -> bool
    decreases i,
{
    if i <= 0 {
        false
    } else {
        !escaped_at(b, i - 1) && b[i - 1] == '\\' as u8
    }
}

/// The first offset at or after `i` at which `e` occurs unescaped in `b`.
pub open spec fn first_unescaped(b: Seq<u8>, i: int, e: Seq<u8>) -> Option<int>
    decreases b.len() - i,
{
    if i < 0 || i >= b.len() {
        None
    } else if !escaped_at(b, i) && starts_with_at(b, i, e) {
        Some(i)
    } else {
        first_unescaped(b, i + 1, e)
    }
}

/// What `first_unescaped` finds.
pub proof fn lemma_first_unescaped(b: Seq<u8>, i: int, e: Seq<u8>)
    requires
        0 <= i,
    ensures
        first_unescaped(b, i, e) matches Some(k) ==> i <= k < b.len() && !escaped_at(b, k)
            && starts_with_at(b, k, e),
    decreases b.len() - i,
{
    if i < b.len() && !(!escaped_at(b, i) && starts_with_at(b, i, e)) {
        lemma_first_unescaped(b, i + 1, e);
    }
}

/// The byte offset of the first occurrence of `to_find` in `string` that is not escaped by a
/// backslash.
pub fn find_unescaped(string: &str, to_find: char) -> (res: Option<usize>)
    ensures
        res matches Some(i) ==> first_unescaped(string.spec_bytes(), 0, char_bytes(to_find))
            == Some(i as int),
        res is None ==> first_unescaped(string.spec_bytes(), 0, char_bytes(to_find)) is None,
{
    let e = encode_char(to_find);
    let b = string.as_bytes();
    let ghost bs = b@;
    let mut escaped = false;
    let mut i: usize = 0;
    while i < b.len()
        invariant
            bs == b@,
            bs == string.spec_bytes(),
            e@ == char_bytes(to_find),
            i <= bs.len(),
            escaped == escaped_at(bs, i as int),
            first_unescaped(bs, i as int, e@) == first_unescaped(bs, 0, e@),
        decreases bs.len() - i,
    {
        if !escaped && bytes_start_with(b, i, e.as_slice()) {
            return Some(i);
        }
        if escaped {
            escaped = false;
        } else if b[i] == '\\' as u8 {
            escaped = true;
        }
        i = i + 1;
    }
    None
}

/// The message of an unclosed quoted string.
pub open spec fn unclosed_message() -> Seq<char> {
    "Unclosed quoted string"@
}

/// The text before the first unescaped `terminator` in `string` and the number of bytes up to
/// and including the terminator.
pub fn parse_string_until(string: &str, terminator: char) -> (res: Result<(&str, usize), String>)
    ensures
        match first_unescaped(string.spec_bytes(), 0, char_bytes(terminator)) {
            Some(i) => res matches Ok((v, n)) && n == i + char_bytes(terminator).len()
                && v.spec_bytes() == string.spec_bytes().subrange(0, i),
            None => res matches Err(e) && e@ == unclosed_message(),
        },
{
    match find_unescaped(string, terminator) {
        Some(index) => {
            proof {
                lemma_first_unescaped(string.spec_bytes(), 0, char_bytes(terminator));
                lemma_char_at_splittable(string, index as int, terminator);
            }
            let e = encode_char(terminator);
            let n = string.as_bytes().len();
            proof {
                assert(index + e@.len() <= n);
            }
            Ok((take_str(string, index), index + e.len()))
        },
        None => Err(String::from_str("Unclosed quoted string")),
    }
}

/// The text of the quoted string at the start of `string` (whose first character is taken to be
/// `quote`) and the number of bytes up to and including the closing quote.
pub fn parse_quoted_string(string: &str, quote: char) -> (res: Result<(&str, usize), String>)
    requires
        splittable(string.spec_bytes(), char_bytes(quote).len() as int),
    ensures
        ({
            let q = char_bytes(quote).len() as int;
            let suffix = string.spec_bytes().subrange(q, string.spec_bytes().len() as int);
            match first_unescaped(suffix, 0, char_bytes(quote)) {
                Some(i) => res matches Ok((v, n)) && n == q + i + q && v.spec_bytes()
                    == suffix.subrange(0, i),
                None => res matches Err(e) && e@ == unclosed_message(),
            }
        }),
{
    let q = encode_char(quote);
    let n = string.as_bytes().len();
    let suffix = skip_str(string, q.len());
    match parse_string_until(suffix, quote) {
        Ok((s, len)) => {
            proof {
                lemma_first_unescaped(suffix.spec_bytes(), 0, char_bytes(quote));
                assert(q.len() + len <= n);
            }
            Ok((s, q.len() + len))
        },
        Err(e) => Err(e),
    }
}

/// The possibly quoted string at the start of `b`: the offsets at which its text starts and
/// ends and the number of bytes it takes, or `None` for an unclosed quoted string.
pub open spec fn possibly_quoted_spec(b: Seq<u8>) -> Option<(int, int, int)> {
    if b.len() > 0 && quote_char(b[0] as char) {
        let suffix = b.subrange(1, b.len() as int);
        match first_unescaped(suffix, 0, seq![b[0]]) {
            Some(i) => Some((1, 1 + i, i + 2)),
            None => None,
        }
    } else {
        Some((0, unquoted_len(b), unquoted_len(b)))
    }
}

/// The string at the start of `string`, quoted or unquoted, and the number of bytes it takes.
pub fn parse_possibly_quoted_string(string: &str) -> (res: Result<(&str, usize), String>)
    ensures
        match possibly_quoted_spec(string.spec_bytes()) {
            Some((start, end, n)) => res matches Ok((v, m)) && m == n && v.spec_bytes()
                == string.spec_bytes().subrange(start, end),
            None => res matches Err(e) && e@ == unclosed_message(),
        },
{
    let b = string.as_bytes();
    if b.len() > 0 && is_quote(b[0] as char) {
        let quote = b[0] as char;
        proof {
            let v = quote as u32;
            assert(v == b@[0]);
            assert(v <= 0x7f ==> (v & 0x7f) as u8 == v) by (bit_vector);
            assert(char_bytes(quote) =~= seq![b@[0]]);
            lemma_splittable_after_ascii(string, 1);
        }
        let res = parse_quoted_string(string, quote);
        proof {
            assert(char_bytes(quote).len() == 1);
        }
        match res {
            Ok((s, len)) => {
                proof {
                    let suffix = string.spec_bytes().subrange(1, b@.len() as int);
                    lemma_first_unescaped(suffix, 0, char_bytes(quote));
                    assert(s.spec_bytes() =~= string.spec_bytes().subrange(1, len - 1));
                }
                Ok((s, len))
            },
            Err(e) => Err(e),
        }
    } else {
        Ok(parse_unquoted_string(string))
    }
}

/// The message of a string that is neither `true` nor `false`.
pub open spec fn invalid_bool_message(found: Seq<u8>) -> Seq<char> {
    "Invalid bool, expected true or false but found '"@ + text(found) + "'"@
}

/// The boolean literal at the start of `string` and its length in bytes.
pub fn parse_bool(string: &str) -> (res: Result<(bool, usize), String>)
    ensures
        ({
            let n = unquoted_len(string.spec_bytes());
            let word = string.spec_bytes().subrange(0, n);
            if word == "false".spec_bytes() {
                res == Ok::<(bool, usize), String>((false, n as usize))
            } else if word == "true".spec_bytes() {
                res == Ok::<(bool, usize), String>((true, n as usize))
            } else {
                res matches Err(e) && e@ == invalid_bool_message(word)
            }
        }),
{
    let (word, len) = parse_unquoted_string(string);
    if str_eq(word, "false") {
        Ok((false, len))
    } else if str_eq(word, "true") {
        Ok((true, len))
    } else {
        let mut e = String::from_str("Invalid bool, expected true or false but found '");
        e.append(word);
        e.append("'");
        proof {
            lemma_view_text(word);
        }
        Err(e)
    }
}

/// A character that may appear in a number.
pub open spec fn number_char(c: char) -> bool {
    ('0' <= c <= '9') || c == '.' || c == '-'
}

/// The predicate `number_char` as a value.
pub open spec fn number_pred() -> spec_fn(char) -> bool {
    |c: char| number_char(c)
}

/// The length of the number at the start of `b`.
pub open spec fn number_len(b: Seq<u8>) -> int {
    span_end(b, 0, number_pred())
}

/// Whether `c` may appear in a number.
pub fn is_allowed_number(c: char) -> (res: bool)
    ensures
        res == number_char(c),
{
    ('0' <= c && c <= '9') || c == '.' || c == '-'
}

/// A kind of number that arguments hold.
pub trait Number {
    /// The name of the kind of number, as used in error messages.
    fn number_name() -> &'static str;
}

impl Number for i32 {
    fn number_name() -> (res: &'static str)
        ensures
            res@ == "integer"@,
    {
        "integer"
    }
}

/// Why no number could be parsed.
#[derive(Copy, Clone, Debug, Eq, PartialEq)]
pub enum ParseNumberError<'l> {
    /// There is no number at all.
    Empty,
    /// The characters of a number do not form a valid number.
    Invalid(&'l str),
}

/// The message of a `ParseNumberError` for numbers named `number_name`.
pub open spec fn number_error_message(e: ParseNumberError, number_name: Seq<char>) -> Seq<char> {
    match e {
        ParseNumberError::Empty => "Expected "@ + number_name,
        ParseNumberError::Invalid(s) => "Invalid "@ + number_name + " '"@ + s@ + "'"@,
    }
}

impl<'l> ParseNumberError<'l> {
    /// The message of this error for integers.
    pub fn to_string(&self) -> (res: String)
        ensures
            res@ == number_error_message(*self, "integer"@),
    {
        match self {
            ParseNumberError::Empty => {
                let mut e = String::from_str("Expected ");
                e.append("integer");
                e
            },
            ParseNumberError::Invalid(s) => {
                let mut e = String::from_str("Invalid ");
                e.append("integer");
                e.append(" '");
                e.append(s);
                e.append("'");
                e
            },
        }
    }
}

/// The integer at the start of `string` and its length in bytes.
pub fn parse_number(string: &str) -> (res: Result<(i32, usize), ParseNumberError>)
    ensures
        ({
            let b = string.spec_bytes();
            let n = number_len(b);
            if n == 0 {
                res == Err::<(i32, usize), ParseNumberError>(ParseNumberError::Empty)
            } else {
                match parse_i32_spec(b.subrange(0, n)) {
                    Some(v) => res == Ok::<(i32, usize), ParseNumberError>((v, n as usize)),
                    None => res matches Err(ParseNumberError::Invalid(s)) && s.spec_bytes()
                        == b.subrange(0, n),
                }
            }
        }),
{
    let b = string.as_bytes();
    let len = find_span_end(b, 0, is_allowed_number, Ghost(number_pred()));
    proof {
        lemma_span_end(b@, 0, number_pred());
        lemma_ascii_span_splittable(string, len as int, number_pred());
    }
    let number = take_str(string, len);
    if len == 0 {
        Err(ParseNumberError::Empty)
    } else {
        match parse_i32(number) {
            Some(v) => Ok((v, len)),
            None => Err(ParseNumberError::Invalid(number)),
        }
    }
}

/// The integer at the start of `string` and its length in bytes.
pub fn parse_integer(string: &str) -> (res: Result<(i32, usize), String>)
    ensures
        ({
            let b = string.spec_bytes();
            let n = number_len(b);
            if n == 0 {
                res matches Err(e) && e@ == "Expected integer"@
            } else {
                match parse_i32_spec(b.subrange(0, n)) {
                    Some(v) => res == Ok::<(i32, usize), String>((v, n as usize)),
                    None => res matches Err(e) && e@ == "Invalid integer '"@ + text(
                        b.subrange(0, n),
                    ) + "'"@,
                }
            }
        }),
{
    match parse_number(string) {
        Ok(ok) => Ok(ok),
        Err(e) => {
            proof {
                if let ParseNumberError::Invalid(s) = e {
                    lemma_view_text(s);
                }
                reveal_strlit("Expected integer");
                reveal_strlit("Expected ");
                reveal_strlit("Invalid integer '");
                reveal_strlit("Invalid ");
                reveal_strlit("integer");
                reveal_strlit(" '");
                assert("Expected "@ + "integer"@ =~= "Expected integer"@);
                assert("Invalid "@ + "integer"@ + " '"@ =~= "Invalid integer '"@);
            }
            Err(e.to_string())
        },
    }
}

/// The characters of a decimal number as `str::parse::<f64>` accepts them when they are made of
/// digits, `.` and `-`: an optional sign, then digits with at most one `.`, and at least one
/// digit.
pub open spec fn decimal_literal(b: Seq<u8>) -> bool {
    let r = b.subrange(sign_len(b), b.len() as int);
    &&& forall|i: int| 0 <= i < r.len() ==> is_digit_byte(#[trigger] r[i]) || r[i] == '.' as u8
    &&& forall|i: int, j: int|
        0 <= i < r.len() && 0 <= j < r.len() && r[i] == '.' as u8 && r[j] == '.' as u8 ==> i == j
    &&& exists|i: int| 0 <= i < r.len() && is_digit_byte(#[trigger] r[i])
}

/// Whether `s` is a decimal literal.
pub fn is_decimal_literal(s: &str) -> (res: bool)
    ensures
        res == decimal_literal(s.spec_bytes()),
{
    let b = s.as_bytes();
    let ghost bs = b@;
    let start: usize = if b.len() > 0 && (b[0] == '-' as u8 || b[0] == '+' as u8) {
        1
    } else {
        0
    };
    let ghost r = bs.subrange(start as int, bs.len() as int);
    let mut i: usize = start;
    let mut dot: Option<usize> = None;
    let mut digit: Option<usize> = None;
    while i < b.len()
        invariant
            bs == b@,
            bs == s.spec_bytes(),
            start == sign_len(bs),
            r == bs.subrange(start as int, bs.len() as int),
            start <= i <= bs.len(),
            forall|k: int| 0 <= k < i - start ==> is_digit_byte(#[trigger] r[k]) || r[k] == '.' as u8,
            match dot {
                Some(d) => start <= d < i && bs[d as int] == '.' as u8 && forall|k: int|
                    0 <= k < i - start && #[trigger] r[k] == '.' as u8 ==> k == d - start,
                None => forall|k: int| 0 <= k < i - start ==> #[trigger] r[k] != '.' as u8,
            },
            match digit {
                Some(d) => start <= d < i && is_digit_byte(bs[d as int]),
                None => forall|k: int| 0 <= k < i - start ==> !is_digit_byte(#[trigger] r[k]),
            },
        decreases bs.len() - i,
    {
        let c = b[i];
        proof {
            assert(r[i - start] == c);
        }
        if c == '.' as u8 {
            if dot.is_some() {
                proof {
                    let d = dot.unwrap();
                    assert(r[d - start] == '.' as u8);
                }
                return false;
            }
            dot = Some(i);
        } else if '0' as u8 <= c && c <= '9' as u8 {
            digit = Some(i);
        } else {
            return false;
        }
        i = i + 1;
    }
    match digit {
        Some(d) => {
            proof {
                assert(is_digit_byte(r[d - start]));
            }
            true
        },
        None => false,
    }
}

/// The decimal number at the start of `string`, as text, and its length in bytes. The number
/// is made of digits, `.` and `-`; its value is left to the caller, who knows which kind of
/// floating point number it stands for.
pub fn parse_double(string: &str) -> (res: Result<(&str, usize), String>)
    ensures
        ({
            let b = string.spec_bytes();
            let n = number_len(b);
            if n == 0 {
                res matches Err(e) && e@ == "Expected double"@
            } else if decimal_literal(b.subrange(0, n)) {
                res matches Ok((v, m)) && m == n && v.spec_bytes() == b.subrange(0, n)
            } else {
                res matches Err(e) && e@ == "Invalid double '"@ + text(b.subrange(0, n))
                    + "'"@
            }
        }),
{
    let b = string.as_bytes();
    let len = find_span_end(b, 0, is_allowed_number, Ghost(number_pred()));
    proof {
        lemma_span_end(b@, 0, number_pred());
        lemma_ascii_span_splittable(string, len as int, number_pred());
    }
    let number = take_str(string, len);
    proof {
        reveal_strlit("Expected double");
        reveal_strlit("Expected ");
        reveal_strlit("Invalid double '");
        reveal_strlit("Invalid ");
        reveal_strlit("double");
        reveal_strlit(" '");
        assert("Expected "@ + "double"@ =~= "Expected double"@);
        assert("Invalid "@ + "double"@ + " '"@ =~= "Invalid double '"@);
    }
    if len == 0 {
        let mut e = String::from_str("Expected ");
        e.append("double");
        Err(e)
    } else if is_decimal_literal(number) {
        Ok((number, len))
    } else {
        let mut e = String::from_str("Invalid ");
        e.append("double");
        e.append(" '");
        e.append(number);
        e.append("'");
        proof {
            lemma_view_text(number);
        }
        Err(e)
    }
}

/// How much of the remaining input a `brigadier:string` argument takes.
#[derive(Copy, Clone, Debug, Eq, PartialEq)]
pub enum BrigadierStringType {
    /// All of the remaining input.
    Greedy,
    /// A possibly quoted phrase.
    Phrase,
    /// A single unquoted word.
    Word,
}

/// The string argument of the given type at the start of `string` and its length in bytes.
pub fn parse_string(string: &str, type_: BrigadierStringType) -> (res: Result<(&str, usize), String>)
    ensures
        match type_ {
            BrigadierStringType::Greedy => res matches Ok((v, n)) && v == string && n
                == string.spec_bytes().len(),
            BrigadierStringType::Phrase => res matches Err(e) && e@
                == "Unsupported type 'phrase' for argument parser brigadier:string"@,
            BrigadierStringType::Word => res matches Ok((v, n)) && n == unquoted_len(
                string.spec_bytes(),
            ) && v.spec_bytes() == string.spec_bytes().subrange(0, n as int),
        },
{
    match type_ {
        BrigadierStringType::Greedy => Ok((string, string.as_bytes().len())),
        BrigadierStringType::Phrase => Err(
            String::from_str("Unsupported type 'phrase' for argument parser brigadier:string"),
        ),
        BrigadierStringType::Word => Ok(parse_unquoted_string(string)),
    }
}

/// `string` without the leading ASCII character `prefix`, or the error of `expect`.
pub fn expect_ascii(string: &str, prefix: char) -> (res: Result<&str, String>)
    requires
        (prefix as u32) < 0x80,
    ensures
        match strip_byte(string.spec_bytes(), prefix as u8) {
            Some(r) => res matches Ok(x) && x.spec_bytes() == r && is_suffix(r, string.spec_bytes()),
            None => res matches Err(e) && e@ == expect_message(prefix),
        },
{
    proof {
        lemma_ascii_char_bytes(prefix);
        let b = string.spec_bytes();
        if b.len() > 0 && b[0] == prefix as u8 {
            assert(b.subrange(0, 1) =~= seq![prefix as u8]);
            lemma_after_suffix(b, 1);
        } else if b.len() > 0 {
            assert(b.subrange(0, 1)[0] == b[0]);
        }
    }
    expect(string, prefix)
}

/// The integer at the start of `b` and what follows it, as `parse_integer` reads it.
pub open spec fn integer_spec(b: Seq<u8>) -> Result<(i32, Seq<u8>), Seq<char>> {
    let n = number_len(b);
    if n == 0 {
        Err("Expected integer"@)
    } else {
        match parse_i32_spec(b.subrange(0, n)) {
            Some(v) => Ok((v, after(b, n))),
            None => Err("Invalid integer '"@ + text(b.subrange(0, n)) + "'"@),
        }
    }
}

/// The integer at the start of `string` and the rest of `string` after it.
pub fn parse_integer_prefix(string: &str) -> (res: Result<(i32, &str), String>)
    ensures
        match integer_spec(string.spec_bytes()) {
            Ok((v, r)) => res matches Ok((w, x)) && w == v && x.spec_bytes() == r && is_suffix(
                r,
                string.spec_bytes(),
            ),
            Err(m) => res matches Err(e) && e@ == m,
        },
{
    let _ = string.as_bytes().len();
    proof {
        lemma_span_end(string.spec_bytes(), 0, number_pred());
    }
    match parse_integer(string) {
        Ok((v, n)) => {
            proof {
                lemma_span_end(string.spec_bytes(), 0, number_pred());
                lemma_ascii_span_splittable(string, n as int, number_pred());
                lemma_after_suffix(string.spec_bytes(), n as int);
            }
            Ok((v, skip_str(string, n)))
        },
        Err(e) => Err(e),
    }
}

/// The possibly quoted string at the start of `b` and what follows it.
pub open spec fn quoted_prefix_spec(b: Seq<u8>) -> Result<(Seq<u8>, Seq<u8>), Seq<char>> {
    match possibly_quoted_spec(b) {
        None => Err(unclosed_message()),
        Some((start, end, n)) => Ok((b.subrange(start, end), after(b, n))),
    }
}

/// The possibly quoted string at the start of `string`, and the rest of `string`.
pub fn parse_possibly_quoted_prefix(string: &str) -> (res: Result<(&str, &str), String>)
    ensures
        match quoted_prefix_spec(string.spec_bytes()) {
            Ok((v, r)) => res matches Ok((x, y)) && x.spec_bytes() == v && y.spec_bytes() == r
                && is_suffix(r, string.spec_bytes()),
            Err(m) => res matches Err(e) && e@ == m,
        },
{
    let n = string.as_bytes().len();
    match parse_possibly_quoted_string(string) {
        Err(e) => Err(e),
        Ok((value, len)) => {
            proof {
                let b = string.spec_bytes();
                lemma_span_end(b, 0, unquoted_pred());
                if b.len() > 0 && quote_char(b[0] as char) {
                    let body = after(b, 1);
                    lemma_first_unescaped(body, 0, seq![b[0]]);
                }
                if 0 < len < n {
                    if b.len() > 0 && quote_char(b[0] as char) {
                        assert(b[len - 1] == b[0]) by {
                            let body = after(b, 1);
                            let i = len - 2;
                            assert(body.subrange(i as int, i + 1)[0] == body[i as int]);
                        }
                        assert((b[0] as char) as u32 == b[0]);
                    } else {
                        assert(unquoted_pred()(b[len - 1] as char));
                        assert((b[len - 1] as char) as u32 == b[len - 1]);
                    }
                    lemma_splittable_after_ascii(string, len as int);
                } else if len == 0 {
                    lemma_splittable_after_ascii(string, 0);
                }
                lemma_after_suffix(b, len as int);
            }
            Ok((value, skip_str(string, len)))
        },
    }
}

/// The unquoted string at the start of `string`, and the rest of `string`.
pub fn parse_unquoted_prefix(string: &str) -> (res: (&str, &str))
    ensures
        res.0.spec_bytes() == string.spec_bytes().subrange(0, unquoted_len(string.spec_bytes())),
        res.1.spec_bytes() == after(string.spec_bytes(), unquoted_len(string.spec_bytes())),
        is_suffix(res.1.spec_bytes(), string.spec_bytes()),
{
    let (value, len) = parse_unquoted_string(string);
    proof {
        let b = string.spec_bytes();
        lemma_span_end(b, 0, unquoted_pred());
        lemma_ascii_span_splittable(string, len as int, unquoted_pred());
        lemma_after_suffix(b, len as int);
    }
    (value, skip_str(string, len))
}

/// The decimal number at the start of `b`, as text, and what follows it, as `parse_double`
/// reads it.
pub open spec fn double_spec(b: Seq<u8>) -> Result<(Seq<u8>, Seq<u8>), Seq<char>> {
    let n = number_len(b);
    if n == 0 {
        Err("Expected double"@)
    } else if decimal_literal(b.subrange(0, n)) {
        Ok((b.subrange(0, n), after(b, n)))
    } else {
        Err("Invalid double '"@ + text(b.subrange(0, n)) + "'"@)
    }
}

/// The decimal number at the start of `string`, as text, and the rest of `string`.
pub fn parse_double_prefix(string: &str) -> (res: Result<(&str, &str), String>)
    ensures
        match double_spec(string.spec_bytes()) {
            Ok((v, r)) => res matches Ok((w, x)) && w.spec_bytes() == v && x.spec_bytes() == r
                && is_suffix(r, string.spec_bytes()),
            Err(m) => res matches Err(e) && e@ == m,
        },
{
    let _ = string.as_bytes().len();
    proof {
        lemma_span_end(string.spec_bytes(), 0, number_pred());
    }
    match parse_double(string) {
        Ok((v, n)) => {
            proof {
                lemma_ascii_span_splittable(string, n as int, number_pred());
                lemma_after_suffix(string.spec_bytes(), n as int);
            }
            Ok((v, skip_str(string, n)))
        },
        Err(e) => Err(e),
    }
}

/// The boolean literal at the start of `b` and what follows it, as `parse_bool` reads it.
pub open spec fn bool_spec(b: Seq<u8>) -> Result<(bool, Seq<u8>), Seq<char>> {
    let n = unquoted_len(b);
    let word = b.subrange(0, n);
    if word == "false".spec_bytes() {
        Ok((false, after(b, n)))
    } else if word == "true".spec_bytes() {
        Ok((true, after(b, n)))
    } else {
        Err(invalid_bool_message(word))
    }
}

/// The boolean literal at the start of `string`, and the rest of `string`.
pub fn parse_bool_prefix(string: &str) -> (res: Result<(bool, &str), String>)
    ensures
        match bool_spec(string.spec_bytes()) {
            Ok((v, r)) => res matches Ok((w, x)) && w == v && x.spec_bytes() == r && is_suffix(
                r,
                string.spec_bytes(),
            ),
            Err(m) => res matches Err(e) && e@ == m,
        },
{
    let _ = string.as_bytes().len();
    proof {
        lemma_span_end(string.spec_bytes(), 0, unquoted_pred());
    }
    match parse_bool(string) {
        Ok((v, n)) => {
            proof {
                lemma_ascii_span_splittable(string, n as int, unquoted_pred());
                lemma_after_suffix(string.spec_bytes(), n as int);
            }
            Ok((v, skip_str(string, n)))
        },
        Err(e) => Err(e),
    }
}

} // verus!

//! The framing of debug adapter protocol messages: a header with the length of the content,
//! an empty line, and the content.

use crate::text::{
    after, decimal, find_from, find_str, lemma_encode_concat, parse_usize, parse_usize_spec,
    skip_str, slice_str, splittable, str_eq, string_bytes, take_str, to_string, usize_to_string,
};
use vstd::prelude::*;
use vstd::string::*;

verus! {

/// The lines of `h`, split at each `\r\n`.
pub open spec fn header_lines(h: Seq<u8>) -> Seq<Seq<u8>>
    decreases h.len(),
{
    let k = find_from(h, "\r\n".spec_bytes(), 0);
    if k < 0 || k + 2 > h.len() {
        seq![h]
    } else {
        seq![h.subrange(0, k)] + header_lines(after(h, k + 2))
    }
}

/// The key and value of each line, split at its first `: `; the first line without one when
/// there is such a line.
pub open spec fn header_fields(lines: Seq<Seq<u8>>) -> Result<Seq<(Seq<u8>, Seq<u8>)>, Seq<u8>>
    decreases lines.len(),
{
    if lines.len() == 0 {
        Ok(Seq::empty())
    } else {
        let line = lines[0];
        let j = find_from(line, ": ".spec_bytes(), 0);
        if j < 0 {
            Err(line)
        } else {
            match header_fields(lines.drop_first()) {
                Ok(rest) => Ok(seq![(line.subrange(0, j), after(line, j + 2))] + rest),
                Err(e) => Err(e),
            }
        }
    }
}

/// The value of the last field with the key `k`, if there is one.
pub open spec fn field_value(fields: Seq<(Seq<u8>, Seq<u8>)>, k: Seq<u8>) -> Option<Seq<u8>>
    decreases fields.len(),
{
    if fields.len() == 0 {
        None
    } else if fields.last().0 == k {
        Some(fields.last().1)
    } else {
        field_value(fields.drop_last(), k)
    }
}

/// What reading the header at the start of `b` gives: nothing while `b` holds no empty line;
/// else the length of the header with the empty line and the content length; or the message of
/// the error that stops it.
pub open spec fn read_header_spec(b: Seq<u8>) -> Result<Option<(int, usize)>, Seq<u8>> {
    let end = find_from(b, "\r\n\r\n".spec_bytes(), 0);
    if end < 0 {
        Ok(None)
    } else {
        match header_fields(header_lines(b.subrange(0, end))) {
            Err(line) => Err(
                "Key and value of header field not seperated by a colon and a space: '".spec_bytes()
                    + line + "'".spec_bytes(),
            ),
            Ok(fields) => match field_value(fields, "Content-Length".spec_bytes()) {
                None => Err("Missing header 'Content-Length'".spec_bytes()),
                Some(v) => match parse_usize_spec(v) {
                    None => Err(
                        "Header 'Content-Length' does not have usize value: ".spec_bytes() + v,
                    ),
                    Some(n) => Ok(Some((end + 4, n))),
                },
            },
        }
    }
}

/// The fields after the ones in `f`, or the error that comes first.
pub open spec fn prepend(
    f: Seq<(Seq<u8>, Seq<u8>)>,
    r: Result<Seq<(Seq<u8>, Seq<u8>)>, Seq<u8>>,
) -> Result<Seq<(Seq<u8>, Seq<u8>)>, Seq<u8>> {
    match r {
        Ok(x) => Ok(f + x),
        Err(e) => Err(e),
    }
}

/// The key and value of each field.
pub open spec fn fields_model<'a>(v: Seq<(&'a str, &'a str)>) -> Seq<(Seq<u8>, Seq<u8>)> {
    Seq::new(v.len(), |i: int| (v[i].0.spec_bytes(), v[i].1.spec_bytes()))
}

/// The text `a` followed by `b`.
fn concat(a: &str, b: &str) -> (res: String)
    ensures
        string_bytes(&res) == a.spec_bytes() + b.spec_bytes(),
{
    let mut s = to_string(a);
    s.append(b);
    proof {
        lemma_encode_concat(a@, b@);
    }
    s
}

/// The fields of the header `header`, split into lines at each `\r\n` and each line split at
/// its first `: `; or the first line without `: `.
fn read_fields<'a>(header: &'a str) -> (res: Result<Vec<(&'a str, &'a str)>, &'a str>)
    ensures
        match header_fields(header_lines(header.spec_bytes())) {
            Ok(f) => res matches Ok(v) && fields_model(v@) == f,
            Err(line) => res matches Err(l) && l.spec_bytes() == line,
        },
{
    proof {
        reveal_strlit("\r\n");
        reveal_strlit(": ");
        crate::text::lemma_ascii_text("\r\n");
        crate::text::lemma_ascii_text(": ");
    }
    let ghost all = header_lines(header.spec_bytes());
    let mut fields: Vec<(&'a str, &'a str)> = Vec::new();
    let mut rest = header;
    proof {
        assert(fields_model(fields@) =~= Seq::<(Seq<u8>, Seq<u8>)>::empty());
        assert(Seq::<(Seq<u8>, Seq<u8>)>::empty() + Seq::<(Seq<u8>, Seq<u8>)>::empty() =~= Seq::<(Seq<u8>, Seq<u8>)>::empty());
        match header_fields(all) {
            Ok(x) => {
                assert(Seq::<(Seq<u8>, Seq<u8>)>::empty() + x =~= x);
            },
            Err(_) => {},
        }
    }
    loop
        invariant
            "\r\n".spec_bytes().len() == 2,
            ": ".spec_bytes().len() == 2,
            header_fields(all) == prepend(fields_model(fields@), header_fields(header_lines(rest.spec_bytes()))),
            all == header_lines(header.spec_bytes()),
        decreases rest.spec_bytes().len(),
    {
        let ghost rb = rest.spec_bytes();
        let _ = rest.as_bytes().len();
        let (line, next) = match find_str(rest, "\r\n") {
            Some(k) => (take_str(rest, k), Some(skip_str(rest, k + 2))),
            None => (rest, None),
        };
        proof {
            match next {
                Some(n) => {
                    assert(header_lines(rb) == seq![line.spec_bytes()] + header_lines(n.spec_bytes()));
                },
                None => {
                    assert(header_lines(rb) == seq![line.spec_bytes()]);
                },
            }
        }
        let ghost lines = header_lines(rb);
        proof {
            assert(lines[0] == line.spec_bytes());
        }
        match find_str(line, ": ") {
            None => {
                return Err(line);
            },
            Some(j) => {
                let _ = line.as_bytes().len();
                let key = take_str(line, j);
                let value = skip_str(line, j + 2);
                let ghost before = fields@;
                fields.push((key, value));
                proof {
                    assert(fields_model(fields@) =~= fields_model(before) + seq![(key.spec_bytes(), value.spec_bytes())]);
                    assert(lines.drop_first() =~= match next {
                        Some(n) => header_lines(n.spec_bytes()),
                        None => Seq::<Seq<u8>>::empty(),
                    });
                    match header_fields(lines.drop_first()) {
                        Ok(x) => {
                            assert(fields_model(before) + (seq![(key.spec_bytes(), value.spec_bytes())] + x) =~= fields_model(fields@) + x);
                        },
                        Err(_) => {},
                    }
                }
                match next {
                    Some(n) => {
                        rest = n;
                    },
                    None => {
                        proof {
                            assert(header_fields(Seq::<Seq<u8>>::empty()) == Ok::<Seq<(Seq<u8>, Seq<u8>)>, Seq<u8>>(Seq::empty()));
                            assert(fields_model(fields@) + Seq::<(Seq<u8>, Seq<u8>)>::empty() =~= fields_model(fields@));
                        }
                        return Ok(fields);
                    },
                }
            },
        }
    }
}

/// Reads the header at the start of `string`: `None` while `string` holds no empty line, else
/// the length of the header with the empty line and the value of its `Content-Length` field.
pub fn read_header(string: &str) -> (res: Result<Option<(usize, usize)>, String>)
    ensures
        match read_header_spec(string.spec_bytes()) {
            Ok(None) => res matches Ok(None),
            Ok(Some((h, n))) => res matches Ok(Some((x, y))) && x == h && y == n,
            Err(m) => res matches Err(e) && string_bytes(&e) == m,
        },
{
    proof {
        reveal_strlit("\r\n\r\n");
        crate::text::lemma_ascii_text("\r\n\r\n");
    }
    let end = match find_str(string, "\r\n\r\n") {
        Some(end) => end,
        None => return Ok(None),
    };
    let _ = string.as_bytes().len();
    let header = take_str(string, end);
    let fields = match read_fields(header) {
        Ok(fields) => fields,
        Err(line) => {
            let mut e = concat(
                "Key and value of header field not seperated by a colon and a space: '",
                line,
            );
            let ghost e0 = e@;
            e.append("'");
            proof {
                lemma_encode_concat(e0, "'"@);
            }
            return Err(e);
        },
    };
    let ghost fm = fields_model(fields@);
    let mut value: Option<&str> = None;
    let mut i: usize = 0;
    proof {
        assert(fm.take(0) =~= Seq::<(Seq<u8>, Seq<u8>)>::empty());
    }
    while i < fields.len()
        invariant
            fm == fields_model(fields@),
            i <= fields@.len(),
            match field_value(fm.take(i as int), "Content-Length".spec_bytes()) {
                Some(v) => value matches Some(x) && x.spec_bytes() == v,
                None => value is None,
            },
        decreases fields@.len() - i,
    {
        proof {
            assert(fm.take(i + 1).drop_last() =~= fm.take(i as int));
            assert(fm.take(i + 1).last() == fm[i as int]);
        }
        if str_eq(fields[i].0, "Content-Length") {
            value = Some(fields[i].1);
        }
        i = i + 1;
    }
    proof {
        assert(fm.take(i as int) =~= fm);
    }
    let value = match value {
        Some(v) => v,
        None => return Err(to_string("Missing header 'Content-Length'")),
    };
    match parse_usize(value) {
        Some(n) => {
            proof {
                assert(end + 4 <= string.spec_bytes().len());
            }
            Ok(Some((end + 4, n)))
        },
        None => Err(concat("Header 'Content-Length' does not have usize value: ", value)),
    }
}

/// The frame of a message with the content `json`: `Content-Length: `, the length of `json` in
/// bytes, an empty line, and `json`.
pub fn frame(json: &str) -> (res: String)
    ensures
        string_bytes(&res) == "Content-Length: ".spec_bytes() + decimal(json.spec_bytes().len())
            + "\r\n\r\n".spec_bytes() + json.spec_bytes(),
{
    let n = json.as_bytes().len();
    let digits = usize_to_string(n);
    let mut s = to_string("Content-Length: ");
    let ghost s0 = s@;
    s.append(digits.as_str());
    let ghost s1 = s@;
    s.append("\r\n\r\n");
    let ghost s2 = s@;
    s.append(json);
    proof {
        lemma_encode_concat(s0, digits@);
        lemma_encode_concat(s1, "\r\n\r\n"@);
        lemma_encode_concat(s2, json@);
    }
    s
}

/// Frames outgoing protocol messages.
pub struct ProtocolMessageEncoder;

impl ProtocolMessageEncoder {
    /// The frame of a message with the content `json`.
    pub fn encode(&self, json: &str) -> (res: String)
        ensures
            string_bytes(&res) == "Content-Length: ".spec_bytes() + decimal(
                json.spec_bytes().len(),
            ) + "\r\n\r\n".spec_bytes() + json.spec_bytes(),
    {
        frame(json)
    }
}

/// Reads the headers of incoming protocol messages.
pub struct ProtocolMessageDecoder;

impl ProtocolMessageDecoder {
    /// The header at the start of `string`, as `read_header` reads it.
    pub fn read_header(&self, string: &str) -> (res: Result<Option<(usize, usize)>, String>)
        ensures
            match read_header_spec(string.spec_bytes()) {
                Ok(None) => res matches Ok(None),
                Ok(Some((h, n))) => res matches Ok(Some((x, y))) && x == h && y == n,
                Err(m) => res matches Err(e) && string_bytes(&e) == m,
            },
    {
        read_header(string)
    }
}

/// `find_from` finds `j` when `p` occurs at `j` and nowhere between `i` and `j`.
proof fn lemma_find_from_at(b: Seq<u8>, p: Seq<u8>, i: int, j: int)
    requires
        0 <= i <= j,
        j + p.len() <= b.len(),
        b.subrange(j, j + p.len()) == p,
        forall|m: int| i <= m < j ==> #[trigger] b.subrange(m, m + p.len()) != p,
    ensures
        find_from(b, p, i) == j,
    decreases j - i,
{
    if i < j {
        lemma_find_from_at(b, p, i + 1, j);
    }
}

/// `find_from` finds nothing in a text that holds no byte equal to the first byte of `p`.
proof fn lemma_find_from_none(b: Seq<u8>, p: Seq<u8>, i: int)
    requires
        0 <= i,
        p.len() > 0,
        forall|m: int| i <= m < b.len() ==> b[m] != p[0],
    ensures
        find_from(b, p, i) == -1,
    decreases b.len() + 1 - i,
{
    if i + p.len() <= b.len() {
        assert(b.subrange(i, i + p.len())[0] == b[i]);
        lemma_find_from_none(b, p, i + 1);
    }
}

/// Reading the header of a framed message gives the length of the header and the length of its
/// content.
pub proof fn lemma_frame_header(json: Seq<u8>, rest: Seq<u8>)
    requires
        json.len() <= usize::MAX,
    ensures
        read_header_spec(
            "Content-Length: ".spec_bytes() + decimal(json.len()) + "\r\n\r\n".spec_bytes() + json
                + rest,
        ) == Ok::<Option<(int, usize)>, Seq<u8>>(
            Some((("Content-Length: ".spec_bytes().len() + decimal(json.len()).len() + 4) as int, json.len() as usize)),
        ),
{
    let n = json.len();
    let p = "Content-Length: ".spec_bytes();
    let d = decimal(n);
    let s = "\r\n\r\n".spec_bytes();
    let b = p + d + s + json + rest;
    reveal_strlit("Content-Length: ");
    reveal_strlit("Content-Length");
    reveal_strlit("\r\n\r\n");
    reveal_strlit("\r\n");
    reveal_strlit(": ");
    crate::text::lemma_ascii_text("Content-Length: ");
    crate::text::lemma_ascii_text("Content-Length");
    crate::text::lemma_ascii_text("\r\n\r\n");
    crate::text::lemma_ascii_text("\r\n");
    crate::text::lemma_ascii_text(": ");
    crate::text::lemma_decimal(n);
    crate::text::lemma_parse_decimal(n as usize);
    assert(p.len() == 16);
    assert(s.len() == 4);
    let h = p + d;
    let e = h.len() as int;
    assert forall|m: int| 0 <= m < e implies h[m] != '\r' as u8 by {
        if m < 16 {
            assert(h[m] == p[m]);
        } else {
            assert(h[m] == d[m - 16]);
            assert(crate::text::is_digit_byte(d[m - 16]));
        }
    }
    assert(b.subrange(e, e + 4) =~= s);
    assert forall|m: int| 0 <= m < e implies #[trigger] b.subrange(m, m + s.len()) != s by {
        assert(b.subrange(m, m + s.len())[0] == b[m]);
        assert(b[m] == h[m]);
    }
    lemma_find_from_at(b, s, 0, e);
    assert(b.subrange(0, e) =~= h);
    lemma_find_from_none(h, "\r\n".spec_bytes(), 0);
    assert(header_lines(h) =~= seq![h]);
    let c = ": ".spec_bytes();
    assert(h.subrange(14, 16) =~= c);
    assert forall|m: int| 0 <= m < 14 implies #[trigger] h.subrange(m, m + c.len()) != c by {
        assert(h.subrange(m, m + c.len())[0] == h[m]);
        assert(h[m] == p[m]);
    }
    lemma_find_from_at(h, c, 0, 14);
    assert(h.subrange(0, 14) =~= "Content-Length".spec_bytes());
    assert(after(h, 16) =~= d);
    assert(seq![h].drop_first() =~= Seq::<Seq<u8>>::empty());
    assert(header_fields(Seq::<Seq<u8>>::empty()) == Ok::<Seq<(Seq<u8>, Seq<u8>)>, Seq<u8>>(
        Seq::empty(),
    ));
    assert(find_from(h, ": ".spec_bytes(), 0) == 14);
    assert(header_fields(seq![h]) == Ok::<Seq<(Seq<u8>, Seq<u8>)>, Seq<u8>>(
        seq![("Content-Length".spec_bytes(), d)],
    )) by {
        assert(seq![("Content-Length".spec_bytes(), d)] + Seq::<(Seq<u8>, Seq<u8>)>::empty() =~= seq![
            ("Content-Length".spec_bytes(), d),
        ]);
    }
    let fields = seq![("Content-Length".spec_bytes(), d)];
    assert(field_value(fields, "Content-Length".spec_bytes()) == Some(d));
}

/// Where `find_from` finds `p`, `p` occurs.
proof fn lemma_find_from_found(b: Seq<u8>, p: Seq<u8>, i: int)
    ensures
        find_from(b, p, i) >= 0 ==> {
            let k = find_from(b, p, i);
            &&& i <= k
            &&& k + p.len() <= b.len()
            &&& b.subrange(k, k + p.len()) == p
        },
    decreases b.len() + 1 - i,
{
    if !(i < 0 || i + p.len() > b.len()) && b.subrange(i, i + p.len()) != p {
        lemma_find_from_found(b, p, i + 1);
    }
}

/// What decoding the bytes `b` gives: nothing while they hold no complete message; else the
/// content of the first message and the number of bytes that the message takes; or the message
/// of the error in its header.
pub open spec fn decode_spec(b: Seq<u8>) -> Result<Option<(Seq<u8>, int)>, Seq<u8>> {
    match read_header_spec(b) {
        Err(m) => Err(m),
        Ok(None) => Ok(None),
        Ok(Some((h, n))) => if b.len() < h + n {
            Ok(None)
        } else {
            Ok(Some((b.subrange(h, h + n), h + n)))
        },
    }
}

/// The content of a complete first message in `b` ends at a character boundary.
pub open spec fn content_ends_at_boundary(b: Seq<u8>) -> bool {
    match read_header_spec(b) {
        Ok(Some((h, n))) => h + n <= b.len() ==> splittable(b, h + n),
        _ => true,
    }
}

/// The content of the first complete message in `string` and the number of bytes the message
/// takes; `None` while `string` holds no complete message.
pub fn decode_message(string: &str) -> (res: Result<Option<(String, usize)>, String>)
    requires
        content_ends_at_boundary(string.spec_bytes()),
    ensures
        match decode_spec(string.spec_bytes()) {
            Err(m) => res matches Err(e) && string_bytes(&e) == m,
            Ok(None) => res matches Ok(None),
            Ok(Some((c, n))) => res matches Ok(Some((x, k))) && string_bytes(&x) == c && k == n,
        },
{
    match read_header(string) {
        Err(e) => Err(e),
        Ok(None) => Ok(None),
        Ok(Some((header_len, content_length))) => {
            let len = string.as_bytes().len();
            proof {
                reveal_strlit("\r\n\r\n");
                crate::text::lemma_ascii_text("\r\n\r\n");
                let b = string.spec_bytes();
                let end = find_from(b, "\r\n\r\n".spec_bytes(), 0);
                lemma_find_from_found(b, "\r\n\r\n".spec_bytes(), 0);
                assert(b.subrange(end, end + 4)[3] == b[header_len - 1]);
                assert("\r\n\r\n".spec_bytes()[3] < 0x80);
                crate::text::lemma_splittable_after_ascii(string, header_len as int);
            }
            if content_length > len - header_len {
                Ok(None)
            } else {
                let content = slice_str(string, header_len, header_len + content_length);
                Ok(Some((to_string(content), header_len + content_length)))
            }
        },
    }
}

} // verus!

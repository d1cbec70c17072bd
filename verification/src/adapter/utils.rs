//! Positions in functions as the generated datapack spells them in the names it reports, and the
//! function that a file of a datapack defines.

use crate::entries::Modeled;
use crate::generator::config::adapter::{
    local_position_bytes, local_position_spec, BreakpointPositionInLine, LocalBreakpointPosition,
};
use crate::parser::command::resource_location::{lemma_written_determined, location_model, ResourceLocation};
use crate::text::{
    after, count_ascii, count_byte, find_byte_from, last_byte, lemma_ascii_char_bytes,
    lemma_encode_concat, lemma_find_byte, lemma_last_byte, lemma_splittable_after_ascii,
    parse_usize, parse_usize_spec, replace_char, replace_spec, rfind_ascii, skip_str, splittable,
    string_bytes, take_str, to_string, usize_to_string, decimal, char_bytes, find_from, find_str,
    lemma_char_bytes_leading, push_char, replace,
};
use vstd::prelude::*;
use vstd::string::*;

verus! {

/// The namespace and path of the resource location that `b` spells with `sep` in place of both
/// the `:` after the namespace and each `/`: the namespace is the text before the first `sep`, the
/// path the rest with each `sep` replaced by `/`.
pub open spec fn separated_location_spec(b: Seq<u8>, sep: u8) -> (Seq<u8>, Seq<u8>) {
    let i = find_byte_from(b, 0, sep);
    if i < b.len() {
        (b.subrange(0, i), replace_spec(after(b, i + 1), seq![sep], seq!['/' as u8]))
    } else {
        (b, Seq::empty())
    }
}

/// A slice may be split right after an ASCII byte of it, and at its end.
proof fn lemma_split_after(s: &str, i: int)
    requires
        0 <= i < s.spec_bytes().len(),
        s.spec_bytes()[i] < 0x80,
    ensures
        splittable(s.spec_bytes(), i + 1),
{
    lemma_splittable_after_ascii(s, i + 1);
}

/// The namespace and path of the resource location that `b` spells with the separator `sep` in
/// place of both the `:` after the namespace and each `/`: the namespace is the text before the
/// first `sep`, the path the rest with each `sep` replaced by `/`.
pub open spec fn location_with_separator(b: Seq<u8>, sep: Seq<u8>) -> (Seq<u8>, Seq<u8>) {
    let i = find_from(b, sep, 0);
    if i >= 0 {
        (b.subrange(0, i), replace_spec(after(b, i + sep.len()), sep, seq!['/' as u8]))
    } else {
        (b, Seq::empty())
    }
}

/// Finding a single byte is finding the pattern of that byte.
proof fn lemma_find_single(b: Seq<u8>, c: u8, i: int)
    requires
        0 <= i,
    ensures
        find_from(b, seq![c], i) == if find_byte_from(b, i, c) < b.len() {
            find_byte_from(b, i, c)
        } else {
            -1
        },
    decreases b.len() - i,
{
    if i < b.len() {
        assert(b.subrange(i, i + 1) =~= seq![b[i]]);
        if b[i] != c {
            assert(b.subrange(i, i + 1) != seq![c]) by {
                if b.subrange(i, i + 1) == seq![c] {
                    assert(b.subrange(i, i + 1)[0] == seq![c][0]);
                }
            }
            lemma_find_single(b, c, i + 1);
        }
    }
}

/// With an ASCII separator, the location is the one that `separated_location_spec` reads.
pub proof fn lemma_ascii_separator(b: Seq<u8>, c: char)
    requires
        (c as u32) < 0x80,
    ensures
        location_with_separator(b, char_bytes(c)) == separated_location_spec(b, c as u8),
{
    lemma_ascii_char_bytes(c);
    lemma_find_single(b, c as u8, 0);
    crate::text::lemma_find_byte(b, 0, c as u8);
}

/// The resource location that `function` spells with `seperator` in place of both the `:` after
/// the namespace and each `/`.
pub fn parse_resource_location(function: &str, seperator: char) -> (res: Option<ResourceLocation>)
    requires
        function.spec_bytes().len() < usize::MAX,
    ensures
        res matches Some(r) && r.model_of() == location_with_separator(
            function.spec_bytes(),
            char_bytes(seperator),
        ) && r.written(),
{
    let mut sep = String::new();
    push_char(&mut sep, seperator);
    proof {
        assert(sep@ =~= seq![seperator]);
        lemma_char_bytes_leading(seperator);
    }
    match find_str(function, sep.as_str()) {
        Some(i) => {
            let n = sep.as_str().as_bytes().len();
            let namespace = take_str(function, i);
            let rest = skip_str(function, i + n);
            proof {
                reveal_strlit("/");
                crate::text::lemma_ascii_text("/");
                assert("/".spec_bytes() =~= seq!['/' as u8]);
            }
            let path = replace(rest, sep.as_str(), "/");
            Some(ResourceLocation::new(namespace, path.as_str()))
        },
        None => {
            proof {
                reveal_strlit("");
                assert(""@ =~= Seq::<char>::empty());
            }
            Some(ResourceLocation::new(function, ""))
        },
    }
}

/// A position in a function at which execution may stop.
#[derive(Clone, Debug)]
pub struct BreakpointPosition {
    pub function: ResourceLocation,
    pub line_number: usize,
    pub position_in_line: BreakpointPositionInLine,
}

/// The value of a breakpoint position: the namespace and path of its function, its line and its
/// place in the line.
pub open spec fn position_model(p: BreakpointPosition) -> ((Seq<u8>, Seq<u8>), usize, BreakpointPositionInLine) {
    (p.function.model_of(), p.line_number, p.position_in_line)
}

/// The text of a breakpoint position: the namespace, `+`, the path with each `/` replaced by `+`,
/// `+`, the line number, `_` and the name of the place in the line.
pub open spec fn breakpoint_position_bytes(p: BreakpointPosition) -> Seq<u8> {
    p.function.namespace_bytes() + seq!['+' as u8] + replace_spec(
        p.function.path_bytes(),
        seq!['/' as u8],
        seq!['+' as u8],
    ) + seq!['+' as u8] + local_position_bytes(
        LocalBreakpointPosition { line_number: p.line_number, position_in_line: p.position_in_line },
    )
}

/// The breakpoint position that the text `b` spells: the function before the last `+`, and the
/// line and place in the line after it.
pub open spec fn breakpoint_position_spec(b: Seq<u8>) -> Option<((Seq<u8>, Seq<u8>), usize, BreakpointPositionInLine)> {
    let i = last_byte(b, '+' as u8);
    if i < 0 {
        None
    } else {
        match local_position_spec(after(b, i + 1)) {
            Some(lp) => Some(
                (
                    separated_location_spec(b.subrange(0, i), '+' as u8),
                    lp.line_number,
                    lp.position_in_line,
                ),
            ),
            None => None,
        }
    }
}

impl BreakpointPosition {
    /// The position of the breakpoint at `position` in `function`.
    pub fn from_breakpoint(function: ResourceLocation, position: &LocalBreakpointPosition) -> (res:
        BreakpointPosition)
        ensures
            res.function == function,
            res.line_number == position.line_number,
            res.position_in_line == position.position_in_line,
    {
        BreakpointPosition {
            function,
            line_number: position.line_number,
            position_in_line: position.position_in_line,
        }
    }

    /// The text of this position.
    pub fn to_string(&self) -> (res: String)
        ensures
            string_bytes(&res) == breakpoint_position_bytes(*self),
    {
        let ns = self.function.namespace();
        let path = replace_char(self.function.path(), '/', '+');
        let local = LocalBreakpointPosition {
            line_number: self.line_number,
            position_in_line: self.position_in_line,
        };
        let rest = local.to_string();
        let mut s = to_string(ns);
        let ghost s0 = s@;
        s.append("+");
        let ghost s1 = s@;
        s.append(path.as_str());
        let ghost s2 = s@;
        s.append("+");
        let ghost s3 = s@;
        s.append(rest.as_str());
        proof {
            reveal_strlit("+");
            lemma_ascii_char_bytes('+');
            assert("+"@ =~= seq!['+']);
            lemma_encode_concat(s0, "+"@);
            lemma_encode_concat(s1, path@);
            lemma_encode_concat(s2, "+"@);
            lemma_encode_concat(s3, rest@);
        }
        s
    }

    /// The position that `string` spells.
    pub fn parse(string: &str) -> (res: Option<BreakpointPosition>)
        ensures
            match breakpoint_position_spec(string.spec_bytes()) {
                Some(m) => res matches Some(p) && position_model(p) == m && p.function.written(),
                None => res is None,
            },
    {
        let n = string.as_bytes().len();
        let i = match rfind_ascii(string, '+') {
            Some(i) => i,
            None => return None,
        };
        proof {
            lemma_last_byte(string.spec_bytes(), string.spec_bytes().len() as int, '+' as u8);
            lemma_split_after(string, i as int);
            crate::text::lemma_splittable_at_ascii(string, i as int);
        }
        let function = take_str(string, i);
        let position = match LocalBreakpointPosition::parse(skip_str(string, i + 1)) {
            Some(p) => p,
            None => return None,
        };
        proof {
            lemma_ascii_separator(function.spec_bytes(), '+');
        }
        match parse_resource_location(function, '+') {
            Some(function) => Some(
                BreakpointPosition {
                    function,
                    line_number: position.line_number,
                    position_in_line: position.position_in_line,
                },
            ),
            None => None,
        }
    }
}

impl core::str::FromStr for BreakpointPosition {
    type Err = ();

    fn from_str(string: &str) -> (res: Result<BreakpointPosition, ()>)
        ensures
            match breakpoint_position_spec(string.spec_bytes()) {
                Some(m) => res matches Ok(p) && position_model(p) == m,
                None => res is Err,
            },
    {
        match BreakpointPosition::parse(string) {
            Some(p) => Ok(p),
            None => Err(()),
        }
    }
}

/// The report of the generated datapack that execution stopped at a position.
#[derive(Debug)]
pub struct StoppedEvent {
    pub position: BreakpointPosition,
}

/// The position of the stop that the text `b` reports: `stopped+` followed by a position.
pub open spec fn stopped_event_spec(b: Seq<u8>) -> Option<((Seq<u8>, Seq<u8>), usize, BreakpointPositionInLine)> {
    let prefix = "stopped+".spec_bytes();
    if prefix.len() <= b.len() && b.subrange(0, prefix.len() as int) == prefix {
        breakpoint_position_spec(after(b, prefix.len() as int))
    } else {
        None
    }
}

impl StoppedEvent {
    /// The stop that `string` reports.
    pub fn parse(string: &str) -> (res: Option<StoppedEvent>)
        ensures
            match stopped_event_spec(string.spec_bytes()) {
                Some(m) => res matches Some(e) && position_model(e.position) == m,
                None => res is None,
            },
    {
        match crate::text::strip_prefix_str(string, "stopped+") {
            Some(rest) => match BreakpointPosition::parse(rest) {
                Some(position) => Some(StoppedEvent { position }),
                None => None,
            },
            None => None,
        }
    }
}

impl core::str::FromStr for StoppedEvent {
    type Err = ();

    fn from_str(string: &str) -> (res: Result<StoppedEvent, ()>)
        ensures
            match stopped_event_spec(string.spec_bytes()) {
                Some(m) => res matches Ok(p) && position_model(p.position) == m,
                None => res is Err,
            },
    {
        match StoppedEvent::parse(string) {
            Some(e) => Ok(e),
            None => Err(()),
        }
    }
}

/// A line and column in a function, as the game reports it.
#[derive(Clone, Debug)]
pub struct SourceLocation {
    pub function: ResourceLocation,
    pub line_number: usize,
    pub column_number: usize,
}

/// The value of a source location: the namespace and path of its function, its line and its
/// column.
pub open spec fn source_model(l: SourceLocation) -> ((Seq<u8>, Seq<u8>), usize, usize) {
    (l.function.model_of(), l.line_number, l.column_number)
}

/// The source location that the text `b` spells: `namespace:path:line`, with `:column` after it
/// when `b` holds three `:`, else in column 1. The path is the text between the first and the
/// second to last `:` (or last, without a column), with each `:` in it replaced by `/`.
pub open spec fn source_location_spec(b: Seq<u8>) -> Option<((Seq<u8>, Seq<u8>), usize, usize)> {
    let has_column = count_byte(b, ':' as u8) == 3;
    let j = last_byte(b, ':' as u8);
    let (rest, column) = if has_column {
        (b.subrange(0, j), parse_usize_spec(after(b, j + 1)))
    } else {
        (b, Some(1usize))
    };
    match column {
        None => None,
        Some(column) => {
            let k = last_byte(rest, ':' as u8);
            if k < 0 {
                None
            } else {
                match parse_usize_spec(after(rest, k + 1)) {
                    Some(line) => Some(
                        (separated_location_spec(rest.subrange(0, k), ':' as u8), line, column),
                    ),
                    None => None,
                }
            }
        },
    }
}

/// A text with three bytes `c` has a last one.
proof fn lemma_count_last(b: Seq<u8>, c: u8)
    requires
        count_byte(b, c) > 0,
    ensures
        last_byte(b, c) >= 0,
    decreases b.len(),
{
    lemma_last_byte(b, b.len() as int, c);
    if last_byte(b, c) < 0 {
        lemma_no_byte_no_count(b, c);
    }
}

/// A text without a byte `c` counts none.
proof fn lemma_no_byte_no_count(b: Seq<u8>, c: u8)
    requires
        forall|m: int| 0 <= m < b.len() ==> b[m] != c,
    ensures
        count_byte(b, c) == 0,
    decreases b.len(),
{
    if b.len() > 0 {
        lemma_no_byte_no_count(b.drop_last(), c);
    }
}

impl SourceLocation {
    /// The source location that `string` spells.
    pub fn parse(string: &str) -> (res: Option<SourceLocation>)
        ensures
            match source_location_spec(string.spec_bytes()) {
                Some(m) => res matches Some(l) && source_model(l) == m,
                None => res is None,
            },
    {
        let n = string.as_bytes().len();
        let has_column = count_ascii(string, ':') == 3;
        let (rest, column_number) = if has_column {
            proof {
                lemma_count_last(string.spec_bytes(), ':' as u8);
            }
            let j = match rfind_ascii(string, ':') {
                Some(j) => j,
                None => return None,
            };
            proof {
                lemma_last_byte(string.spec_bytes(), n as int, ':' as u8);
                crate::text::lemma_splittable_at_ascii(string, j as int);
                lemma_split_after(string, j as int);
            }
            match parse_usize(skip_str(string, j + 1)) {
                Some(column) => (take_str(string, j), column),
                None => return None,
            }
        } else {
            (string, 1usize)
        };
        let rn = rest.as_bytes().len();
        let k = match rfind_ascii(rest, ':') {
            Some(k) => k,
            None => return None,
        };
        proof {
            lemma_last_byte(rest.spec_bytes(), rn as int, ':' as u8);
            crate::text::lemma_splittable_at_ascii(rest, k as int);
            lemma_split_after(rest, k as int);
        }
        let line_number = match parse_usize(skip_str(rest, k + 1)) {
            Some(line) => line,
            None => return None,
        };
        proof {
            lemma_ascii_separator(rest.spec_bytes().subrange(0, k as int), ':');
        }
        match parse_resource_location(take_str(rest, k), ':') {
            Some(function) => Some(SourceLocation { function, line_number, column_number }),
            None => None,
        }
    }

    /// The name of this location: the function's text, `:` and the line number.
    pub fn get_name(&self) -> (res: String)
        ensures
            string_bytes(&res) == self.function.text_of() + seq![':' as u8] + decimal(
                self.line_number as nat,
            ),
    {
        let mut s = self.function.to_string();
        let ghost s0 = s@;
        s.append(":");
        let ghost s1 = s@;
        let digits = usize_to_string(self.line_number);
        s.append(digits.as_str());
        proof {
            reveal_strlit(":");
            lemma_ascii_char_bytes(':');
            assert(":"@ =~= seq![':']);
            lemma_encode_concat(s0, ":"@);
            lemma_encode_concat(s1, digits@);
        }
        s
    }
}

impl core::str::FromStr for SourceLocation {
    type Err = ();

    fn from_str(string: &str) -> (res: Result<SourceLocation, ()>)
        ensures
            match source_location_spec(string.spec_bytes()) {
                Some(m) => res matches Ok(p) && source_model(p) == m,
                None => res is Err,
            },
    {
        match SourceLocation::parse(string) {
            Some(l) => Ok(l),
            None => Err(()),
        }
    }
}

/// The name of a file without its extension: the name up to its last `.`, unless the name is `..`
/// or its only `.` starts it.
pub open spec fn file_stem(name: Seq<u8>) -> Seq<u8> {
    let d = last_byte(name, '.' as u8);
    if name == "..".spec_bytes() || d <= 0 {
        name
    } else {
        name.subrange(0, d)
    }
}

/// The parts joined by `/`.
pub open spec fn join_slash(parts: Seq<Seq<u8>>) -> Seq<u8>
    decreases parts.len(),
{
    if parts.len() == 0 {
        Seq::empty()
    } else if parts.len() == 1 {
        parts[0]
    } else {
        join_slash(parts.drop_last()) + seq!['/' as u8] + parts.last()
    }
}

/// The path of a function whose file has the path components `rest` below the `functions`
/// directory: the components joined by `/`, the last without its extension.
pub open spec fn function_path_of(rest: Seq<Seq<u8>>) -> Seq<u8> {
    if rest.len() == 0 {
        Seq::empty()
    } else {
        join_slash(rest.drop_last().push(file_stem(rest.last())))
    }
}

/// The bytes of path components.
pub open spec fn components_model(parts: Seq<&str>) -> Seq<Seq<u8>> {
    Seq::new(parts.len(), |i: int| parts[i].spec_bytes())
}

/// The length of the name of a file without its extension.
fn stem_len(name: &str) -> (res: usize)
    ensures
        res <= name.spec_bytes().len(),
        name.spec_bytes().subrange(0, res as int) == file_stem(name.spec_bytes()),
        splittable(name.spec_bytes(), res as int),
{
    let n = name.as_bytes().len();
    proof {
        assert(name.spec_bytes().subrange(0, n as int) =~= name.spec_bytes());
    }
    if crate::text::str_eq(name, "..") {
        return n;
    }
    match rfind_ascii(name, '.') {
        Some(d) => {
            if d > 0 {
                proof {
                    lemma_last_byte(name.spec_bytes(), n as int, '.' as u8);
                    crate::text::lemma_splittable_at_ascii(name, d as int);
                }
                d
            } else {
                n
            }
        },
        None => n,
    }
}

/// The function that the file at `path` defines, given the components of the file's path below
/// the `data` directory of its datapack: `<namespace>/functions/<path>.<extension>`.
pub fn get_function_name(data_path: &[&str], path: &str) -> (res: Result<ResourceLocation, String>)
    requires
        data_path@.len() > 0 ==> data_path@[0].spec_bytes().len() < usize::MAX,
    ensures
        ({
            let parts = components_model(data_path@);
            if parts.len() >= 2 && parts[1] == "functions".spec_bytes() {
                res matches Ok(r) && r.namespace_bytes() == parts[0] && r.path_bytes()
                    == function_path_of(parts.skip(2))
            } else {
                res matches Err(e) && e@ == "contains an invalid path: "@ + path@
            }
        }),
{
    let ghost parts = components_model(data_path@);
    if data_path.len() < 2 || !crate::text::str_eq(data_path[1], "functions") {
        let mut e = to_string("contains an invalid path: ");
        e.append(path);
        return Err(e);
    }
    let namespace = data_path[0];
    let n = data_path.len();
    let mut fn_path = String::new();
    proof {
        reveal_strlit("/");
        lemma_ascii_char_bytes('/');
        assert("/"@ =~= seq!['/']);
        assert(string_bytes(&fn_path) =~= Seq::<u8>::empty());
    }
    if n > 2 {
        let mut k: usize = 2;
        proof {
            assert(parts.subrange(2, 2) =~= Seq::<Seq<u8>>::empty());
        }
        while k < n - 1
            invariant
                n == data_path@.len(),
                n > 2,
                parts == components_model(data_path@),
                2 <= k <= n - 1,
                string_bytes(&fn_path) == join_slash(parts.subrange(2, k as int)),
                "/"@ == seq!['/'],
            decreases n - k,
        {
            let c = data_path[k];
            let ghost before = fn_path@;
            if k > 2 {
                fn_path.append("/");
            }
            let ghost mid = fn_path@;
            fn_path.append(c);
            proof {
                if k > 2 {
                    lemma_encode_concat(before, "/"@);
                }
                lemma_encode_concat(mid, c@);
                let p = parts.subrange(2, k + 1);
                assert(p.drop_last() =~= parts.subrange(2, k as int));
                assert(parts[k as int] == c.spec_bytes());
                assert(p.last() == parts[k as int]);
                if k == 2 {
                    assert(p.len() == 1);
                    assert(string_bytes(&fn_path) =~= c.spec_bytes());
                } else {
                    lemma_ascii_char_bytes('/');
                    assert(string_bytes(&fn_path) =~= join_slash(p.drop_last()) + seq!['/' as u8]
                        + p.last());
                }
            }
            k = k + 1;
        }
        let c = data_path[n - 1];
        let m = stem_len(c);
        let piece = take_str(c, m);
        let ghost before = fn_path@;
        if n > 3 {
            fn_path.append("/");
        }
        let ghost mid = fn_path@;
        fn_path.append(piece);
        proof {
            if n > 3 {
                lemma_encode_concat(before, "/"@);
            }
            lemma_encode_concat(mid, piece@);
            let rest = parts.skip(2);
            assert(rest.drop_last() =~= parts.subrange(2, n - 1));
            assert(rest.last() == parts[n - 1]);
            let q = rest.drop_last().push(file_stem(rest.last()));
            assert(q.drop_last() =~= rest.drop_last());
        }
    }
    Ok(ResourceLocation::new(namespace, fn_path.as_str()))
}

/// The text of a breakpoint position after its function holds no `+`: a line number, `_` and the
/// name of a place in a line.
proof fn lemma_local_position_no_plus(lp: LocalBreakpointPosition)
    ensures
        !local_position_bytes(lp).contains('+' as u8),
{
    let d = decimal(lp.line_number as nat);
    crate::text::lemma_decimal(lp.line_number as nat);
    reveal_strlit("breakpoint");
    reveal_strlit("after_function");
    crate::text::lemma_ascii_text("breakpoint");
    crate::text::lemma_ascii_text("after_function");
    let name = crate::generator::partition::position_in_line_name(
        crate::generator::partition::breakpoint_position(lp.position_in_line),
    ).spec_bytes();
    let l = local_position_bytes(lp);
    assert forall|i: int| 0 <= i < l.len() implies l[i] != '+' as u8 by {
        if i < d.len() {
            assert(l[i] == d[i]);
            assert(crate::text::is_digit_byte(d[i]));
        } else if i > d.len() {
            assert(l[i] == name[i - d.len() - 1]);
        }
    }
}

/// Reading the text of a breakpoint position whose function has its namespace written out gives
/// back the whole position: a position `q` that parsing returns for that text has the same
/// function text and namespace length, the same line and the same place in the line, when neither
/// the namespace nor the path of the function holds a `+`.
pub proof fn lemma_breakpoint_position_text_roundtrip(p: BreakpointPosition, q: BreakpointPosition)
    requires
        !p.function.namespace_bytes().contains('+' as u8),
        !p.function.path_bytes().contains('+' as u8),
        p.function.written(),
        breakpoint_position_spec(breakpoint_position_bytes(p)) == Some(position_model(q)),
        q.function.written(),
    ensures
        location_model(q.function) == location_model(p.function),
        q.line_number == p.line_number,
        q.position_in_line == p.position_in_line,
{
    lemma_breakpoint_position_roundtrip(p);
    lemma_written_determined(q.function, p.function);
}

/// Reading the text of a breakpoint position gives back its function, line and place in the
/// line, when neither the namespace nor the path of its function holds a `+`.
pub proof fn lemma_breakpoint_position_roundtrip(p: BreakpointPosition)
    requires
        !p.function.namespace_bytes().contains('+' as u8),
        !p.function.path_bytes().contains('+' as u8),
    ensures
        breakpoint_position_spec(breakpoint_position_bytes(p)) == Some(position_model(p)),
{
    let ns = p.function.namespace_bytes();
    let path = p.function.path_bytes();
    let r = replace_spec(path, seq!['/' as u8], seq!['+' as u8]);
    let lp = LocalBreakpointPosition { line_number: p.line_number, position_in_line: p.position_in_line };
    let l = local_position_bytes(lp);
    let b = breakpoint_position_bytes(p);
    let j: int = ns.len() as int + 1 + r.len() as int;
    assert(b =~= ns + seq!['+' as u8] + r + seq!['+' as u8] + l);
    lemma_local_position_no_plus(lp);
    assert(b[j] == '+' as u8);
    assert forall|m: int| j < m < b.len() implies b[m] != '+' as u8 by {
        assert(b[m] == l[m - j - 1]);
    }
    crate::text::lemma_last_byte_at(b, b.len() as int, j, '+' as u8);
    assert(after(b, j + 1) =~= l);
    crate::generator::config::adapter::lemma_local_position_roundtrip(lp);
    let f = b.subrange(0, j);
    assert(f =~= ns + seq!['+' as u8] + r);
    assert forall|m: int| 0 <= m < ns.len() implies f[m] != '+' as u8 by {
        assert(f[m] == ns[m]);
    }
    crate::text::lemma_find_byte_at(f, 0, ns.len() as int, '+' as u8);
    assert(f.subrange(0, ns.len() as int) =~= ns);
    assert(after(f, ns.len() as int + 1) =~= r);
    crate::text::lemma_replace_byte_inverse(path, '/' as u8, '+' as u8);
}

/// Reading the report of a stop at a breakpoint position gives back that position, when neither
/// the namespace nor the path of its function holds a `+`.
pub proof fn lemma_stopped_event_roundtrip(p: BreakpointPosition)
    requires
        !p.function.namespace_bytes().contains('+' as u8),
        !p.function.path_bytes().contains('+' as u8),
    ensures
        stopped_event_spec("stopped+".spec_bytes() + breakpoint_position_bytes(p)) == Some(
            position_model(p),
        ),
{
    let prefix = "stopped+".spec_bytes();
    let b = prefix + breakpoint_position_bytes(p);
    assert(b.subrange(0, prefix.len() as int) =~= prefix);
    assert(after(b, prefix.len() as int) =~= breakpoint_position_bytes(p));
    lemma_breakpoint_position_roundtrip(p);
}

} // verus!

//! Resource locations: namespaced identifiers such as `minecraft:stone` or `my_pack:dir/function`.

use crate::parser::command::argument::brigadier::lemma_ascii_span_splittable;
use crate::entries::{Keyed, Modeled, Ordered};
use crate::sorted::{bytes_lt, lemma_bytes_lt_asymmetric, lemma_bytes_lt_total, lemma_bytes_lt_transitive, str_lt};
use crate::text::{
    after, is_suffix, lemma_after_suffix,
    find_span_end, lemma_ascii_char_bytes, lemma_encode_concat, lemma_span_end, lemma_splittable_after_ascii,
    replace, replace_spec, skip_str, slice_str, span_end, splittable, str_eq, string_bytes,
    take_str, to_string, Text,
};
use vstd::prelude::*;
use vstd::string::*;
use vstd::utf8::*;

verus! {

/// A resource location whose text is held by `S`: a string slice or an owned string.
///
/// The text is either `namespace:path` or, for the default namespace `minecraft`, just `path`.
#[derive(Debug)]
pub struct ResourceLocationRef<S: Text> {
    string: S,
    namespace_len: usize,
}

/// A resource location that owns its text.
pub type ResourceLocation = ResourceLocationRef<String>;

/// Why a text is not a resource location.
#[derive(Clone, Copy, Debug, Eq, PartialEq)]
pub enum InvalidResourceLocation {
    /// The part before the first `:` holds a character not allowed in a namespace.
    InvalidNamespace,
    /// The part after the first `:` holds a character not allowed in a path.
    InvalidPath,
}

/// A character allowed in a namespace.
pub open spec fn namespace_char(c: char) -> bool {
    ('0' <= c <= '9') || ('a' <= c <= 'z') || c == '-' || c == '.' || c == '_'
}

/// A character allowed in a path.
pub open spec fn path_char(c: char) -> bool {
    ('0' <= c <= '9') || ('a' <= c <= 'z') || c == '-' || c == '.' || c == '/' || c == '_'
}

/// A character allowed in the text of a resource location.
pub open spec fn resource_location_char(c: char) -> bool {
    path_char(c) || c == ':'
}

/// The predicate `namespace_char` as a value.
pub open spec fn namespace_pred() -> spec_fn(char) -> bool {
    |c: char| namespace_char(c)
}

/// The predicate `path_char` as a value.
pub open spec fn path_pred() -> spec_fn(char) -> bool {
    |c: char| path_char(c)
}

/// The predicate `resource_location_char` as a value.
pub open spec fn resource_location_pred() -> spec_fn(char) -> bool {
    |c: char| resource_location_char(c)
}

/// Whether `c` may appear in a namespace.
pub fn is_valid_namespace_char(c: char) -> (res: bool)
    ensures
        res == namespace_char(c),
{
    c >= '0' && c <= '9' || c >= 'a' && c <= 'z' || c == '-' || c == '.' || c == '_'
}

/// Whether `c` may appear in a path.
pub fn is_valid_path_char(c: char) -> (res: bool)
    ensures
        res == path_char(c),
{
    c >= '0' && c <= '9' || c >= 'a' && c <= 'z' || c == '-' || c == '.' || c == '/' || c == '_'
}

/// Every byte of `b`, read as a character, satisfies `p`.
pub open spec fn all_chars(b: Seq<u8>, p: spec_fn(char) -> bool) -> bool {
    forall|i: int| 0 <= i < b.len() ==> p(#[trigger] b[i] as char)
}

/// The offset of the first `:` in `b`.
pub open spec fn first_colon(b: Seq<u8>) -> Option<int> {
    if exists|i: int| 0 <= i < b.len() && b[i] == ':' as u8 {
        Some(choose|i: int| 0 <= i < b.len() && b[i] == ':' as u8 && forall|j: int| 0 <= j < i ==> b[j] != ':' as u8)
    } else {
        None
    }
}

/// How `ResourceLocationRef::try_from` judges the text `b`: the length of its namespace
/// (`usize::MAX` when it has none), or why it is invalid.
pub open spec fn try_from_spec(b: Seq<u8>) -> Result<usize, InvalidResourceLocation> {
    match first_colon(b) {
        Some(i) => if !all_chars(b.subrange(0, i), namespace_pred()) {
            Err(InvalidResourceLocation::InvalidNamespace)
        } else if !all_chars(b.subrange(i + 1, b.len() as int), path_pred()) {
            Err(InvalidResourceLocation::InvalidPath)
        } else {
            Ok(i as usize)
        },
        None => if !all_chars(b, path_pred()) {
            Err(InvalidResourceLocation::InvalidPath)
        } else {
            Ok(usize::MAX)
        },
    }
}

impl<S: Text> ResourceLocationRef<S> {
    /// The text has a `:` right after the namespace, when it has a namespace.
    #[verifier::type_invariant]
    spec fn well_formed(self) -> bool {
        let b = self.string.text_bytes();
        self.namespace_len == usize::MAX || (self.namespace_len < b.len() && b[self.namespace_len as int] == ':' as u8)
    }

    /// The bytes of the whole text.
    pub closed spec fn text_of(self) -> Seq<u8> {
        self.string.text_bytes()
    }

    /// The length of the namespace in the text, or `usize::MAX` when the text has none.
    pub closed spec fn namespace_len_of(self) -> usize {
        self.namespace_len
    }

    /// The bytes of the namespace.
    pub open spec fn namespace_bytes(self) -> Seq<u8> {
        if self.namespace_len_of() == usize::MAX {
            "minecraft".spec_bytes()
        } else {
            self.text_of().subrange(0, self.namespace_len_of() as int)
        }
    }

    /// The namespace is written out, followed by `:` and the path.
    pub open spec fn written(self) -> bool {
        &&& self.namespace_len_of() != usize::MAX
        &&& self.namespace_len_of() < self.text_of().len()
        &&& self.text_of() == self.namespace_bytes() + seq![':' as u8] + self.path_bytes()
    }

    /// The bytes of the path.
    pub open spec fn path_bytes(self) -> Seq<u8> {
        if self.namespace_len_of() == usize::MAX {
            self.text_of()
        } else {
            self.text_of().subrange(self.namespace_len_of() + 1, self.text_of().len() as int)
        }
    }

    /// The namespace; `minecraft` when the text names none.
    pub fn namespace(&self) -> (res: &str)
        ensures
            res.spec_bytes() == self.namespace_bytes(),
    {
        proof {
            use_type_invariant(self);
        }
        if self.namespace_len == usize::MAX {
            "minecraft"
        } else {
            take_str(self.string.as_text(), self.namespace_len)
        }
    }

    /// The path.
    pub fn path(&self) -> (res: &str)
        ensures
            res.spec_bytes() == self.path_bytes(),
    {
        proof {
            use_type_invariant(self);
        }
        let s = self.string.as_text();
        if self.namespace_len == usize::MAX {
            s
        } else {
            proof {
                lemma_splittable_after_ascii(s, self.namespace_len + 1);
            }
            skip_str(s, self.namespace_len + 1)
        }
    }

    /// A copy that owns its text.
    pub fn to_owned(&self) -> (res: ResourceLocation)
        ensures
            res.text_of() == self.text_of(),
            res.namespace_len_of() == self.namespace_len_of(),
    {
        proof {
            use_type_invariant(self);
        }
        ResourceLocation { string: to_string(self.string.as_text()), namespace_len: self.namespace_len }
    }

    /// The relative path of the function file: `<namespace>/functions/<path>.mcfunction`, with
    /// `/` replaced by the platform's path separator.
    pub fn mcfunction_path(&self) -> (res: String)
        ensures
            ({
                let p = self.namespace_bytes() + "/functions/".spec_bytes() + self.path_bytes()
                    + ".mcfunction".spec_bytes();
                ||| string_bytes(&res) == replace_spec(p, "/".spec_bytes(), "/".spec_bytes())
                ||| string_bytes(&res) == replace_spec(p, "/".spec_bytes(), "\\".spec_bytes())
            }),
    {
        let ns = self.namespace();
        let path = self.path();
        let mut p = to_string(ns);
        p.append("/functions/");
        p.append(path);
        p.append(".mcfunction");
        let sep = main_separator();
        proof {
            reveal_strlit("/");
            reveal_strlit("\\");
            lemma_text_bytes_concat4(ns@, "/functions/"@, path@, ".mcfunction"@);
            lemma_ascii_char_bytes('/');
            assert("/"@ =~= seq!['/']);
            if sep@ == "/"@ {
                assert(sep.spec_bytes() == "/".spec_bytes());
            } else {
                assert(sep.spec_bytes() == "\\".spec_bytes());
            }
        }
        replace(p.as_str(), "/", sep)
    }
}

/// The concatenation of four texts has the concatenation of their encodings as bytes.
proof fn lemma_text_bytes_concat4(a: Seq<char>, b: Seq<char>, c: Seq<char>, d: Seq<char>)
    ensures
        encode_utf8(a + b + c + d) == encode_utf8(a) + encode_utf8(b) + encode_utf8(c)
            + encode_utf8(d),
{
    lemma_encode_concat(a, b);
    lemma_encode_concat(a + b, c);
    lemma_encode_concat(a + b + c, d);
}

/// The separator of path components on this platform (`std::path::MAIN_SEPARATOR_STR`): `/` on
/// Unix and `\` on Windows. Which of the two it is depends on the platform the library is built
/// for, so the contract states only that it is one of them.
#[verifier::external_body]
fn main_separator() -> (res: &'static str)
    ensures
        res@ == "/"@ || res@ == "\\"@,
{
    std::path::MAIN_SEPARATOR_STR
}

impl ResourceLocationRef<String> {
    /// The resource location `namespace:path`.
    pub fn new(namespace: &str, path: &str) -> (res: ResourceLocation)
        requires
            namespace.spec_bytes().len() < usize::MAX,
        ensures
            res.namespace_bytes() == namespace.spec_bytes(),
            res.path_bytes() == path.spec_bytes(),
            res.namespace_len_of() != usize::MAX,
            res.text_of() == namespace.spec_bytes() + seq![':' as u8] + path.spec_bytes(),
            res.written(),
    {
        let n = namespace.as_bytes().len();
        let mut string = to_string(namespace);
        string.append(":");
        string.append(path);
        proof {
            reveal_strlit(":");
            lemma_ascii_char_bytes(':');
            assert(":"@ =~= seq![':']);
            lemma_text_bytes_concat3(namespace@, ":"@, path@);
            encode_utf8_decode_utf8(namespace@);
            let b = string_bytes(&string);
            assert(b[n as int] == ':' as u8);
            assert(b.subrange(0, n as int) =~= namespace.spec_bytes());
            assert(b.subrange(n + 1, b.len() as int) =~= path.spec_bytes());
        }
        ResourceLocation { string, namespace_len: n }
    }

    /// A resource location that borrows the text of this one.
    pub fn to_ref(&self) -> (res: ResourceLocationRef<&str>)
        ensures
            res.text_of() == self.text_of(),
            res.namespace_len_of() == self.namespace_len_of(),
    {
        proof {
            use_type_invariant(self);
        }
        ResourceLocationRef { string: self.string.as_str(), namespace_len: self.namespace_len }
    }
}

/// The concatenation of three texts has the concatenation of their encodings as bytes.
proof fn lemma_text_bytes_concat3(a: Seq<char>, b: Seq<char>, c: Seq<char>)
    ensures
        encode_utf8(a + b + c) == encode_utf8(a) + encode_utf8(b) + encode_utf8(c),
{
    lemma_encode_concat(a, b);
    lemma_encode_concat(a + b, c);
}

/// Whether every character of `s` satisfies `f`.
fn all_satisfy(s: &[u8], start: usize, end: usize, f: impl Fn(char) -> bool, Ghost(p): Ghost<spec_fn(char) -> bool>) -> (res: bool)
    requires
        start <= end <= s@.len(),
        forall|c: char| f.requires((c,)),
        forall|c: char, r: bool| f.ensures((c,), r) ==> r == p(c),
    ensures
        res == all_chars(s@.subrange(start as int, end as int), p),
{
    let mut i: usize = start;
    while i < end
        invariant
            start <= i <= end <= s@.len(),
            forall|c: char| f.requires((c,)),
            forall|c: char, r: bool| f.ensures((c,), r) ==> r == p(c),
            forall|j: int| start <= j < i ==> p(#[trigger] s@[j] as char),
        decreases end - i,
    {
        if !f(s[i] as char) {
            proof {
                assert(s@.subrange(start as int, end as int)[i - start] == s@[i as int]);
            }
            return false;
        }
        i = i + 1;
    }
    proof {
        assert forall|j: int| 0 <= j < end - start implies p(#[trigger] s@.subrange(start as int, end as int)[j] as char) by {
            assert(s@.subrange(start as int, end as int)[j] == s@[start + j]);
        }
    }
    true
}

impl<'l> ResourceLocationRef<&'l str> {
    /// The resource location that `string` spells, split at its first `:`.
    pub fn try_from(string: &'l str) -> (res: Result<Self, InvalidResourceLocation>)
        ensures
            match try_from_spec(string.spec_bytes()) {
                Ok(n) => res matches Ok(r) && r.text_of() == string.spec_bytes()
                    && r.namespace_len_of() == n,
                Err(e) => res == Err::<Self, InvalidResourceLocation>(e),
            },
    {
        let b = string.as_bytes();
        let ghost bs = b@;
        let n = b.len();
        let mut i: usize = 0;
        while i < n && b[i] != ':' as u8
            invariant
                bs == b@,
                n == bs.len(),
                i <= n,
                forall|j: int| 0 <= j < i ==> bs[j] != ':' as u8,
            decreases n - i,
        {
            i = i + 1;
        }
        if i < n {
            proof {
                assert(first_colon(bs) == Some(i as int)) by {
                    let k = choose|k: int| 0 <= k < bs.len() && bs[k] == ':' as u8 && forall|j: int| 0 <= j < k ==> bs[j] != ':' as u8;
                    assert(bs[i as int] == ':' as u8);
                    if k < i {
                    } else if k > i {
                    }
                }
            }
            if !all_satisfy(b, 0, i, is_valid_namespace_char, Ghost(namespace_pred())) {
                return Err(InvalidResourceLocation::InvalidNamespace);
            }
            if !all_satisfy(b, i + 1, n, is_valid_path_char, Ghost(path_pred())) {
                return Err(InvalidResourceLocation::InvalidPath);
            }
            Ok(ResourceLocationRef { string, namespace_len: i })
        } else {
            proof {
                assert(first_colon(bs) is None);
                assert(bs.subrange(0, n as int) =~= bs);
            }
            if !all_satisfy(b, 0, n, is_valid_path_char, Ghost(path_pred())) {
                return Err(InvalidResourceLocation::InvalidPath);
            }
            Ok(ResourceLocationRef { string, namespace_len: usize::MAX })
        }
    }

    /// The resource location at the start of `string` and its length in bytes.
    pub fn parse(string: &'l str) -> (res: Result<(Self, usize), String>)
        ensures
            ({
                let b = string.spec_bytes();
                let n = span_end(b, 0, resource_location_pred());
                match try_from_spec(b.subrange(0, n)) {
                    Ok(k) => res matches Ok((r, m)) && m == n && r.text_of() == b.subrange(0, n)
                        && r.namespace_len_of() == k,
                    Err(_) => res matches Err(e) && e@ == "Invalid ID"@,
                }
            }),
    {
        let b = string.as_bytes();
        let len = find_span_end(b, 0, Self::is_allowed_in_resource_location, Ghost(resource_location_pred()));
        proof {
            lemma_span_end(b@, 0, resource_location_pred());
            lemma_ascii_span_splittable(string, len as int, resource_location_pred());
        }
        let text = take_str(string, len);
        match Self::try_from(text) {
            Ok(r) => Ok((r, len)),
            Err(_) => Err(String::from_str("Invalid ID")),
        }
    }

    /// Whether `c` may appear in the text of a resource location.
    fn is_allowed_in_resource_location(c: char) -> (res: bool)
        ensures
            res == resource_location_char(c),
    {
        return c >= '0' && c <= '9' || c >= 'a' && c <= 'z' || c == '-' || c == '.' || c == '/'
            || c == ':' || c == '_';
    }
}

impl<S: Text> PartialEq for ResourceLocationRef<S> {
    fn eq(&self, other: &Self) -> (res: bool) {
        str_eq(self.namespace(), other.namespace()) && str_eq(self.path(), other.path())
    }
}

impl<S: Text> vstd::std_specs::cmp::PartialEqSpecImpl for ResourceLocationRef<S> {
    open spec fn obeys_eq_spec() -> bool {
        true
    }

    open spec fn eq_spec(&self, other: &Self) -> bool {
        self.namespace_bytes() == other.namespace_bytes() && self.path_bytes() == other.path_bytes()
    }
}

impl<S: Text> Eq for ResourceLocationRef<S> {}

impl<S: Text> Clone for ResourceLocationRef<S> {
    fn clone(&self) -> (res: Self)
        ensures
            res.text_of() == self.text_of(),
            res.namespace_len_of() == self.namespace_len_of(),
    {
        proof {
            use_type_invariant(self);
        }
        ResourceLocationRef { string: self.string.copy_text(), namespace_len: self.namespace_len }
    }
}

impl<S: Text> ResourceLocationRef<S> {
    /// The text of the resource location, as written.
    pub fn to_string(&self) -> (res: String)
        ensures
            string_bytes(&res) == self.text_of(),
    {
        to_string(self.string.as_text())
    }
}

/// A resource location at the start of `b`, as `ResourceLocationRef::parse` reads it: its text,
/// the length of its namespace (`usize::MAX` when none is written) and what follows it.
pub open spec fn resource_location_spec(b: Seq<u8>) -> Result<(Seq<u8>, usize, Seq<u8>), Seq<char>> {
    let n = span_end(b, 0, resource_location_pred());
    match try_from_spec(b.subrange(0, n)) {
        Ok(k) => Ok((b.subrange(0, n), k, after(b, n))),
        Err(_) => Err("Invalid ID"@),
    }
}

impl<'l> ResourceLocationRef<&'l str> {
    /// The resource location at the start of `string`, and the rest of `string`.
    pub fn parse_prefix(string: &'l str) -> (res: Result<(Self, &'l str), String>)
        ensures
            match resource_location_spec(string.spec_bytes()) {
                Ok((t, k, r)) => res matches Ok((x, y)) && x.text_of() == t && x.namespace_len_of()
                    == k && y.spec_bytes() == r && is_suffix(r, string.spec_bytes()),
                Err(m) => res matches Err(e) && e@ == m,
            },
    {
        let _ = string.as_bytes().len();
        proof {
            lemma_span_end(string.spec_bytes(), 0, resource_location_pred());
        }
        match Self::parse(string) {
            Ok((r, len)) => {
                proof {
                    lemma_ascii_span_splittable(string, len as int, resource_location_pred());
                    lemma_after_suffix(string.spec_bytes(), len as int);
                }
                Ok((r, skip_str(string, len)))
            },
            Err(e) => Err(e),
        }
    }
}

/// The text of a resource location and the length of its namespace.
pub open spec fn location_model<S: Text>(r: ResourceLocationRef<S>) -> (Seq<u8>, usize) {
    (r.text_of(), r.namespace_len_of())
}

impl<S: Text> Modeled for ResourceLocationRef<S> {
    type M = (Seq<u8>, Seq<u8>);

    open spec fn model_of(&self) -> (Seq<u8>, Seq<u8>) {
        (self.namespace_bytes(), self.path_bytes())
    }
}

impl<S: Text> Keyed for ResourceLocationRef<S> {
    fn same(&self, other: &Self) -> (res: bool) {
        str_eq(self.namespace(), other.namespace()) && str_eq(self.path(), other.path())
    }
}

/// Resource locations in order: by namespace, then by path, each in byte order.
pub open spec fn location_lt(a: (Seq<u8>, Seq<u8>), b: (Seq<u8>, Seq<u8>)) -> bool {
    bytes_lt(a.0, b.0) || (a.0 == b.0 && bytes_lt(a.1, b.1))
}

/// The order of resource locations is a strict order: no location comes before itself, and a
/// location that comes before a second one comes before every location that the second comes
/// before.
pub proof fn lemma_location_lt_strict(a: (Seq<u8>, Seq<u8>), b: (Seq<u8>, Seq<u8>), c: (Seq<u8>, Seq<u8>))
    ensures
        !location_lt(a, a),
        location_lt(a, b) && location_lt(b, c) ==> location_lt(a, c),
{
    lemma_bytes_lt_asymmetric(a.0, a.0);
    lemma_bytes_lt_asymmetric(a.1, a.1);
    if location_lt(a, b) && location_lt(b, c) {
        if bytes_lt(a.0, b.0) && bytes_lt(b.0, c.0) {
            lemma_bytes_lt_transitive(a.0, b.0, c.0);
        } else if a.0 == b.0 && b.0 == c.0 {
            lemma_bytes_lt_transitive(a.1, b.1, c.1);
        }
    }
}

impl<S: Text> ResourceLocationRef<S> {
    /// Whether this location comes before `other`: by namespace, then by path.
    pub fn precedes(&self, other: &Self) -> (res: bool)
        ensures
            res == location_lt(self.model_of(), other.model_of()),
    {
        let a = self.namespace();
        let b = other.namespace();
        if str_lt(a, b) {
            true
        } else if str_eq(a, b) {
            str_lt(self.path(), other.path())
        } else {
            false
        }
    }
}

/// Two resource locations whose namespaces are written out, with the same namespace and path,
/// have the same text and the same namespace length.
pub proof fn lemma_written_determined<S: Text, T: Text>(a: ResourceLocationRef<S>, b: ResourceLocationRef<T>)
    requires
        a.written(),
        b.written(),
        a.namespace_bytes() == b.namespace_bytes(),
        a.path_bytes() == b.path_bytes(),
    ensures
        a.text_of() == b.text_of(),
        a.namespace_len_of() == b.namespace_len_of(),
{
    assert(a.namespace_bytes().len() == a.namespace_len_of());
    assert(b.namespace_bytes().len() == b.namespace_len_of());
}

impl<S: Text> Ordered for ResourceLocationRef<S> {
    open spec fn order() -> spec_fn((Seq<u8>, Seq<u8>), (Seq<u8>, Seq<u8>)) -> bool {
        |a: (Seq<u8>, Seq<u8>), b: (Seq<u8>, Seq<u8>)| location_lt(a, b)
    }

    proof fn lemma_order(a: (Seq<u8>, Seq<u8>), b: (Seq<u8>, Seq<u8>), c: (Seq<u8>, Seq<u8>)) {
        lemma_location_lt_strict(a, b, c);
        if a != b {
            if a.0 != b.0 {
                lemma_bytes_lt_total(a.0, b.0);
            } else {
                lemma_bytes_lt_total(a.1, b.1);
            }
        }
    }

    fn precedes(&self, other: &Self) -> (res: bool) {
        ResourceLocationRef::precedes(self, other)
    }
}

} // verus!

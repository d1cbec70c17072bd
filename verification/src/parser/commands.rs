//! Namespaced names such as `my_pack:dir/function`, split at their first `:`.

use crate::text::{
    find_ascii, find_byte_from, lemma_ascii_char_bytes, lemma_encode_concat, lemma_find_byte,
    lemma_find_byte_at,
    lemma_splittable_after_ascii, skip_str, str_eq, string_bytes, take_str, to_string, Text,
};
use vstd::prelude::*;
use vstd::string::*;
use vstd::utf8::*;

verus! {

/// A name in a namespace, whose text `namespace:name` is held by `S`.
#[derive(Debug)]
pub struct NamespacedNameRef<S: Text> {
    string: S,
    namespace_len: usize,
}

/// A namespaced name that owns its text.
pub type NamespacedName = NamespacedNameRef<String>;

impl<S: Text> NamespacedNameRef<S> {
    /// The text has a `:` right after the namespace.
    #[verifier::type_invariant]
    spec fn well_formed(self) -> bool {
        let b = self.string.text_bytes();
        self.namespace_len < b.len() && b[self.namespace_len as int] == ':' as u8
    }

    /// The bytes of the whole text.
    pub closed spec fn text_of(self) -> Seq<u8> {
        self.string.text_bytes()
    }

    /// The length of the namespace in the text.
    pub closed spec fn namespace_len_of(self) -> usize {
        self.namespace_len
    }

    /// The bytes of the namespace: the text before the `:` that ends it.
    pub open spec fn namespace_bytes(self) -> Seq<u8> {
        self.text_of().subrange(0, self.namespace_len_of() as int)
    }

    /// The bytes of the name: the text after the `:` that ends the namespace.
    pub open spec fn name_bytes(self) -> Seq<u8> {
        self.text_of().subrange(self.namespace_len_of() + 1, self.text_of().len() as int)
    }

    /// The namespaced name with the text `string`, split at its first `:`; `None` when it has
    /// none.
    pub fn from(string: S) -> (res: Option<NamespacedNameRef<S>>)
        ensures
            ({
                let b = string.text_bytes();
                let i = find_byte_from(b, 0, ':' as u8);
                if i < b.len() {
                    res matches Some(n) && n.text_of() == b && n.namespace_len_of() == i
                } else {
                    res is None
                }
            }),
    {
        let i = find_ascii(string.as_text(), ':');
        if i >= string.as_text().as_bytes().len() {
            return None;
        }
        proof {
            lemma_find_byte(string.text_bytes(), 0, ':' as u8);
        }
        Some(NamespacedNameRef { string, namespace_len: i })
    }

    /// The namespace.
    pub fn namespace(&self) -> (res: &str)
        ensures
            res.spec_bytes() == self.namespace_bytes(),
    {
        proof {
            use_type_invariant(self);
        }
        let s = self.string.as_text();
        proof {
            lemma_namespace_boundary(s, self.namespace_len as int);
        }
        take_str(s, self.namespace_len)
    }

    /// The name within the namespace.
    pub fn name(&self) -> (res: &str)
        ensures
            res.spec_bytes() == self.name_bytes(),
    {
        proof {
            use_type_invariant(self);
        }
        let s = self.string.as_text();
        let _ = s.as_bytes().len();
        proof {
            lemma_splittable_after_ascii(s, self.namespace_len + 1);
        }
        skip_str(s, self.namespace_len + 1)
    }

    /// A copy that owns its text.
    pub fn to_owned(&self) -> (res: NamespacedName)
        ensures
            res.text_of() == self.text_of(),
            res.namespace_len_of() == self.namespace_len_of(),
    {
        proof {
            use_type_invariant(self);
        }
        NamespacedNameRef { string: to_string(self.string.as_text()), namespace_len: self.namespace_len }
    }

    /// The text `namespace:name`.
    pub fn to_string(&self) -> (res: String)
        ensures
            string_bytes(&res) == self.text_of(),
    {
        to_string(self.string.as_text())
    }
}

/// A string slice may be split right before an ASCII character.
proof fn lemma_namespace_boundary(s: &str, i: int)
    requires
        0 <= i < s.spec_bytes().len(),
        s.spec_bytes()[i] == ':' as u8,
    ensures
        crate::text::splittable(s.spec_bytes(), i),
{
    encode_utf8_valid_utf8(s@);
    assert(!is_continuation_byte(s.spec_bytes()[i]));
}

impl NamespacedNameRef<String> {
    /// The namespaced name `namespace:name`.
    pub fn new(namespace: &str, name: &str) -> (res: NamespacedName)
        ensures
            res.namespace_bytes() == namespace.spec_bytes(),
            res.name_bytes() == name.spec_bytes(),
            res.text_of() == namespace.spec_bytes() + seq![':' as u8] + name.spec_bytes(),
            res.namespace_len_of() == namespace.spec_bytes().len(),
    {
        let n = namespace.as_bytes().len();
        let mut string = to_string(namespace);
        string.append(":");
        string.append(name);
        proof {
            reveal_strlit(":");
            lemma_ascii_char_bytes(':');
            assert(":"@ =~= seq![':']);
            lemma_encode_concat(namespace@, ":"@);
            lemma_encode_concat(namespace@ + ":"@, name@);
            let b = string_bytes(&string);
            assert(b =~= namespace.spec_bytes() + seq![':' as u8] + name.spec_bytes());
            assert(b[n as int] == ':' as u8);
            assert(b.subrange(0, n as int) =~= namespace.spec_bytes());
            assert(b.subrange(n + 1, b.len() as int) =~= name.spec_bytes());
        }
        NamespacedNameRef { string, namespace_len: n }
    }
}

impl<S: Text> Clone for NamespacedNameRef<S> {
    fn clone(&self) -> (res: Self)
        ensures
            res.text_of() == self.text_of(),
            res.namespace_len_of() == self.namespace_len_of(),
    {
        proof {
            use_type_invariant(self);
        }
        NamespacedNameRef { string: self.string.copy_text(), namespace_len: self.namespace_len }
    }
}

impl<S: Text> PartialEq for NamespacedNameRef<S> {
    fn eq(&self, other: &Self) -> (res: bool) {
        str_eq(self.string.as_text(), other.string.as_text()) && self.namespace_len
            == other.namespace_len
    }
}

impl<S: Text> vstd::std_specs::cmp::PartialEqSpecImpl for NamespacedNameRef<S> {
    open spec fn obeys_eq_spec() -> bool {
        true
    }

    open spec fn eq_spec(&self, other: &Self) -> bool {
        self.text_of() == other.text_of() && self.namespace_len_of() == other.namespace_len_of()
    }
}

impl<S: Text> Eq for NamespacedNameRef<S> {}

/// Writing a namespaced name whose namespace holds no `:` as text and reading that text back
/// gives the same name: a name `m` that `from` returns for the text of `n` has the text and the
/// namespace length of `n`.
pub proof fn lemma_namespaced_name_roundtrip<S: Text, T: Text>(n: NamespacedNameRef<S>, m: NamespacedNameRef<T>)
    requires
        n.namespace_len_of() < n.text_of().len(),
        n.text_of()[n.namespace_len_of() as int] == ':' as u8,
        !n.namespace_bytes().contains(':' as u8),
        m.text_of() == n.text_of(),
        m.namespace_len_of() == find_byte_from(n.text_of(), 0, ':' as u8),
    ensures
        m.text_of() == n.text_of(),
        m.namespace_len_of() == n.namespace_len_of(),
{
    let b = n.text_of();
    let k = n.namespace_len_of() as int;
    assert forall|i: int| 0 <= i < k implies b[i] != ':' as u8 by {
        assert(n.namespace_bytes()[i] == b[i]);
    }
    lemma_find_byte_at(b, 0, k, ':' as u8);
}

} // verus!

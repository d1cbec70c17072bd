//! NBT data as it is written in commands (compound tags, lists and strings) and NBT paths.

use crate::parser::command::argument::brigadier::{
    expect_ascii, expect_message, integer_spec, parse_integer_prefix, parse_possibly_quoted_string,
    parse_quoted_string, parse_unquoted_string, possibly_quoted_spec, quote_char, unclosed_message,
    unquoted_len, lemma_first_unescaped, first_unescaped, unquoted_pred,
};
use crate::entries::{keys_increasing, lemma_put_in_order_at, put_in_order};
use crate::text::{
    after, byte_len, find_span_end, is_suffix, lemma_after_suffix, lemma_ascii_char_bytes,
    lemma_span_end, lemma_splittable_after_ascii, lemma_suffix_trans, skip_suffix, span_end,
    splittable, starts_with_ascii, str_eq, string_bytes, strip_ascii, strip_byte, take_str, to_string,
    trim, trimmed,
};
use vstd::prelude::*;
use vstd::string::*;

verus! {

/// An NBT value as a command writes it: a string, a list or a compound. Numbers are kept as the
/// strings they are written as.
#[derive(Debug, PartialEq)]
pub enum NbtValue {
    /// A string, quoted or not.
    String(String),
    /// A list of values.
    List(Vec<NbtValue>),
    /// A compound.
    Compound(CompoundNbt),
}

/// An NBT compound: its entries in the byte order of their keys, each key once, so that two
/// compounds with the same entries are equal.
#[derive(Debug, PartialEq)]
pub struct CompoundNbt(pub Vec<(String, NbtValue)>);

/// The mathematical value of an NBT value; strings are their UTF-8 bytes.
pub enum NbtModel {
    Str(Seq<u8>),
    List(Seq<NbtModel>),
    Compound(Seq<(Seq<u8>, NbtModel)>),
}

impl NbtValue {
    /// The value of this NBT value.
    pub open spec fn model(&self) -> NbtModel
        decreases self,
    {
        match self {
            NbtValue::String(s) => NbtModel::Str(string_bytes(s)),
            NbtValue::List(v) => NbtModel::List(
                Seq::new(
                    v@.len(),
                    |i: int|
                        if 0 <= i < v@.len() {
                            v@[i].model()
                        } else {
                            NbtModel::Str(seq![])
                        },
                ),
            ),
            NbtValue::Compound(c) => NbtModel::Compound(
                Seq::new(
                    c.0@.len(),
                    |i: int|
                        if 0 <= i < c.0@.len() {
                            (string_bytes(&c.0@[i].0), c.0@[i].1.model())
                        } else {
                            (seq![], NbtModel::Str(seq![]))
                        },
                ),
            ),
        }
    }
}

/// The values of a sequence of NBT values.
pub open spec fn list_model(v: Seq<NbtValue>) -> Seq<NbtModel> {
    Seq::new(v.len(), |i: int| v[i].model())
}

/// The entries of a compound as keys and values.
pub open spec fn entries_model(e: Seq<(String, NbtValue)>) -> Seq<(Seq<u8>, NbtModel)> {
    Seq::new(e.len(), |i: int| (string_bytes(&e[i].0), e[i].1.model()))
}

impl CompoundNbt {
    /// The entries of this compound.
    pub open spec fn model(&self) -> Seq<(Seq<u8>, NbtModel)> {
        entries_model(self.0@)
    }
}

/// No key occurs twice among the entries.
pub open spec fn keys_distinct(e: Seq<(Seq<u8>, NbtModel)>) -> bool {
    forall|i: int, j: int| 0 <= i < e.len() && 0 <= j < e.len() && i != j ==> e[i].0 != e[j].0
}

/// Keys in byte order.
pub open spec fn key_order() -> spec_fn(Seq<u8>, Seq<u8>) -> bool {
    |a: Seq<u8>, b: Seq<u8>| crate::sorted::bytes_lt(a, b)
}

/// The entries, ordered by their keys, after setting `k` to `v`: an existing entry for `k` takes
/// the new value, otherwise the new entry takes its place in the order of keys.
pub open spec fn compound_insert(e: Seq<(Seq<u8>, NbtModel)>, k: Seq<u8>, v: NbtModel) -> Seq<
    (Seq<u8>, NbtModel),
> {
    put_in_order(e, k, v, key_order())
}

/// The message for a missing value.
pub open spec fn expected_value_message() -> Seq<char> {
    "Expected value"@
}

/// The message for a missing key.
pub open spec fn expected_key_message() -> Seq<char> {
    "Expected key"@
}

/// The message for an array with an invalid type.
pub open spec fn invalid_array_message() -> Seq<char> {
    "Invalid array type '['"@
}

/// The NBT value at the start of `t` and what follows it.
pub open spec fn value_spec(t: Seq<u8>) -> Result<(NbtModel, Seq<u8>), Seq<char>>
    decreases t.len(), 2int,
{
    if t.len() == 0 {
        Err(expected_value_message())
    } else if t[0] == '{' as u8 {
        match compound_spec(t) {
            Ok((e, r)) => Ok((NbtModel::Compound(e), r)),
            Err(m) => Err(m),
        }
    } else if t[0] == '[' as u8 {
        array_or_list_spec(t)
    } else if quote_char(t[0] as char) {
        let body = after(t, 1);
        match first_unescaped(body, 0, seq![t[0]]) {
            Some(i) => Ok((NbtModel::Str(body.subrange(0, i)), after(t, i + 2))),
            None => Err(unclosed_message()),
        }
    } else {
        let n = unquoted_len(t);
        Ok((NbtModel::Str(t.subrange(0, n)), after(t, n)))
    }
}

/// A list at the start of `t`; a typed array is refused, since the type that is read is always
/// the opening bracket.
pub open spec fn array_or_list_spec(t: Seq<u8>) -> Result<(NbtModel, Seq<u8>), Seq<char>>
    decreases t.len(), 1int,
{
    if t.len() >= 2 && t[0] == '[' as u8 && t[1] == ';' as u8 {
        Err(invalid_array_message())
    } else {
        match list_spec(t) {
            Ok((l, r)) => Ok((NbtModel::List(l), r)),
            Err(m) => Err(m),
        }
    }
}

/// The list at the start of `t` and what follows it.
pub open spec fn list_spec(t: Seq<u8>) -> Result<(Seq<NbtModel>, Seq<u8>), Seq<char>>
    decreases t.len(), 0int,
{
    match strip_byte(t, '[' as u8) {
        None => Err(expect_message('[')),
        Some(r) => match items_spec(trimmed(r), seq![]) {
            Err(m) => Err(m),
            Ok((items, r2)) => match strip_byte(r2, ']' as u8) {
                None => Err(expect_message(']')),
                Some(r3) => Ok((items, r3)),
            },
        },
    }
}

/// The elements of a list from `t` on, after the elements `acc`, and where they end.
pub open spec fn items_spec(t: Seq<u8>, acc: Seq<NbtModel>) -> Result<
    (Seq<NbtModel>, Seq<u8>),
    Seq<char>,
>
    decreases t.len(), 3int,
{
    if t.len() > 0 && t[0] == ']' as u8 {
        Ok((acc, t))
    } else {
        match value_spec(t) {
            Err(m) => Err(m),
            Ok((v, r1)) => {
                let r2 = trimmed(r1);
                let acc2 = acc.push(v);
                match strip_byte(r2, ',' as u8) {
                    None => Ok((acc2, r2)),
                    Some(r3) => {
                        let r4 = trimmed(r3);
                        if r4.len() == 0 || r4.len() >= t.len() {
                            Err(expected_value_message())
                        } else {
                            items_spec(r4, acc2)
                        }
                    },
                }
            },
        }
    }
}

/// The compound at the start of `t` and what follows it.
pub open spec fn compound_spec(t: Seq<u8>) -> Result<(Seq<(Seq<u8>, NbtModel)>, Seq<u8>), Seq<char>>
    decreases t.len(), 0int,
{
    match strip_byte(t, '{' as u8) {
        None => Err(expect_message('{')),
        Some(r) => {
            let s = trimmed(r);
            let entries = if s.len() == 0 {
                Ok((seq![], s))
            } else {
                entries_spec(s, seq![])
            };
            match entries {
                Err(m) => Err(m),
                Ok((e, r2)) => match strip_byte(r2, '}' as u8) {
                    None => Err(expect_message('}')),
                    Some(r3) => Ok((e, r3)),
                },
            }
        },
    }
}

/// The key of a compound entry at the start of `t` and what follows it.
pub open spec fn key_spec(t: Seq<u8>) -> Result<(Seq<u8>, Seq<u8>), Seq<char>> {
    match possibly_quoted_spec(t) {
        None => Err(unclosed_message()),
        Some((start, end, n)) => if start == end {
            Err(expected_key_message())
        } else {
            Ok((t.subrange(start, end), after(t, n)))
        },
    }
}

/// The entries of a compound from `t` on, after the entries `acc`, and where they end.
pub open spec fn entries_spec(t: Seq<u8>, acc: Seq<(Seq<u8>, NbtModel)>) -> Result<
    (Seq<(Seq<u8>, NbtModel)>, Seq<u8>),
    Seq<char>,
>
    decreases t.len(), 3int,
{
    if t.len() > 0 && t[0] == '}' as u8 {
        Ok((acc, t))
    } else {
        match key_spec(t) {
            Err(m) => Err(m),
            Ok((k, r1)) => match strip_byte(trimmed(r1), ':' as u8) {
                None => Err(expect_message(':')),
                Some(r3) => {
                    let r4 = trimmed(r3);
                    if r4.len() >= t.len() {
                        Err(expected_key_message())
                    } else {
                        match value_spec(r4) {
                            Err(m) => Err(m),
                            Ok((v, r5)) => {
                                let r6 = trimmed(r5);
                                let acc2 = compound_insert(acc, k, v);
                                match strip_byte(r6, ',' as u8) {
                                    None => Ok((acc2, r6)),
                                    Some(r7) => {
                                        let r8 = trimmed(r7);
                                        if r8.len() == 0 || r8.len() >= t.len() {
                                            Err(expected_key_message())
                                        } else {
                                            entries_spec(r8, acc2)
                                        }
                                    },
                                }
                            },
                        }
                    }
                },
            },
        }
    }
}

/// The key of a compound entry at the start of `string`, and the rest of `string`.
fn parse_key(string: &str) -> (res: Result<(String, &str), String>)
    ensures
        match key_spec(string.spec_bytes()) {
            Ok((k, r)) => res matches Ok((x, y)) && string_bytes(&x) == k && y.spec_bytes() == r
                && is_suffix(r, string.spec_bytes()) && r.len() < string.spec_bytes().len(),
            Err(m) => res matches Err(e) && e@ == m,
        },
{
    let n = byte_len(string);
    match parse_possibly_quoted_string(string) {
        Err(e) => Err(e),
        Ok((key, len)) => {
            proof {
                let b = string.spec_bytes();
                lemma_span_end(b, 0, unquoted_pred());
                if b.len() > 0 && quote_char(b[0] as char) {
                    lemma_first_unescaped(after(b, 1), 0, seq![b[0]]);
                }
            }
            if byte_len(key) == 0 {
                Err(String::from_str("Expected key"))
            } else {
                proof {
                    let b = string.spec_bytes();
                    if len < n {
                        if b.len() > 0 && quote_char(b[0] as char) {
                            assert(b[len - 1] == b[0]) by {
                                let body = after(b, 1);
                                let i = len - 2;
                                lemma_first_unescaped(body, 0, seq![b[0]]);
                                assert(body.subrange(i as int, i + 1)[0] == body[i as int]);
                            }
                            assert((b[0] as char) as u32 == b[0]);
                        } else {
                            assert(unquoted_pred()(b[len - 1] as char));
                            assert((b[len - 1] as char) as u32 == b[len - 1]);
                        }
                        lemma_splittable_after_ascii(string, len as int);
                    }
                }
                let rest = skip_suffix(string, len);
                Ok((to_string(key), rest))
            }
        },
    }
}

/// Sets the entry for `key` to `value`, keeping the entries in the order of their keys.
fn insert_entry(entries: &mut Vec<(String, NbtValue)>, key: String, value: NbtValue)
    requires
        keys_increasing(entries_model(old(entries)@), key_order()),
    ensures
        keys_increasing(entries_model(final(entries)@), key_order()),
        keys_distinct(entries_model(final(entries)@)),
        entries_model(final(entries)@) == compound_insert(
            entries_model(old(entries)@),
            string_bytes(&key),
            value.model(),
        ),
{
    let ghost e = entries_model(entries@);
    let ghost k = string_bytes(&key);
    let ghost lt = key_order();
    let mut i: usize = 0;
    while i < entries.len() && crate::sorted::str_lt(entries[i].0.as_str(), key.as_str())
        invariant
            e == entries_model(entries@),
            e == entries_model(old(entries)@),
            keys_increasing(e, lt),
            lt == key_order(),
            k == string_bytes(&key),
            i <= entries@.len(),
            forall|j: int| 0 <= j < i ==> lt(#[trigger] e[j].0, k) && e[j].0 != k,
        decreases entries@.len() - i,
    {
        proof {
            crate::sorted::lemma_bytes_lt_asymmetric(k, k);
        }
        i = i + 1;
    }
    proof {
        lemma_put_in_order_at(e, k, value.model(), lt, i as int);
    }
    let ghost vm = value.model();
    if i < entries.len() && str_eq(entries[i].0.as_str(), key.as_str()) {
        entries.set(i, (key, value));
        proof {
            assert(entries_model(entries@) =~= e.update(i as int, (k, vm)));
        }
    } else {
        proof {
            if i < e.len() {
                crate::sorted::lemma_bytes_lt_total(e[i as int].0, k);
                assert(lt(k, e[i as int].0));
            }
        }
        entries.insert(i, (key, value));
        proof {
            assert(entries_model(entries@) =~= e.insert(i as int, (k, vm)));
        }
    }
    proof {
        let n = entries_model(entries@);
        assert forall|a: int, b: int| 0 <= a < b < n.len() implies lt(#[trigger] n[a].0, #[trigger] n[b].0) by {
            if n.len() == e.len() {
                assert(lt(e[a].0, e[b].0));
            } else {
                if b < i {
                    assert(lt(e[a].0, e[b].0));
                } else if b == i {
                } else if a < i {
                    if b - 1 > i {
                        crate::sorted::lemma_bytes_lt_transitive(k, e[i as int].0, e[b - 1].0);
                    }
                    assert(crate::sorted::bytes_lt(k, n[b].0));
                    assert(crate::sorted::bytes_lt(n[a].0, k));
                    crate::sorted::lemma_bytes_lt_transitive(n[a].0, k, n[b].0);
                } else if a == i {
                    if b - 1 > i {
                        crate::sorted::lemma_bytes_lt_transitive(k, e[i as int].0, e[b - 1].0);
                    }
                } else {
                    assert(lt(e[a - 1].0, e[b - 1].0));
                }
            }
        }
        assert forall|a: int, b: int| 0 <= a < n.len() && 0 <= b < n.len() && a != b implies n[a].0 != n[b].0 by {
            if a < b {
                crate::sorted::lemma_bytes_lt_asymmetric(n[a].0, n[b].0);
                assert(lt(n[a].0, n[b].0));
            } else {
                assert(lt(n[b].0, n[a].0));
            }
            crate::sorted::lemma_bytes_lt_asymmetric(n[a].0, n[a].0);
        }
    }
}

/// The NBT value at the start of `string`, and the rest of `string`.
fn parse_value(string: &str) -> (res: Result<(NbtValue, &str), String>)
    ensures
        match value_spec(string.spec_bytes()) {
            Ok((m, r)) => res matches Ok((v, x)) && v.model() == m && x.spec_bytes() == r
                && is_suffix(r, string.spec_bytes()),
            Err(m) => res matches Err(e) && e@ == m,
        },
    decreases string.spec_bytes().len(), 2int,
{
    let b = string.as_bytes();
    if b.len() == 0 {
        return Err(String::from_str("Expected value"));
    }
    let c = b[0];
    if c == '{' as u8 {
        match parse_compound(string) {
            Ok((compound, rest)) => {
                let value = NbtValue::Compound(compound);
                proof {
                    assert(value.model()->Compound_0 =~= compound.model());
                }
                Ok((value, rest))
            },
            Err(e) => Err(e),
        }
    } else if c == '[' as u8 {
        parse_array_or_list(string)
    } else if c == '"' as u8 || c == '\'' as u8 {
        let quote = c as char;
        proof {
            lemma_ascii_char_bytes(quote);
            lemma_splittable_after_ascii(string, 1);
            assert(quote as u8 == c);
        }
        match parse_quoted_string(string, quote) {
            Ok((value, len)) => {
                proof {
                    let body = after(b@, 1);
                    lemma_first_unescaped(body, 0, seq![c]);
                    let i = len - 2;
                    assert(body.subrange(i as int, i + 1)[0] == body[i as int]);
                    lemma_splittable_after_ascii(string, len as int);
                }
                Ok((NbtValue::String(to_string(value)), skip_suffix(string, len)))
            },
            Err(e) => Err(e),
        }
    } else {
        let (value, len) = parse_unquoted_string(string);
        proof {
            lemma_span_end(b@, 0, unquoted_pred());
            if len > 0 {
                assert(unquoted_pred()(b@[len - 1] as char));
            }
            lemma_splittable_after_ascii(string, len as int);
        }
        Ok((NbtValue::String(to_string(value)), skip_suffix(string, len)))
    }
}

/// The list at the start of `string` (a typed array is refused), and the rest of `string`.
fn parse_array_or_list(string: &str) -> (res: Result<(NbtValue, &str), String>)
    ensures
        match array_or_list_spec(string.spec_bytes()) {
            Ok((m, r)) => res matches Ok((v, x)) && v.model() == m && x.spec_bytes() == r
                && is_suffix(r, string.spec_bytes()),
            Err(m) => res matches Err(e) && e@ == m,
        },
    decreases string.spec_bytes().len(), 1int,
{
    let b = string.as_bytes();
    if b.len() >= 2 && b[0] == '[' as u8 && b[1] == ';' as u8 {
        return Err(String::from_str("Invalid array type '['"));
    }
    match parse_list(string) {
        Ok((list, rest)) => {
            let value = NbtValue::List(list);
            proof {
                assert(value.model() == NbtModel::List(list_model(list@))) by {
                    assert(value.model()->List_0 =~= list_model(list@));
                }
            }
            Ok((value, rest))
        },
        Err(e) => Err(e),
    }
}

/// The list at the start of `string`, and the rest of `string`.
#[verifier::loop_isolation(false)]
fn parse_list(string: &str) -> (res: Result<(Vec<NbtValue>, &str), String>)
    ensures
        match list_spec(string.spec_bytes()) {
            Ok((m, r)) => res matches Ok((v, x)) && list_model(v@) == m && x.spec_bytes() == r
                && is_suffix(r, string.spec_bytes()),
            Err(m) => res matches Err(e) && e@ == m,
        },
    decreases string.spec_bytes().len(), 0int,
{
    let ghost t = string.spec_bytes();
    let r = match expect_ascii(string, '[') {
        Ok(r) => r,
        Err(e) => return Err(e),
    };
    let mut suffix = trim(r);
    let ghost total = items_spec(suffix.spec_bytes(), seq![]);
    let mut list: Vec<NbtValue> = Vec::new();
    proof {
        lemma_suffix_trans(suffix.spec_bytes(), r.spec_bytes(), t);
        assert(list_model(list@) =~= seq![]);
    }
    loop
        invariant
            items_spec(suffix.spec_bytes(), list_model(list@)) == total,
            is_suffix(suffix.spec_bytes(), t),
            suffix.spec_bytes().len() < t.len(),
        decreases suffix.spec_bytes().len(),
    {
        if starts_with_ascii(suffix, ']') {
            break;
        }
        let ghost before = suffix.spec_bytes();
        let (value, r1) = match parse_value(suffix) {
            Ok(ok) => ok,
            Err(e) => return Err(e),
        };
        let r2 = trim(r1);
        let ghost old_list = list@;
        list.push(value);
        proof {
            assert(list_model(list@) =~= list_model(old_list).push(value.model()));
            lemma_suffix_trans(r2.spec_bytes(), r1.spec_bytes(), before);
            lemma_suffix_trans(r2.spec_bytes(), before, t);
        }
        match strip_ascii(r2, ',') {
            None => {
                suffix = r2;
                break;
            },
            Some(r3) => {
                let r4 = trim(r3);
                proof {
                    lemma_suffix_trans(r4.spec_bytes(), r3.spec_bytes(), r2.spec_bytes());
                    lemma_suffix_trans(r4.spec_bytes(), r2.spec_bytes(), t);
                }
                if byte_len(r4) == 0 {
                    return Err(String::from_str("Expected value"));
                }
                suffix = r4;
            },
        }
    }
    match expect_ascii(suffix, ']') {
        Ok(rest) => {
            proof {
                lemma_suffix_trans(rest.spec_bytes(), suffix.spec_bytes(), t);
            }
            Ok((list, rest))
        },
        Err(e) => Err(e),
    }
}

/// The compound at the start of `string`, and the rest of `string`.
#[verifier::loop_isolation(false)]
pub fn parse_compound(string: &str) -> (res: Result<(CompoundNbt, &str), String>)
    ensures
        match compound_spec(string.spec_bytes()) {
            Ok((m, r)) => res matches Ok((c, x)) && c.model() == m && keys_distinct(m)
                && x.spec_bytes() == r && is_suffix(r, string.spec_bytes()) && r.len()
                < string.spec_bytes().len(),
            Err(m) => res matches Err(e) && e@ == m,
        },
    decreases string.spec_bytes().len(), 0int,
{
    let ghost t = string.spec_bytes();
    let r = match expect_ascii(string, '{') {
        Ok(r) => r,
        Err(e) => return Err(e),
    };
    let mut suffix = trim(r);
    let ghost total = entries_spec(suffix.spec_bytes(), seq![]);
    let mut entries: Vec<(String, NbtValue)> = Vec::new();
    proof {
        lemma_suffix_trans(suffix.spec_bytes(), r.spec_bytes(), t);
        assert(entries_model(entries@) =~= seq![]);
    }
    if byte_len(suffix) != 0 {
        loop
            invariant
                entries_spec(suffix.spec_bytes(), entries_model(entries@)) == total,
                is_suffix(suffix.spec_bytes(), t),
                suffix.spec_bytes().len() < t.len(),
                keys_distinct(entries_model(entries@)),
                keys_increasing(entries_model(entries@), key_order()),
            decreases suffix.spec_bytes().len(),
        {
            if starts_with_ascii(suffix, '}') {
                break;
            }
            let ghost before = suffix.spec_bytes();
            let (key, r1) = match parse_key(suffix) {
                Ok(ok) => ok,
                Err(e) => return Err(e),
            };
            let r2 = trim(r1);
            let r3 = match expect_ascii(r2, ':') {
                Ok(r3) => r3,
                Err(e) => return Err(e),
            };
            let r4 = trim(r3);
            proof {
                lemma_suffix_trans(r2.spec_bytes(), r1.spec_bytes(), before);
                lemma_suffix_trans(r3.spec_bytes(), r2.spec_bytes(), before);
                lemma_suffix_trans(r4.spec_bytes(), r3.spec_bytes(), before);
            }
            let (value, r5) = match parse_value(r4) {
                Ok(ok) => ok,
                Err(e) => return Err(e),
            };
            let r6 = trim(r5);
            proof {
                lemma_suffix_trans(r5.spec_bytes(), r4.spec_bytes(), before);
                lemma_suffix_trans(r6.spec_bytes(), r5.spec_bytes(), before);
                lemma_suffix_trans(r6.spec_bytes(), before, t);
            }
            insert_entry(&mut entries, key, value);
            match strip_ascii(r6, ',') {
                None => {
                    suffix = r6;
                    break;
                },
                Some(r7) => {
                    let r8 = trim(r7);
                    proof {
                        lemma_suffix_trans(r8.spec_bytes(), r7.spec_bytes(), r6.spec_bytes());
                        lemma_suffix_trans(r8.spec_bytes(), r6.spec_bytes(), t);
                    }
                    if byte_len(r8) == 0 {
                        return Err(String::from_str("Expected key"));
                    }
                    suffix = r8;
                },
            }
        }
    }
    match expect_ascii(suffix, '}') {
        Ok(rest) => {
            proof {
                lemma_suffix_trans(rest.spec_bytes(), suffix.spec_bytes(), t);
            }
            Ok((CompoundNbt(entries), rest))
        },
        Err(e) => Err(e),
    }
}

impl CompoundNbt {
    /// The compound at the start of `string` and its length in bytes.
    pub fn parse(string: &str) -> (res: Result<(Self, usize), String>)
        ensures
            match compound_spec(string.spec_bytes()) {
                Ok((m, r)) => res matches Ok((c, n)) && c.model() == m && n
                    == string.spec_bytes().len() - r.len(),
                Err(m) => res matches Err(e) && e@ == m,
            },
    {
        match parse_compound(string) {
            Ok((compound, rest)) => Ok((compound, byte_len(string) - byte_len(rest))),
            Err(e) => Err(e),
        }
    }
}

/// An element of an NBT path.
#[derive(Debug, PartialEq)]
pub enum MinecraftNbtPathNode<'l> {
    /// `[]`: every element of a list.
    AllElements,
    /// A named child of a compound.
    CompoundChild(&'l str),
    /// `[i]`: the element at an index.
    IndexedElement(i32),
    /// `[{..}]`: the elements that match a compound.
    MatchElement(CompoundNbt),
    /// `name{..}`: a named child that matches a compound.
    MatchObject(&'l str, CompoundNbt),
    /// `{..}` at the start: the root, if it matches a compound.
    MatchRootObject(CompoundNbt),
}

/// An NBT path: its elements in order.
#[derive(Debug, PartialEq)]
pub struct MinecraftNbtPath<'l>(pub Vec<MinecraftNbtPathNode<'l>>);

/// The mathematical value of an element of an NBT path; names are their UTF-8 bytes.
pub enum NbtPathNodeModel {
    AllElements,
    CompoundChild(Seq<u8>),
    IndexedElement(i32),
    MatchElement(Seq<(Seq<u8>, NbtModel)>),
    MatchObject(Seq<u8>, Seq<(Seq<u8>, NbtModel)>),
    MatchRootObject(Seq<(Seq<u8>, NbtModel)>),
}

impl<'l> MinecraftNbtPathNode<'l> {
    /// The value of this element.
    pub open spec fn model(&self) -> NbtPathNodeModel {
        match self {
            MinecraftNbtPathNode::AllElements => NbtPathNodeModel::AllElements,
            MinecraftNbtPathNode::CompoundChild(n) => NbtPathNodeModel::CompoundChild(n.spec_bytes()),
            MinecraftNbtPathNode::IndexedElement(i) => NbtPathNodeModel::IndexedElement(*i),
            MinecraftNbtPathNode::MatchElement(c) => NbtPathNodeModel::MatchElement(c.model()),
            MinecraftNbtPathNode::MatchObject(n, c) => NbtPathNodeModel::MatchObject(
                n.spec_bytes(),
                c.model(),
            ),
            MinecraftNbtPathNode::MatchRootObject(c) => NbtPathNodeModel::MatchRootObject(c.model()),
        }
    }
}

impl<'l> MinecraftNbtPath<'l> {
    /// The elements of this path.
    pub open spec fn model(&self) -> Seq<NbtPathNodeModel> {
        Seq::new(self.0@.len(), |i: int| self.0@[i].model())
    }
}

/// The message for an invalid element of an NBT path.
pub open spec fn invalid_node_message() -> Seq<char> {
    "Invalid NBT path element"@
}

/// A character allowed in an unquoted name of an NBT path.
pub open spec fn unquoted_name_char(c: char) -> bool {
    c != ' ' && c != '"' && c != '[' && c != ']' && c != '.' && c != '{' && c != '}'
}

/// The predicate `unquoted_name_char` as a value.
pub open spec fn unquoted_name_pred() -> spec_fn(char) -> bool {
    |c: char| unquoted_name_char(c)
}

/// The length of the unquoted name at the start of `b`.
pub open spec fn unquoted_name_len(b: Seq<u8>) -> int {
    span_end(b, 0, unquoted_name_pred())
}

/// Whether `c` may appear in an unquoted name of an NBT path.
pub fn is_allowed_in_unquoted_name(c: char) -> (res: bool)
    ensures
        res == unquoted_name_char(c),
{
    c != ' ' && c != '"' && c != '[' && c != ']' && c != '.' && c != '{' && c != '}'
}

/// The unquoted name at the start of `string` and its length in bytes; an empty name is an
/// error.
pub fn parse_unquoted_name(string: &str) -> (res: Result<(&str, usize), String>)
    ensures
        ({
            let b = string.spec_bytes();
            let n = unquoted_name_len(b);
            if n == 0 {
                res matches Err(e) && e@ == invalid_node_message()
            } else {
                res matches Ok((v, m)) && m == n && v.spec_bytes() == b.subrange(0, n)
            }
        }),
{
    let b = string.as_bytes();
    let len = find_span_end(b, 0, is_allowed_in_unquoted_name, Ghost(unquoted_name_pred()));
    proof {
        let bs = b@;
        lemma_span_end(bs, 0, unquoted_name_pred());
        if len < bs.len() {
            assert(!unquoted_name_pred()(bs[len as int] as char));
            assert((bs[len as int] as char) as u32 == bs[len as int]);
        }
    }
    if len != 0 {
        Ok((take_str(string, len), len))
    } else {
        Err(String::from_str("Invalid NBT path element"))
    }
}

/// What follows the name of an object element: a compound it must match, or nothing.
pub open spec fn object_node_spec(r: Seq<u8>, name: Seq<u8>) -> Result<(NbtPathNodeModel, Seq<u8>), Seq<char>> {
    if r.len() > 0 && r[0] == '{' as u8 {
        match compound_spec(r) {
            Ok((c, r2)) => Ok((NbtPathNodeModel::MatchObject(name, c), r2)),
            Err(m) => Err(m),
        }
    } else {
        Ok((NbtPathNodeModel::CompoundChild(name), r))
    }
}

/// The element of an NBT path at the start of `t` and what follows it; `root` tells whether
/// it is the first element.
pub open spec fn node_spec(t: Seq<u8>, root: bool) -> Result<(NbtPathNodeModel, Seq<u8>), Seq<char>> {
    if t.len() == 0 {
        Err("Expected nbt path"@)
    } else if t[0] == '"' as u8 {
        let body = after(t, 1);
        match first_unescaped(body, 0, seq!['"' as u8]) {
            Some(i) => object_node_spec(after(t, i + 2), body.subrange(0, i)),
            None => Err(unclosed_message()),
        }
    } else if t[0] == '[' as u8 {
        let s = after(t, 1);
        if s.len() > 0 && s[0] == '{' as u8 {
            match compound_spec(s) {
                Err(m) => Err(m),
                Ok((c, r)) => match strip_byte(r, ']' as u8) {
                    None => Err(expect_message(']')),
                    Some(r2) => Ok((NbtPathNodeModel::MatchElement(c), r2)),
                },
            }
        } else if s.len() > 0 && s[0] == ']' as u8 {
            Ok((NbtPathNodeModel::AllElements, after(t, 2)))
        } else {
            match integer_spec(s) {
                Err(m) => Err(m),
                Ok((i, r)) => match strip_byte(r, ']' as u8) {
                    None => Err(expect_message(']')),
                    Some(r2) => Ok((NbtPathNodeModel::IndexedElement(i), r2)),
                },
            }
        }
    } else if t[0] == '{' as u8 {
        if root {
            match compound_spec(t) {
                Ok((c, r)) => Ok((NbtPathNodeModel::MatchRootObject(c), r)),
                Err(m) => Err(m),
            }
        } else {
            Err(invalid_node_message())
        }
    } else {
        let n = unquoted_name_len(t);
        if n == 0 {
            Err(invalid_node_message())
        } else {
            object_node_spec(after(t, n), t.subrange(0, n))
        }
    }
}

/// The elements of an NBT path from `t` on, after the elements `acc`, and where they end.
pub open spec fn path_spec(t: Seq<u8>, root: bool, acc: Seq<NbtPathNodeModel>) -> Result<
    (Seq<NbtPathNodeModel>, Seq<u8>),
    Seq<char>,
>
    decreases t.len(),
{
    if t.len() == 0 || t[0] == ' ' as u8 {
        Ok((acc, t))
    } else {
        match node_spec(t, root) {
            Err(m) => Err(m),
            Ok((node, r)) => {
                let next = if r.len() == 0 || r[0] == ' ' as u8 || r[0] == '[' as u8 || r[0]
                    == '{' as u8 {
                    Some(r)
                } else {
                    strip_byte(r, '.' as u8)
                };
                match next {
                    None => Err(expect_message('.')),
                    Some(r2) => if r2.len() < t.len() {
                        path_spec(r2, false, acc.push(node))
                    } else {
                        Err(invalid_node_message())
                    },
                }
            },
        }
    }
}

/// The element of an object named `name`, from `suffix` on, the rest of `suffix` after it.
fn parse_object_node<'l, 's>(suffix: &'s str, name: &'l str) -> (res: Result<
    (MinecraftNbtPathNode<'l>, &'s str),
    String,
>)
    ensures
        match object_node_spec(suffix.spec_bytes(), name.spec_bytes()) {
            Ok((m, r)) => res matches Ok((v, x)) && v.model() == m && x.spec_bytes() == r
                && is_suffix(r, suffix.spec_bytes()),
            Err(m) => res matches Err(e) && e@ == m,
        },
{
    if starts_with_ascii(suffix, '{') {
        match parse_compound(suffix) {
            Ok((compound, rest)) => Ok((MinecraftNbtPathNode::MatchObject(name, compound), rest)),
            Err(e) => Err(e),
        }
    } else {
        proof {
            lemma_after_suffix(suffix.spec_bytes(), 0);
        }
        Ok((MinecraftNbtPathNode::CompoundChild(name), suffix))
    }
}

impl<'l> MinecraftNbtPathNode<'l> {
    /// The element of an NBT path at the start of `string`, and the rest of `string`.
    pub fn parse(string: &'l str, root: bool) -> (res: Result<(Self, &'l str), String>)
        ensures
            match node_spec(string.spec_bytes(), root) {
                Ok((m, r)) => res matches Ok((v, x)) && v.model() == m && x.spec_bytes() == r
                    && is_suffix(r, string.spec_bytes()) && r.len() < string.spec_bytes().len(),
                Err(m) => res matches Err(e) && e@ == m,
            },
    {
        let b = string.as_bytes();
        let ghost t = b@;
        if b.len() == 0 {
            return Err(String::from_str("Expected nbt path"));
        }
        let c = b[0];
        if c == '"' as u8 {
            proof {
                lemma_ascii_char_bytes('"');
                lemma_splittable_after_ascii(string, 1);
            }
            match parse_quoted_string(string, '"') {
                Err(e) => Err(e),
                Ok((name, len)) => {
                    proof {
                        let body = after(t, 1);
                        lemma_first_unescaped(body, 0, seq!['"' as u8]);
                        let i = len - 2;
                        assert(body.subrange(i as int, i + 1)[0] == body[i as int]);
                        lemma_splittable_after_ascii(string, len as int);
                    }
                    let suffix = skip_suffix(string, len);
                    let res = parse_object_node(suffix, name);
                    proof {
                        if let Ok((_, x)) = res {
                            lemma_suffix_trans(x.spec_bytes(), suffix.spec_bytes(), t);
                        }
                    }
                    res
                },
            }
        } else if c == '[' as u8 {
            proof {
                lemma_splittable_after_ascii(string, 1);
            }
            let suffix = skip_suffix(string, 1);
            if starts_with_ascii(suffix, '{') {
                let (compound, r) = match parse_compound(suffix) {
                    Ok(ok) => ok,
                    Err(e) => return Err(e),
                };
                match expect_ascii(r, ']') {
                    Ok(rest) => {
                        proof {
                            lemma_suffix_trans(r.spec_bytes(), suffix.spec_bytes(), t);
                            lemma_suffix_trans(rest.spec_bytes(), r.spec_bytes(), t);
                        }
                        Ok((MinecraftNbtPathNode::MatchElement(compound), rest))
                    },
                    Err(e) => Err(e),
                }
            } else if starts_with_ascii(suffix, ']') {
                proof {
                    lemma_splittable_after_ascii(string, 2);
                }
                Ok((MinecraftNbtPathNode::AllElements, skip_suffix(string, 2)))
            } else {
                let (index, r) = match parse_integer_prefix(suffix) {
                    Ok(ok) => ok,
                    Err(e) => return Err(e),
                };
                match expect_ascii(r, ']') {
                    Ok(rest) => {
                        proof {
                            lemma_suffix_trans(r.spec_bytes(), suffix.spec_bytes(), t);
                            lemma_suffix_trans(rest.spec_bytes(), r.spec_bytes(), t);
                        }
                        Ok((MinecraftNbtPathNode::IndexedElement(index), rest))
                    },
                    Err(e) => Err(e),
                }
            }
        } else if c == '{' as u8 {
            if root {
                match parse_compound(string) {
                    Ok((compound, rest)) => Ok((MinecraftNbtPathNode::MatchRootObject(compound), rest)),
                    Err(e) => Err(e),
                }
            } else {
                Err(String::from_str("Invalid NBT path element"))
            }
        } else {
            let (name, len) = match parse_unquoted_name(string) {
                Ok(ok) => ok,
                Err(e) => return Err(e),
            };
            proof {
                lemma_span_end(t, 0, unquoted_name_pred());
                if len < t.len() {
                    assert(!unquoted_name_pred()(t[len as int] as char));
                    assert((t[len as int] as char) as u32 == t[len as int]);
                }
            }
            let suffix = skip_suffix(string, len);
            let res = parse_object_node(suffix, name);
            proof {
                if let Ok((_, x)) = res {
                    lemma_suffix_trans(x.spec_bytes(), suffix.spec_bytes(), t);
                }
            }
            res
        }
    }
}

impl<'l> MinecraftNbtPath<'l> {
    /// The NBT path at the start of `string` and its length in bytes.
    #[verifier::loop_isolation(false)]
    pub fn parse(string: &'l str) -> (res: Result<(Self, usize), String>)
        ensures
            match path_spec(string.spec_bytes(), true, seq![]) {
                Ok((m, r)) => res matches Ok((p, n)) && p.model() == m && n
                    == string.spec_bytes().len() - r.len(),
                Err(m) => res matches Err(e) && e@ == m,
            },
    {
        let ghost t = string.spec_bytes();
        let ghost total = path_spec(t, true, seq![]);
        let mut path: Vec<MinecraftNbtPathNode<'l>> = Vec::new();
        let mut root = true;
        let mut suffix = string;
        proof {
            lemma_after_suffix(t, 0);
            assert(MinecraftNbtPath(path).model() =~= seq![]);
        }
        while byte_len(suffix) != 0 && !starts_with_ascii(suffix, ' ')
            invariant
                path_spec(suffix.spec_bytes(), root, MinecraftNbtPath(path).model()) == total,
                is_suffix(suffix.spec_bytes(), t),
            decreases suffix.spec_bytes().len(),
        {
            let ghost before = suffix.spec_bytes();
            let (node, r) = match MinecraftNbtPathNode::parse(suffix, root) {
                Ok(ok) => ok,
                Err(e) => return Err(e),
            };
            let ghost old_model = MinecraftNbtPath(path).model();
            let ghost node_model = node.model();
            path.push(node);
            proof {
                assert(MinecraftNbtPath(path).model() =~= old_model.push(node_model));
            }
            root = false;
            let b = r.as_bytes();
            if b.len() == 0 || b[0] == ' ' as u8 || b[0] == '[' as u8 || b[0] == '{' as u8 {
                suffix = r;
            } else {
                suffix = match expect_ascii(r, '.') {
                    Ok(s) => s,
                    Err(e) => return Err(e),
                };
                proof {
                    lemma_suffix_trans(suffix.spec_bytes(), r.spec_bytes(), before);
                }
            }
            proof {
                lemma_suffix_trans(suffix.spec_bytes(), before, t);
            }
        }
        proof {
            lemma_after_suffix(t, 0);
        }
        Ok((MinecraftNbtPath(path), byte_len(string) - byte_len(suffix)))
    }
}

} // verus!

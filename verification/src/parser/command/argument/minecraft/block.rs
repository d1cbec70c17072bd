//! Block predicates such as `#minecraft:logs[axis=y]{Items:[]}`.

use crate::entries::{distinct_keys, insert_pair, pairs_model, put};
use crate::parser::command::argument::brigadier::{
    expect_ascii, expect_message, parse_possibly_quoted_prefix, quoted_prefix_spec,
};
use crate::parser::command::argument::minecraft::nbt::{compound_spec, parse_compound, CompoundNbt, NbtModel};
use crate::parser::command::resource_location::{location_model, resource_location_spec, ResourceLocationRef};
use crate::text::{
    after, byte_len, is_suffix, lemma_after_suffix, lemma_splittable_after_ascii, lemma_suffix_trans,
    skip_suffix, starts_with_ascii, strip_ascii, strip_byte, trim, trimmed,
};
use vstd::prelude::*;
use vstd::string::*;

verus! {

/// A block predicate: a block or block tag, with properties and NBT data it must match.
#[derive(Debug, PartialEq)]
pub struct MinecraftBlockPredicate<'l> {
    /// Whether the block is a tag (`#`).
    pub tag: bool,
    /// The block or tag.
    pub block: ResourceLocationRef<&'l str>,
    /// The properties, each name once, with their values.
    pub properties: Vec<(&'l str, &'l str)>,
    /// The NBT data.
    pub nbt: CompoundNbt,
}

/// The value of a block predicate.
pub struct BlockPredicateModel {
    pub tag: bool,
    pub block: (Seq<u8>, usize),
    pub properties: Seq<(Seq<u8>, Seq<u8>)>,
    pub nbt: Seq<(Seq<u8>, NbtModel)>,
}

impl<'l> MinecraftBlockPredicate<'l> {
    /// The value of this block predicate.
    pub open spec fn model(&self) -> BlockPredicateModel {
        BlockPredicateModel {
            tag: self.tag,
            block: location_model(self.block),
            properties: pairs_model(self.properties@),
            nbt: self.nbt.model(),
        }
    }
}

/// The properties from `t` on, after the properties `acc`, and where they end.
pub open spec fn properties_loop_spec(t: Seq<u8>, acc: Seq<(Seq<u8>, Seq<u8>)>) -> Result<
    (Seq<(Seq<u8>, Seq<u8>)>, Seq<u8>),
    Seq<char>,
>
    decreases t.len(),
{
    if t.len() > 0 && t[0] == ']' as u8 {
        Ok((acc, t))
    } else {
        match quoted_prefix_spec(t) {
            Err(m) => Err(m),
            Ok((key, r1)) => match strip_byte(trimmed(r1), '=' as u8) {
                None => Err(expect_message('=')),
                Some(r2) => match quoted_prefix_spec(trimmed(r2)) {
                    Err(m) => Err(m),
                    Ok((value, r3)) => {
                        let r4 = trimmed(r3);
                        let acc2 = put(acc, key, value);
                        match strip_byte(r4, ',' as u8) {
                            None => Ok((acc2, r4)),
                            Some(r5) => if trimmed(r5).len() < t.len() {
                                properties_loop_spec(trimmed(r5), acc2)
                            } else {
                                Err(expect_message('='))
                            },
                        }
                    },
                },
            },
        }
    }
}

/// The properties at the start of `t` (none when `t` does not start with `[`) and what follows
/// them.
pub open spec fn properties_spec(t: Seq<u8>) -> Result<(Seq<(Seq<u8>, Seq<u8>)>, Seq<u8>), Seq<char>> {
    match strip_byte(t, '[' as u8) {
        None => Ok((seq![], t)),
        Some(r) => match properties_loop_spec(trimmed(r), seq![]) {
            Err(m) => Err(m),
            Ok((p, r2)) => match strip_byte(r2, ']' as u8) {
                None => Err(expect_message(']')),
                Some(r3) => Ok((p, r3)),
            },
        },
    }
}

/// The NBT data at the start of `t` (none when `t` does not start with `{`) and what follows it.
pub open spec fn block_nbt_spec(t: Seq<u8>) -> Result<(Seq<(Seq<u8>, NbtModel)>, Seq<u8>), Seq<char>> {
    if t.len() > 0 && t[0] == '{' as u8 {
        compound_spec(t)
    } else {
        Ok((seq![], t))
    }
}

/// The block predicate at the start of `t` and what follows it.
pub open spec fn block_predicate_spec(t: Seq<u8>) -> Result<(BlockPredicateModel, Seq<u8>), Seq<char>> {
    let tag = t.len() > 0 && t[0] == '#' as u8;
    let s = if tag {
        after(t, 1)
    } else {
        t
    };
    match resource_location_spec(s) {
        Err(m) => Err(m),
        Ok((text, k, r1)) => match properties_spec(r1) {
            Err(m) => Err(m),
            Ok((p, r2)) => match block_nbt_spec(r2) {
                Err(m) => Err(m),
                Ok((e, r3)) => Ok(
                    (BlockPredicateModel { tag, block: (text, k), properties: p, nbt: e }, r3),
                ),
            },
        },
    }
}

/// The properties at the start of `string`, and the rest of `string`.
#[verifier::loop_isolation(false)]
fn parse_properties<'l>(string: &'l str) -> (res: Result<(Vec<(&'l str, &'l str)>, &'l str), String>)
    ensures
        match properties_spec(string.spec_bytes()) {
            Ok((p, r)) => res matches Ok((v, x)) && pairs_model(v@) == p && distinct_keys(p)
                && x.spec_bytes() == r && is_suffix(r, string.spec_bytes()),
            Err(m) => res matches Err(e) && e@ == m,
        },
{
    let ghost t = string.spec_bytes();
    let mut properties: Vec<(&'l str, &'l str)> = Vec::new();
    proof {
        assert(pairs_model(properties@) =~= seq![]);
    }
    let r = match strip_ascii(string, '[') {
        None => {
            proof {
                lemma_after_suffix(t, 0);
            }
            return Ok((properties, string));
        },
        Some(r) => r,
    };
    let mut suffix = trim(r);
    let ghost total = properties_loop_spec(suffix.spec_bytes(), seq![]);
    proof {
        lemma_suffix_trans(suffix.spec_bytes(), r.spec_bytes(), t);
    }
    loop
        invariant
            properties_loop_spec(suffix.spec_bytes(), pairs_model(properties@)) == total,
            distinct_keys(pairs_model(properties@)),
            is_suffix(suffix.spec_bytes(), t),
        decreases suffix.spec_bytes().len(),
    {
        if starts_with_ascii(suffix, ']') {
            break;
        }
        let ghost before = suffix.spec_bytes();
        let (key, r1) = match parse_possibly_quoted_prefix(suffix) {
            Ok(ok) => ok,
            Err(e) => return Err(e),
        };
        let r2 = match expect_ascii(trim(r1), '=') {
            Ok(r2) => r2,
            Err(e) => return Err(e),
        };
        let (value, r3) = match parse_possibly_quoted_prefix(trim(r2)) {
            Ok(ok) => ok,
            Err(e) => return Err(e),
        };
        let r4 = trim(r3);
        proof {
            lemma_suffix_trans(trimmed(r1.spec_bytes()), r1.spec_bytes(), before);
            lemma_suffix_trans(r2.spec_bytes(), trimmed(r1.spec_bytes()), before);
            lemma_suffix_trans(trimmed(r2.spec_bytes()), r2.spec_bytes(), before);
            lemma_suffix_trans(r3.spec_bytes(), trimmed(r2.spec_bytes()), before);
            lemma_suffix_trans(r4.spec_bytes(), r3.spec_bytes(), before);
            lemma_suffix_trans(r4.spec_bytes(), before, t);
        }
        insert_pair(&mut properties, key, value);
        match strip_ascii(r4, ',') {
            None => {
                suffix = r4;
                break;
            },
            Some(r5) => {
                let r6 = trim(r5);
                proof {
                    lemma_suffix_trans(r6.spec_bytes(), r5.spec_bytes(), r4.spec_bytes());
                    lemma_suffix_trans(r6.spec_bytes(), r4.spec_bytes(), before);
                    lemma_suffix_trans(r6.spec_bytes(), before, t);
                }
                suffix = r6;
            },
        }
    }
    match expect_ascii(suffix, ']') {
        Ok(rest) => {
            proof {
                lemma_suffix_trans(rest.spec_bytes(), suffix.spec_bytes(), t);
            }
            Ok((properties, rest))
        },
        Err(e) => Err(e),
    }
}

/// The NBT data at the start of `string`, and the rest of `string`.
fn parse_nbt(string: &str) -> (res: Result<(CompoundNbt, &str), String>)
    ensures
        match block_nbt_spec(string.spec_bytes()) {
            Ok((e, r)) => res matches Ok((c, x)) && c.model() == e && x.spec_bytes() == r
                && is_suffix(r, string.spec_bytes()),
            Err(m) => res matches Err(e) && e@ == m,
        },
{
    if starts_with_ascii(string, '{') {
        parse_compound(string)
    } else {
        let compound = CompoundNbt(Vec::new());
        proof {
            lemma_after_suffix(string.spec_bytes(), 0);
            assert(compound.model() =~= seq![]);
        }
        Ok((compound, string))
    }
}

impl<'l> MinecraftBlockPredicate<'l> {
    /// The block predicate at the start of `string` and its length in bytes.
    pub fn parse(string: &'l str) -> (res: Result<(Self, usize), String>)
        ensures
            match block_predicate_spec(string.spec_bytes()) {
                Ok((m, r)) => res matches Ok((p, n)) && p.model() == m && n
                    == string.spec_bytes().len() - r.len(),
                Err(m) => res matches Err(e) && e@ == m,
            },
    {
        let ghost t = string.spec_bytes();
        let tag = starts_with_ascii(string, '#');
        let suffix = if tag {
            proof {
                lemma_splittable_after_ascii(string, 1);
            }
            skip_suffix(string, 1)
        } else {
            proof {
                lemma_after_suffix(t, 0);
            }
            string
        };
        let (block, r1) = match ResourceLocationRef::parse_prefix(suffix) {
            Ok(ok) => ok,
            Err(e) => return Err(e),
        };
        let (properties, r2) = match parse_properties(r1) {
            Ok(ok) => ok,
            Err(e) => return Err(e),
        };
        let (nbt, r3) = match parse_nbt(r2) {
            Ok(ok) => ok,
            Err(e) => return Err(e),
        };
        proof {
            lemma_suffix_trans(r1.spec_bytes(), suffix.spec_bytes(), t);
            lemma_suffix_trans(r2.spec_bytes(), r1.spec_bytes(), t);
            lemma_suffix_trans(r3.spec_bytes(), r2.spec_bytes(), t);
        }
        Ok((MinecraftBlockPredicate { tag, block, properties, nbt }, byte_len(string) - byte_len(r3)))
    }
}

} // verus!

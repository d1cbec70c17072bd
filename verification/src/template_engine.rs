//! Expansion of templates: each placeholder of a template is replaced by its value.

use crate::entries::{
    distinct_keys, insert_all, insert_copies, insert_pair, lemma_puts, pairs_model, put, puts, Modeled,
    to_map,
};
use crate::parser::commands::NamespacedNameRef;
use crate::text::{
    lemma_replace_absent, lemma_splittable_after_ascii, occurs, replace, replace_spec, replace_text,
    replaced, slice_str,
    splittable, string_bytes, to_string, Text,
};
use vstd::prelude::*;
use vstd::string::*;

verus! {

/// Replaces placeholders in templates by their values.
///
/// Its replacements are two maps from placeholders to values: values that are borrowed and
/// values that it owns. Each map holds a placeholder at most once.
pub struct TemplateEngine<'l> {
    replacements: Vec<(&'l str, &'l str)>,
    replacements_owned: Vec<(&'l str, String)>,
}

/// The bytes `b` after applying the replacements `r` one after the other, in their order.
pub open spec fn expand_all(b: Seq<u8>, r: Seq<(Seq<u8>, Seq<u8>)>) -> Seq<u8>
    decreases r.len(),
{
    if r.len() == 0 {
        b
    } else {
        replaced(expand_all(b, r.drop_last()), r.last().0, r.last().1)
    }
}

/// Applying replacements none of whose placeholders is empty or occurs in `b` leaves `b` as it
/// is.
pub proof fn lemma_expand_all_absent(b: Seq<u8>, r: Seq<(Seq<u8>, Seq<u8>)>)
    requires
        forall|k: Seq<u8>| #[trigger] to_map(r).dom().contains(k) ==> k.len() > 0 && !occurs(k, b),
    ensures
        expand_all(b, r) == b,
    decreases r.len(),
{
    if r.len() > 0 {
        assert forall|k: Seq<u8>| #[trigger] to_map(r.drop_last()).dom().contains(k) implies k.len() > 0
            && !occurs(k, b) by {
            assert(to_map(r).dom().contains(k));
        }
        lemma_expand_all_absent(b, r.drop_last());
        assert(to_map(r).dom().contains(r.last().0));
        lemma_replace_absent(b, r.last().0, r.last().1);
    }
}

/// The placeholders and values of the borrowed replacements that the engine is given.
pub open spec fn pairs_of<'l>(v: Seq<(&'l str, &'l str)>) -> Seq<(Seq<u8>, Seq<u8>)> {
    pairs_model(v)
}

impl<'l> TemplateEngine<'l> {
    /// Each map holds a placeholder at most once.
    #[verifier::type_invariant]
    spec fn well_formed(self) -> bool {
        distinct_keys(pairs_model(self.replacements@)) && distinct_keys(
            pairs_model(self.replacements_owned@),
        )
    }

    /// The borrowed replacements, in the order in which they are applied.
    pub closed spec fn borrowed(self) -> Seq<(Seq<u8>, Seq<u8>)> {
        pairs_model(self.replacements@)
    }

    /// The owned replacements, in the order in which they are applied after the borrowed ones.
    pub closed spec fn owned(self) -> Seq<(Seq<u8>, Seq<u8>)> {
        pairs_model(self.replacements_owned@)
    }

    /// An engine with the given replacements; of two replacements of one placeholder the later
    /// one counts.
    pub fn new(replacements: Vec<(&'l str, &'l str)>) -> (res: TemplateEngine<'l>)
        ensures
            res.borrowed() == puts(Seq::empty(), pairs_of(replacements@)),
            to_map(res.borrowed()) == to_map(pairs_of(replacements@)),
            res.owned() == Seq::<(Seq<u8>, Seq<u8>)>::empty(),
    {
        let mut r: Vec<(&'l str, &'l str)> = Vec::new();
        proof {
            assert(pairs_model(r@) =~= Seq::<(Seq<u8>, Seq<u8>)>::empty());
        }
        insert_all(&mut r, replacements);
        proof {
            lemma_puts(Seq::<(Seq<u8>, Seq<u8>)>::empty(), pairs_of(replacements@));
            assert(to_map(Seq::<(Seq<u8>, Seq<u8>)>::empty()).union_prefer_right(
                to_map(pairs_of(replacements@)),
            ) =~= to_map(pairs_of(replacements@)));
        }
        TemplateEngine { replacements: r, replacements_owned: Vec::new() }
    }

    /// A copy of the owned replacements.
    fn owned_copy(&self) -> (res: Vec<(&'l str, String)>)
        ensures
            pairs_model(res@) == self.owned(),
    {
        let mut v: Vec<(&'l str, String)> = Vec::new();
        let mut i: usize = 0;
        while i < self.replacements_owned.len()
            invariant
                i <= self.replacements_owned@.len(),
                pairs_model(v@) == pairs_model(self.replacements_owned@).take(i as int),
            decreases self.replacements_owned@.len() - i,
        {
            let k = self.replacements_owned[i].0;
            let value = self.replacements_owned[i].1.copy_text();
            let ghost old_v = v@;
            v.push((k, value));
            proof {
                let e = self.replacements_owned@[i as int];
                assert(k == e.0);
                assert(value.model_of() == e.1.model_of());
                assert(pairs_model(old_v).len() == old_v.len());
                assert(old_v.len() == i);
                assert(v@[i as int] == (k, value));
                assert(pairs_model(v@)[i as int] == pairs_model(self.replacements_owned@)[i as int]);
                assert(pairs_model(v@) =~= pairs_model(self.replacements_owned@).take(i + 1));
            }
            i = i + 1;
        }
        proof {
            assert(pairs_model(self.replacements_owned@).take(i as int) =~= pairs_model(
                self.replacements_owned@,
            ));
        }
        v
    }

    /// An engine with the replacements of `iter` and of this engine: of two replacements of one
    /// placeholder, the one of this engine counts, and among those of `iter` the later one.
    pub fn extend(&self, iter: Vec<(&'l str, &'l str)>) -> (res: TemplateEngine<'l>)
        ensures
            res.borrowed() == puts(puts(Seq::empty(), pairs_of(iter@)), self.borrowed()),
            to_map(res.borrowed()) == to_map(pairs_of(iter@)).union_prefer_right(
                to_map(self.borrowed()),
            ),
            res.owned() == self.owned(),
    {
        proof {
            use_type_invariant(self);
        }
        let mut r: Vec<(&'l str, &'l str)> = Vec::new();
        proof {
            assert(pairs_model(r@) =~= Seq::<(Seq<u8>, Seq<u8>)>::empty());
        }
        insert_all(&mut r, iter);
        insert_copies(&mut r, self.replacements.as_slice());
        proof {
            let e = Seq::<(Seq<u8>, Seq<u8>)>::empty();
            lemma_puts(e, pairs_of(iter@));
            lemma_puts(puts(e, pairs_of(iter@)), self.borrowed());
            assert(to_map(e).union_prefer_right(to_map(pairs_of(iter@))) =~= to_map(
                pairs_of(iter@),
            ));
        }
        let owned = self.owned_copy();
        TemplateEngine { replacements: r, replacements_owned: owned }
    }

    /// An engine that also replaces `-orig_ns-` by the namespace of `orig_name`, `-orig/fn-` by
    /// its name and `-orig_fn-` by its name with each `/` replaced by `_`.
    pub fn extend_orig_name<N: Text>(&'l self, orig_name: &'l NamespacedNameRef<N>) -> (res:
        TemplateEngine<'l>)
        ensures
            res.borrowed() == puts(
                puts(
                    Seq::empty(),
                    seq![
                        ("-orig_ns-".spec_bytes(), orig_name.namespace_bytes()),
                        ("-orig/fn-".spec_bytes(), orig_name.name_bytes()),
                    ],
                ),
                self.borrowed(),
            ),
            res.owned() == put(
                self.owned(),
                "-orig_fn-".spec_bytes(),
                replace_spec(orig_name.name_bytes(), "/".spec_bytes(), "_".spec_bytes()),
            ),
    {
        proof {
            reveal_strlit("/");
        }
        let orig_fn_tag = replace(orig_name.name(), "/", "_");
        let pairs = vec![("-orig_ns-", orig_name.namespace()), ("-orig/fn-", orig_name.name())];
        let mut engine = self.extend(pairs);
        proof {
            use_type_invariant(&engine);
            assert(pairs_of(pairs@) =~= seq![
                ("-orig_ns-".spec_bytes(), orig_name.namespace_bytes()),
                ("-orig/fn-".spec_bytes(), orig_name.name_bytes()),
            ]);
        }
        let mut owned = engine.owned_copy();
        insert_pair(&mut owned, "-orig_fn-", orig_fn_tag);
        TemplateEngine { replacements: engine.replacements, replacements_owned: owned }
    }

    /// `string` with the borrowed replacements and then the owned ones applied, each with
    /// `str::replace`.
    pub fn expand(&self, string: &str) -> (res: String)
        ensures
            string_bytes(&res) == expand_all(
                expand_all(string.spec_bytes(), self.borrowed()),
                self.owned(),
            ),
    {
        let ghost b = string.spec_bytes();
        let ghost r = self.borrowed();
        let ghost o = self.owned();
        let mut result = to_string(string);
        let mut i: usize = 0;
        proof {
            assert(r.take(0) =~= Seq::<(Seq<u8>, Seq<u8>)>::empty());
        }
        while i < self.replacements.len()
            invariant
                r == pairs_model(self.replacements@),
                i <= self.replacements@.len(),
                string_bytes(&result) == expand_all(b, r.take(i as int)),
            decreases self.replacements@.len() - i,
        {
            let (from, to) = self.replacements[i];
            result = replace_text(result.as_str(), from, to);
            proof {
                assert(r.take(i + 1).drop_last() =~= r.take(i as int));
            }
            i = i + 1;
        }
        proof {
            assert(r.take(i as int) =~= r);
            assert(o.take(0) =~= Seq::<(Seq<u8>, Seq<u8>)>::empty());
        }
        let ghost base = expand_all(b, r);
        let mut j: usize = 0;
        while j < self.replacements_owned.len()
            invariant
                o == pairs_model(self.replacements_owned@),
                j <= self.replacements_owned@.len(),
                string_bytes(&result) == expand_all(base, o.take(j as int)),
            decreases self.replacements_owned@.len() - j,
        {
            let from = self.replacements_owned[j].0;
            let to = self.replacements_owned[j].1.as_str();
            result = replace_text(result.as_str(), from, to);
            proof {
                assert(o.take(j + 1).drop_last() =~= o.take(j as int));
            }
            j = j + 1;
        }
        proof {
            assert(o.take(j as int) =~= o);
        }
        result
    }
}

/// What excluding the internal entities from the selectors at the offsets `sels` of `b` has
/// written so far, and the offset in `b` up to which it has read.
///
/// After each selector's first two characters it writes `[tag=!-ns-` and then `,` in place of a
/// `[` that follows, or `]` where none follows.
pub open spec fn exclusion_state(b: Seq<u8>, sels: Seq<usize>) -> (Seq<u8>, int)
    decreases sels.len(),
{
    if sels.len() == 0 {
        (Seq::empty(), 0)
    } else {
        let (r, i) = exclusion_state(b, sels.drop_last());
        let s = sels.last() + 2;
        let bracket = s < b.len() && b[s] == '[' as u8;
        (
            r + b.subrange(i, s) + "[tag=!-ns-".spec_bytes() + if bracket {
                seq![',' as u8]
            } else {
                seq![']' as u8]
            },
            if bracket {
                s + 1
            } else {
                s
            },
        )
    }
}

/// The line `b` with the internal entities excluded from the selectors at the offsets `sels`.
pub open spec fn excluded(b: Seq<u8>, sels: Seq<usize>) -> Seq<u8> {
    let (r, i) = exclusion_state(b, sels);
    r + b.subrange(i, b.len() as int)
}

/// Each selector leaves room for its first two characters, ends them at a character boundary,
/// and starts no earlier than what was read before it.
pub open spec fn selectors_fit(b: Seq<u8>, sels: Seq<usize>) -> bool {
    forall|k: int|
        0 <= k < sels.len() ==> {
            &&& #[trigger] sels[k] + 2 <= b.len()
            &&& splittable(b, sels[k] + 2)
            &&& exclusion_state(b, sels.take(k)).1 <= sels[k] + 2
        }
}

/// Whether the selectors at the offsets `selectors` fit in `line`, as `selectors_fit` says.
pub fn selectors_fit_in(line: &str, selectors: &[usize]) -> (res: bool)
    ensures
        res == selectors_fit(line.spec_bytes(), selectors@),
{
    let b = line.as_bytes();
    let n = b.len();
    let ghost bs = b@;
    let ghost sels = selectors@;
    let mut index: usize = 0;
    let mut k: usize = 0;
    proof {
        assert(sels.take(0) =~= Seq::<usize>::empty());
    }
    while k < selectors.len()
        invariant
            bs == b@,
            bs == line.spec_bytes(),
            n == bs.len(),
            sels == selectors@,
            k <= sels.len(),
            exclusion_state(bs, sels.take(k as int)).1 == index as int,
            forall|j: int|
                0 <= j < k ==> {
                    &&& #[trigger] sels[j] + 2 <= bs.len()
                    &&& splittable(bs, sels[j] + 2)
                    &&& exclusion_state(bs, sels.take(j)).1 <= sels[j] + 2
                },
        decreases sels.len() - k,
    {
        let start = selectors[k];
        if start > n || n - start < 2 {
            return false;
        }
        let s = start + 2;
        let boundary = s == n || !(0x80 <= b[s] && b[s] <= 0xbf);
        if !boundary || index > s {
            return false;
        }
        let bracket = s < n && b[s] == '[' as u8;
        index = if bracket { s + 1 } else { s };
        proof {
            let p = sels.take(k + 1);
            assert(p.drop_last() =~= sels.take(k as int));
            assert(p.last() == sels[k as int]);
        }
        k = k + 1;
    }
    proof {
        assert(sels.take(k as int) =~= sels);
    }
    true
}

/// `line` with the internal entities, those tagged `-ns-`, excluded from the selectors that
/// start at the offsets `selectors`.
pub fn exclude_internal_entites_from_selectors(line: &str, selectors: &[usize]) -> (res: String)
    requires
        selectors_fit(line.spec_bytes(), selectors@),
    ensures
        string_bytes(&res) == excluded(line.spec_bytes(), selectors@),
{
    let b = line.as_bytes();
    let n = b.len();
    let ghost bs = b@;
    let ghost sels = selectors@;
    let mut index: usize = 0;
    let mut result = String::new();
    let mut k: usize = 0;
    proof {
        assert(sels.take(0) =~= Seq::<usize>::empty());
        reveal_strlit("[tag=!-ns-");
        reveal_strlit(",");
        reveal_strlit("]");
        crate::text::lemma_ascii_text("[tag=!-ns-");
        crate::text::lemma_ascii_text(",");
        crate::text::lemma_ascii_text("]");
        assert(",".spec_bytes() =~= seq![',' as u8]);
        assert("]".spec_bytes() =~= seq![']' as u8]);
        assert(string_bytes(&result) =~= Seq::<u8>::empty());
        lemma_splittable_after_ascii(line, 0);
    }
    while k < selectors.len()
        invariant
            bs == b@,
            bs == line.spec_bytes(),
            n == bs.len(),
            sels == selectors@,
            selectors_fit(bs, sels),
            k <= sels.len(),
            exclusion_state(bs, sels.take(k as int)) == (string_bytes(&result), index as int),
            0 <= index <= bs.len(),
            splittable(bs, index as int),
            ",".spec_bytes() == seq![',' as u8],
            "]".spec_bytes() == seq![']' as u8],
        decreases sels.len() - k,
    {
        proof {
            assert(sels[k as int] + 2 <= bs.len());
        }
        let s = selectors[k] + 2;
        let ghost old_result = result@;
        let piece = slice_str(line, index, s);
        result.append(piece);
        index = s;
        result.append("[tag=!-ns-");
        let bracket = s < b.len() && b[s] == '[' as u8;
        let ghost mid = result@;
        if bracket {
            index = index + 1;
            result.append(",");
        } else {
            result.append("]");
        }
        proof {
            let p = sels.take(k + 1);
            assert(p.drop_last() =~= sels.take(k as int));
            assert(p.last() == sels[k as int]);
            crate::text::lemma_encode_concat(old_result, piece@);
            crate::text::lemma_encode_concat(old_result + piece@, "[tag=!-ns-"@);
            if bracket {
                crate::text::lemma_encode_concat(mid, ","@);
                lemma_splittable_after_ascii(line, s + 1);
            } else {
                crate::text::lemma_encode_concat(mid, "]"@);
            }
        }
        k = k + 1;
    }
    proof {
        assert(sels.take(k as int) =~= sels);
    }
    let ghost old_result = result@;
    let rest = slice_str(line, index, b.len());
    result.append(rest);
    proof {
        crate::text::lemma_encode_concat(old_result, rest@);
    }
    result
}

/// Expanding a text in which no placeholder of the engine occurs gives the text back, where no
/// placeholder is empty.
pub proof fn lemma_expand_without_placeholders(engine: TemplateEngine, b: Seq<u8>)
    requires
        forall|k: Seq<u8>|
            #![trigger to_map(engine.borrowed()).dom().contains(k)]
            #![trigger to_map(engine.owned()).dom().contains(k)]
            to_map(engine.borrowed()).dom().contains(k) || to_map(engine.owned()).dom().contains(k)
                ==> k.len() > 0 && !occurs(k, b),
    ensures
        expand_all(expand_all(b, engine.borrowed()), engine.owned()) == b,
{
    assert forall|k: Seq<u8>| #[trigger] to_map(engine.borrowed()).dom().contains(k) implies k.len() > 0
        && !occurs(k, b) by {}
    lemma_expand_all_absent(b, engine.borrowed());
    assert forall|k: Seq<u8>| #[trigger] to_map(engine.owned()).dom().contains(k) implies k.len() > 0
        && !occurs(k, b) by {}
    lemma_expand_all_absent(b, engine.owned());
}

} // verus!

//! Which functions call which, the commands by which a function returns to its callers, and
//! the list of the functions of a generated datapack.

use crate::adapter::stepping::{concat_bytes, concat_parts};
use crate::entries::Modeled;
use crate::generator::{join_lines};
use crate::parser::command::resource_location::ResourceLocation;
use crate::parser::Line;
use crate::sorted::{bytes_lt, lemma_bytes_lt_asymmetric, lemma_bytes_lt_total, str_lt, strings_model};
use crate::template_engine::{expand_all, TemplateEngine};
use crate::text::{decimal, lemma_encode_concat, replace_char, replace_spec, string_bytes, usize_to_string};
use vstd::prelude::*;
use vstd::string::*;

verus! {

broadcast use vstd::seq_lib::group_seq_properties;

/// A call: the called function, the calling function and the line number of the call.
pub type CallModel = ((Seq<u8>, Seq<u8>), (Seq<u8>, Seq<u8>), usize);

/// The calls in the lines of the function `caller`, in the order of the lines.
pub open spec fn calls_in<'m>(caller: (Seq<u8>, Seq<u8>), lines: Seq<(usize, String, Line<'m>)>) -> Seq<CallModel>
    decreases lines.len(),
{
    if lines.len() == 0 {
        Seq::empty()
    } else {
        let before = calls_in(caller, lines.drop_last());
        match lines.last().2 {
            Line::FunctionCall { name, .. } => before.push((name.model_of(), caller, lines.last().0)),
            _ => before,
        }
    }
}

/// The calls in the functions `contents`, function by function.
pub open spec fn call_tree_spec<'m>(contents: Seq<(ResourceLocation, Vec<(usize, String, Line<'m>)>)>) -> Seq<CallModel>
    decreases contents.len(),
{
    if contents.len() == 0 {
        Seq::empty()
    } else {
        call_tree_spec(contents.drop_last()) + calls_in(contents.last().0.model_of(), contents.last().1@)
    }
}

/// The values of calls.
pub open spec fn calls_model(v: Seq<(ResourceLocation, ResourceLocation, usize)>) -> Seq<CallModel> {
    Seq::new(v.len(), |i: int| (v[i].0.model_of(), v[i].1.model_of(), v[i].2))
}

/// Adds the calls in the lines of `caller` to `calls`.
fn add_calls<'m>(calls: &mut Vec<(ResourceLocation, ResourceLocation, usize)>, caller: &ResourceLocation, lines: &Vec<(usize, String, Line<'m>)>)
    ensures
        calls_model(final(calls)@) == calls_model(old(calls)@) + calls_in(caller.model_of(), lines@),
{
    let ghost start = calls_model(calls@);
    let mut i: usize = 0;
    proof {
        assert(lines@.take(0) =~= Seq::<(usize, String, Line<'m>)>::empty());
        assert(start + Seq::<CallModel>::empty() =~= start);
    }
    while i < lines.len()
        invariant
            i <= lines@.len(),
            calls_model(calls@) == start + calls_in(caller.model_of(), lines@.take(i as int)),
        decreases lines@.len() - i,
    {
        let ghost before = calls@;
        proof {
            assert(lines@.take(i + 1).drop_last() =~= lines@.take(i as int));
            assert(lines@.take(i + 1).last() == lines@[i as int]);
        }
        match &lines[i].2 {
            Line::FunctionCall { name, .. } => {
                calls.push((name.clone(), caller.clone(), lines[i].0));
                proof {
                    assert(calls_model(calls@) =~= calls_model(before).push(
                        (name.model_of(), caller.model_of(), lines@[i as int].0),
                    ));
                }
            },
            _ => {},
        }
        i = i + 1;
    }
    proof {
        assert(lines@.take(i as int) =~= lines@);
    }
}

/// The calls in the functions `fn_contents`: the called function, the calling function and the
/// line number of each call, function by function and line by line.
pub fn create_call_tree<'m>(fn_contents: &[(ResourceLocation, Vec<(usize, String, Line<'m>)>)]) -> (res: Vec<(ResourceLocation, ResourceLocation, usize)>)
    ensures
        calls_model(res@) == call_tree_spec(fn_contents@),
{
    let mut calls: Vec<(ResourceLocation, ResourceLocation, usize)> = Vec::new();
    let mut k: usize = 0;
    proof {
        assert(calls_model(calls@) =~= Seq::<CallModel>::empty());
        assert(fn_contents@.take(0) =~= Seq::<(ResourceLocation, Vec<(usize, String, Line<'m>)>)>::empty());
    }
    while k < fn_contents.len()
        invariant
            k <= fn_contents@.len(),
            calls_model(calls@) == call_tree_spec(fn_contents@.take(k as int)),
        decreases fn_contents@.len() - k,
    {
        add_calls(&mut calls, &fn_contents[k].0, &fn_contents[k].1);
        proof {
            assert(fn_contents@.take(k + 1).drop_last() =~= fn_contents@.take(k as int));
        }
        k = k + 1;
    }
    proof {
        assert(fn_contents@.take(k as int) =~= fn_contents@);
    }
    calls
}

/// The callers of `function` among the calls `calls`, with the line numbers of the calls.
pub open spec fn callers_spec(calls: Seq<CallModel>, function: (Seq<u8>, Seq<u8>)) -> Seq<((Seq<u8>, Seq<u8>), usize)>
    decreases calls.len(),
{
    if calls.len() == 0 {
        Seq::empty()
    } else {
        let before = callers_spec(calls.drop_last(), function);
        if calls.last().0 == function {
            before.push((calls.last().1, calls.last().2))
        } else {
            before
        }
    }
}

/// The values of callers.
pub open spec fn callers_model(v: Seq<(ResourceLocation, usize)>) -> Seq<((Seq<u8>, Seq<u8>), usize)> {
    Seq::new(v.len(), |i: int| (v[i].0.model_of(), v[i].1))
}

/// The callers of `function` in `call_tree`, in its order, with the line numbers of the calls.
pub fn callers_of(call_tree: &[(ResourceLocation, ResourceLocation, usize)], function: &ResourceLocation) -> (res: Vec<(ResourceLocation, usize)>)
    ensures
        callers_model(res@) == callers_spec(calls_model(call_tree@), function.model_of()),
{
    let ghost all = calls_model(call_tree@);
    let mut callers: Vec<(ResourceLocation, usize)> = Vec::new();
    let mut k: usize = 0;
    proof {
        assert(callers_model(callers@) =~= Seq::<((Seq<u8>, Seq<u8>), usize)>::empty());
        assert(all.take(0) =~= Seq::<CallModel>::empty());
    }
    while k < call_tree.len()
        invariant
            all == calls_model(call_tree@),
            k <= call_tree@.len(),
            callers_model(callers@) == callers_spec(all.take(k as int), function.model_of()),
        decreases call_tree@.len() - k,
    {
        proof {
            assert(all.take(k + 1).drop_last() =~= all.take(k as int));
            assert(all.take(k + 1).last() == all[k as int]);
        }
        let ghost before = callers@;
        if call_tree[k].0 == *function {
            callers.push((call_tree[k].1.clone(), call_tree[k].2));
            proof {
                assert(callers_model(callers@) =~= callers_model(before).push(
                    (all[k as int].1, all[k as int].2),
                ));
            }
        }
        k = k + 1;
    }
    proof {
        assert(all.take(k as int) =~= all);
    }
    callers
}

/// No text comes after the next one in byte order.
pub open spec fn texts_sorted(s: Seq<Seq<u8>>) -> bool {
    forall|i: int| 0 <= i < s.len() - 1 ==> !bytes_lt(#[trigger] s[i + 1], s[i])
}

/// Inserts `x` into the sorted `v` after the texts that do not come after it.
fn insert_sorted(v: &mut Vec<String>, x: String)
    requires
        texts_sorted(strings_model(old(v)@)),
    ensures
        texts_sorted(strings_model(final(v)@)),
        strings_model(final(v)@).to_multiset() == strings_model(old(v)@).to_multiset().insert(
            string_bytes(&x),
        ),
{
    let ghost m = strings_model(v@);
    let ghost k = string_bytes(&x);
    let mut i: usize = 0;
    while i < v.len() && !str_lt(x.as_str(), v[i].as_str())
        invariant
            m == strings_model(v@),
            texts_sorted(m),
            k == string_bytes(&x),
            i <= v@.len(),
            i > 0 ==> !bytes_lt(k, m[i - 1]),
        decreases v@.len() - i,
    {
        i = i + 1;
    }
    proof {
        if i < m.len() {
            lemma_bytes_lt_asymmetric(k, m[i as int]);
        }
    }
    v.insert(i, x);
    proof {
        let n = strings_model(v@);
        assert(n =~= m.insert(i as int, k));
        assert forall|l: int| 0 <= l < n.len() - 1 implies !bytes_lt(#[trigger] n[l + 1], n[l]) by {
            if l < i - 1 {
                assert(n[l] == m[l] && n[l + 1] == m[l + 1]);
            } else if l == i - 1 {
                assert(n[l] == m[l] && n[l + 1] == k);
            } else if l == i {
                assert(n[l] == k && n[l + 1] == m[i as int]);
                assert(bytes_lt(k, m[i as int]));
            } else {
                assert(n[l] == m[l - 1] && n[l + 1] == m[l]);
                let a = l - 1;
                assert(!bytes_lt(m[a + 1], m[a]));
            }
        }
        vstd::seq_lib::to_multiset_insert(m, i as int, k);
    }
}

/// The strings `v` in byte order.
pub fn sort_strings(v: Vec<String>) -> (res: Vec<String>)
    ensures
        texts_sorted(strings_model(res@)),
        strings_model(res@).to_multiset() == strings_model(v@).to_multiset(),
{
    let ghost all = strings_model(v@);
    let mut sorted: Vec<String> = Vec::new();
    let mut i: usize = 0;
    proof {
        assert(strings_model(sorted@) =~= Seq::<Seq<u8>>::empty());
        assert(all.take(0) =~= Seq::<Seq<u8>>::empty());
    }
    while i < v.len()
        invariant
            all == strings_model(v@),
            i <= v@.len(),
            texts_sorted(strings_model(sorted@)),
            strings_model(sorted@).to_multiset() == all.take(i as int).to_multiset(),
        decreases v@.len() - i,
    {
        let x = v[i].clone();
        proof {
            assert(string_bytes(&x) == all[i as int]);
            assert(all.take(i + 1) =~= all.take(i as int).push(all[i as int]));
        }
        insert_sorted(&mut sorted, x);
        i = i + 1;
    }
    proof {
        assert(all.take(i as int) =~= all);
    }
    sorted
}

/// The command by which a function returns to the caller `caller` at the line `line_number`,
/// before its placeholders are replaced.
pub open spec fn return_case_template(caller: (Seq<u8>, Seq<u8>), line_number: usize) -> Seq<u8> {
    let (ns, path) = caller;
    "execute if entity @s[tag=-ns-+".spec_bytes() + ns + "+".spec_bytes() + replace_spec(
        path,
        seq!['/' as u8],
        seq!['+' as u8],
    ) + "+".spec_bytes() + decimal(line_number as nat) + "] run function -ns-:".spec_bytes() + ns
        + "/".spec_bytes() + path + "/continue_current_iteration_at_".spec_bytes() + decimal(
        line_number as nat,
    ) + "_function".spec_bytes()
}

/// The command by which a function returns to `caller` at the line `line_number`, with the
/// placeholders replaced by `engine`.
pub fn return_case(engine: &TemplateEngine, caller: &ResourceLocation, line_number: usize) -> (res: String)
    ensures
        string_bytes(&res) == expand_all(
            expand_all(return_case_template(caller.model_of(), line_number), engine.borrowed()),
            engine.owned(),
        ),
{
    let ns = caller.namespace();
    let path = caller.path();
    let tag = replace_char(path, '/', '+');
    let line = usize_to_string(line_number);
    let parts = [
        "execute if entity @s[tag=-ns-+",
        ns,
        "+",
        tag.as_str(),
        "+",
        line.as_str(),
        "] run function -ns-:",
        ns,
        "/",
        path,
        "/continue_current_iteration_at_",
        line.as_str(),
        "_function",
    ];
    let command = concat_parts(&parts);
    assert(string_bytes(&command) == return_case_template(caller.model_of(), line_number)) by {
        reveal_with_fuel(concat_bytes, 14);
    }
    engine.expand(command.as_str())
}

/// The texts `parts` joined by `\n`.
pub(crate) fn join_strings(parts: &Vec<String>) -> (res: String)
    ensures
        string_bytes(&res) == join_lines(strings_model(parts@)),
{
    let ghost m = strings_model(parts@);
    let mut res = String::new();
    let mut i: usize = 0;
    proof {
        assert(m.take(0) =~= Seq::<Seq<u8>>::empty());
        assert(string_bytes(&res) =~= Seq::<u8>::empty());
        reveal_strlit("\n");
        crate::text::lemma_ascii_text("\n");
        assert("\n".spec_bytes() =~= seq!['\n' as u8]);
    }
    while i < parts.len()
        invariant
            m == strings_model(parts@),
            i <= parts@.len(),
            string_bytes(&res) == join_lines(m.take(i as int)),
            "\n".spec_bytes() == seq!['\n' as u8],
        decreases parts@.len() - i,
    {
        let ghost r0 = res@;
        if i > 0 {
            res.append("\n");
        }
        let ghost r1 = res@;
        res.append(parts[i].as_str());
        proof {
            if i > 0 {
                lemma_encode_concat(r0, "\n"@);
            }
            lemma_encode_concat(r1, parts@[i as int]@);
            let p = m.take(i + 1);
            assert(p.drop_last() =~= m.take(i as int));
            assert(p.last() == m[i as int]);
            if i == 0 {
                assert(string_bytes(&res) =~= join_lines(p));
            } else {
                assert(string_bytes(&res) =~= join_lines(p.drop_last()) + seq!['\n' as u8] + p.last());
            }
        }
        i = i + 1;
    }
    proof {
        assert(m.take(i as int) =~= m);
    }
    res
}

/// The return commands for the callers `callers`, with the placeholders replaced by `engine`.
pub open spec fn return_cases_model(engine: TemplateEngine, callers: Seq<((Seq<u8>, Seq<u8>), usize)>) -> Seq<Seq<u8>> {
    Seq::new(
        callers.len(),
        |i: int| expand_all(
            expand_all(return_case_template(callers[i].0, callers[i].1), engine.borrowed()),
            engine.owned(),
        ),
    )
}

/// The commands by which a function returns to its callers `callers`, in byte order, one per
/// line.
pub fn return_cases(engine: &TemplateEngine, callers: &[(ResourceLocation, usize)]) -> (res: String)
    ensures
        exists|s: Seq<Seq<u8>>|
            {
                &&& texts_sorted(s)
                &&& s.to_multiset() == return_cases_model(*engine, callers_model(callers@)).to_multiset()
                &&& string_bytes(&res) == join_lines(s)
            },
{
    let ghost cases_model = return_cases_model(*engine, callers_model(callers@));
    let mut cases: Vec<String> = Vec::new();
    let mut i: usize = 0;
    proof {
        assert(strings_model(cases@) =~= cases_model.take(0));
    }
    while i < callers.len()
        invariant
            cases_model == return_cases_model(*engine, callers_model(callers@)),
            i <= callers@.len(),
            strings_model(cases@) == cases_model.take(i as int),
        decreases callers@.len() - i,
    {
        let case = return_case(engine, &callers[i].0, callers[i].1);
        let ghost before = cases@;
        cases.push(case);
        proof {
            assert(callers_model(callers@)[i as int] == (callers@[i as int].0.model_of(), callers@[i as int].1));
            assert(string_bytes(&case) == cases_model[i as int]);
            assert(strings_model(cases@) =~= strings_model(before).push(string_bytes(&case)));
            assert(cases_model.take(i + 1) =~= cases_model.take(i as int).push(cases_model[i as int]));
        }
        i = i + 1;
    }
    proof {
        assert(cases_model.take(i as int) =~= cases_model);
    }
    let sorted = sort_strings(cases);
    let res = join_strings(&sorted);
    proof {
        let s = strings_model(sorted@);
        assert(texts_sorted(s) && s.to_multiset() == cases_model.to_multiset() && string_bytes(&res)
            == join_lines(s));
    }
    res
}

/// The text of the list of the functions `fn_names` of a generated datapack: their names, one
/// per line.
pub fn functions_txt(fn_names: &[ResourceLocation]) -> (res: String)
    ensures
        string_bytes(&res) == join_lines(Seq::new(fn_names@.len(), |i: int| fn_names@[i].text_of())),
{
    let ghost names = Seq::new(fn_names@.len(), |i: int| fn_names@[i].text_of());
    let mut texts: Vec<String> = Vec::new();
    let mut i: usize = 0;
    proof {
        assert(strings_model(texts@) =~= names.take(0));
    }
    while i < fn_names.len()
        invariant
            names == Seq::new(fn_names@.len(), |i: int| fn_names@[i].text_of()),
            i <= fn_names@.len(),
            strings_model(texts@) == names.take(i as int),
        decreases fn_names@.len() - i,
    {
        let text = fn_names[i].to_string();
        let ghost before = texts@;
        texts.push(text);
        proof {
            assert(strings_model(texts@) =~= strings_model(before).push(string_bytes(&text)));
            assert(names.take(i + 1) =~= names.take(i as int).push(names[i as int]));
        }
        i = i + 1;
    }
    proof {
        assert(names.take(i as int) =~= names);
    }
    join_strings(&texts)
}

} // verus!

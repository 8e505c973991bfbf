//! Runnable-block variants: the decoded `data-variants` entries with their languages
//! trimmed and blank-language entries dropped, the display name of a fence alias, and the
//! values grid seeded from an authored test case.

use vstd::prelude::*;

use crate::text::{
    append, char_to_upper, chars_of, chars_of_string, lit, lowercased, same, slice,
    string_of, to_lower, trim, trimmed, uppercased,
};
use crate::wire::{keys_ordered, TestSpec};

verus! {

/// One decoded `{lang, source, viz?}` entry of a block's `data-variants` JSON.
pub struct RawVariant {
    pub lang: String,
    pub source: String,
    pub viz: Option<String>,
}

/// One language rendition of a runnable block.
#[derive(Debug, PartialEq, Eq)]
pub struct Variant {
    pub language: String,
    pub source: String,
    pub viz: Option<String>,
}

pub open spec fn opt_str(o: Option<String>) -> Option<Seq<char>> {
    match o {
        Some(s) => Some(s@),
        None => None,
    }
}

pub open spec fn raw_view(r: RawVariant) -> (Seq<char>, Seq<char>, Option<Seq<char>>) {
    (r.lang@, r.source@, opt_str(r.viz))
}

pub open spec fn variant_view(v: Variant) -> (Seq<char>, Seq<char>, Option<Seq<char>>) {
    (v.language@, v.source@, opt_str(v.viz))
}

pub open spec fn raw_views(v: Seq<RawVariant>) -> Seq<(Seq<char>, Seq<char>, Option<Seq<char>>)> {
    v.map_values(|r: RawVariant| raw_view(r))
}

pub open spec fn variant_views(v: Seq<Variant>) -> Seq<(Seq<char>, Seq<char>, Option<Seq<char>>)> {
    v.map_values(|x: Variant| variant_view(x))
}

/// The entries with their language trimmed, blank-language entries dropped, order kept.
pub open spec fn kept_variants(raw: Seq<(Seq<char>, Seq<char>, Option<Seq<char>>)>) -> Seq<
    (Seq<char>, Seq<char>, Option<Seq<char>>),
>
    decreases raw.len(),
{
    if raw.len() == 0 {
        Seq::empty()
    } else {
        let r = kept_variants(raw.drop_last());
        let v = raw.last();
        let l = trim(v.0);
        if l.len() > 0 {
            r.push((l, v.1, v.2))
        } else {
            r
        }
    }
}

/// Malformed (`None`) or empty after dropping blank languages → `None`: the block is skipped.
pub open spec fn spec_parse_variants(raw: Option<Seq<(Seq<char>, Seq<char>, Option<Seq<char>>)>>) -> Option<
    Seq<(Seq<char>, Seq<char>, Option<Seq<char>>)>,
> {
    match raw {
        None => None,
        Some(r) => {
            let k = kept_variants(r);
            if k.len() == 0 {
                None
            } else {
                Some(k)
            }
        },
    }
}

pub fn clone_opt(o: &Option<String>) -> (r: Option<String>)
    ensures
        opt_str(r) == opt_str(*o),
{
    match o {
        Some(s) => Some(s.clone()),
        None => None,
    }
}

/// Decode the block's variants. `raw` is the decoded `data-variants` JSON, `None` when it was
/// malformed. Malformed or empty → `None` (the block is skipped, never a crash).
pub fn parse_variants(raw: Option<Vec<RawVariant>>) -> (r: Option<Vec<Variant>>)
    ensures
        match r {
            Some(v) => spec_parse_variants(match raw {
                Some(x) => Some(raw_views(x@)),
                None => None,
            }) == Some(variant_views(v@)),
            None => spec_parse_variants(match raw {
                Some(x) => Some(raw_views(x@)),
                None => None,
            }) is None,
        },
{
    let raw = match raw {
        None => {
            return None;
        },
        Some(r) => r,
    };
    let ghost rv = raw_views(raw@);
    let mut out: Vec<Variant> = Vec::new();
    let mut i: usize = 0;
    while i < raw.len()
        invariant
            i <= raw.len(),
            rv == raw_views(raw@),
            variant_views(out@) == kept_variants(rv.take(i as int)),
        decreases raw.len() - i,
    {
        assert(rv.take(i + 1).drop_last() =~= rv.take(i as int));
        assert(rv[i as int] == raw_view(raw@[i as int]));
        let lang = trimmed(&chars_of_string(&raw[i].lang));
        if lang.len() > 0 {
            let v = Variant {
                language: string_of(&lang),
                source: raw[i].source.clone(),
                viz: clone_opt(&raw[i].viz),
            };
            let ghost prev = variant_views(out@);
            let ghost vv = variant_view(v);
            out.push(v);
            assert(variant_views(out@) =~= prev.push(vv));
        }
        i = i + 1;
    }
    assert(rv.take(raw.len() as int) =~= rv);
    if out.len() == 0 {
        None
    } else {
        Some(out)
    }
}

/// Display name for a fence alias.
pub open spec fn spec_display_lang(alias: Seq<char>) -> Seq<char> {
    let l = lowercased(alias);
    if l == "cpp"@ || l == "c++"@ {
        "C++"@
    } else if l == "csharp"@ {
        "C#"@
    } else if l.len() == 0 {
        Seq::empty()
    } else {
        uppercased(l[0]) + l.skip(1)
    }
}

pub fn display_lang(alias: &str) -> (out: String)
    ensures
        out@ == spec_display_lang(alias@),
{
    let l = to_lower(&chars_of(alias));
    if same(&l, &lit("cpp")) || same(&l, &lit("c++")) {
        return string_of(&lit("C++"));
    }
    if same(&l, &lit("csharp")) {
        return string_of(&lit("C#"));
    }
    if l.len() == 0 {
        return String::new();
    }
    let mut out = char_to_upper(l[0]);
    let rest = slice(&l, 1, l.len());
    assert(rest@ =~= l@.skip(1));
    append(&mut out, &rest);
    string_of(&out)
}

pub open spec fn arg_views(v: Seq<(String, String)>) -> Seq<(Seq<char>, Seq<char>)> {
    v.map_values(|p: (String, String)| (p.0@, p.1@))
}

/// Seed the values grid from an authored case: its argument values, or nothing when the case
/// does not exist.
pub fn seed_values(spec: &TestSpec, case_index: usize) -> (out: Vec<(String, String)>)
    ensures
        case_index < spec.cases@.len() ==> arg_views(out@) == arg_views(spec.cases@[case_index as int].args@),
        case_index >= spec.cases@.len() ==> out@.len() == 0,
        case_index < spec.cases@.len() && keys_ordered(arg_views(spec.cases@[case_index as int].args@))
            ==> keys_ordered(arg_views(out@)),
{
    let mut out: Vec<(String, String)> = Vec::new();
    if case_index >= spec.cases.len() {
        return out;
    }
    let args = &spec.cases[case_index].args;
    let mut i: usize = 0;
    while i < args.len()
        invariant
            i <= args.len(),
            arg_views(out@) == arg_views(args@).take(i as int),
        decreases args.len() - i,
    {
        let ghost prev = arg_views(out@);
        let a = args[i].0.clone();
        let b = args[i].1.clone();
        assert(a@ == args@[i as int].0@);
        assert(b@ == args@[i as int].1@);
        out.push((a, b));
        assert(arg_views(out@) =~= prev.push((args@[i as int].0@, args@[i as int].1@)));
        i = i + 1;
        assert(arg_views(out@) =~= arg_views(args@).take(i as int));
    }
    assert(arg_views(args@).take(args.len() as int) =~= arg_views(args@));
    out
}

/// The active case's expected stdout, when declared.
pub fn expected_for(spec: &TestSpec, case_index: usize) -> (out: Option<String>)
    ensures
        case_index < spec.cases@.len() ==> opt_str(out) == opt_str(spec.cases@[case_index as int].expected),
        case_index >= spec.cases@.len() ==> out is None,
{
    if case_index < spec.cases.len() {
        clone_opt(&spec.cases[case_index].expected)
    } else {
        None
    }
}


/// The kept variants are the entries whose trimmed language is not blank, in their order, each
/// with its language trimmed and its source and visualisation as they came.
pub proof fn lemma_kept_variants_filter(raw: Seq<(Seq<char>, Seq<char>, Option<Seq<char>>)>)
    ensures
        kept_variants(raw) == raw.filter(|v: (Seq<char>, Seq<char>, Option<Seq<char>>)| trim(v.0).len() > 0).map_values(
            |v: (Seq<char>, Seq<char>, Option<Seq<char>>)| (trim(v.0), v.1, v.2),
        ),
    decreases raw.len(),
{
    reveal(Seq::filter);
    if raw.len() > 0 {
        lemma_kept_variants_filter(raw.drop_last());
    }
    assert(kept_variants(raw) =~= raw.filter(|v: (Seq<char>, Seq<char>, Option<Seq<char>>)| trim(v.0).len() > 0).map_values(
        |v: (Seq<char>, Seq<char>, Option<Seq<char>>)| (trim(v.0), v.1, v.2),
    ));
}

} // verus!

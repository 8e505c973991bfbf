//! The embedded practice-problem model: editorial tabs labelled from their tags, and the
//! `time=O(…) space=O(…)` claims a solution fence's info string carries.

use vstd::prelude::*;

use crate::catalog::editorial::is_ascii_digit;
use crate::execution::blocks::{
    parse_variants, raw_views, spec_parse_variants, variant_views, RawVariant, Variant,
};
use crate::text::{
    append, capitalize, char_to_upper, chars_of, chars_of_string, decimal, decimal_of, drop_empty,
    find, find_in, has_prefix, join, join_with, lemma_sum_lens_take, lemma_words_total, lit, same,
    seqs, slice, split_char, split_on, starts_with, string_of, sum_lens, trim, trimmed, words,
    words_of,
};
use crate::wire::TestSpec;

verus! {

/// Net parenthesis depth of a piece of text: `(` counts up, `)` counts down.
pub open spec fn paren_depth(s: Seq<char>) -> int
    decreases s.len(),
{
    if s.len() == 0 {
        0
    } else {
        paren_depth(s.drop_last()) + if s.last() == '(' {
            1int
        } else if s.last() == ')' {
            -1int
        } else {
            0int
        }
    }
}

pub proof fn lemma_paren_depth_bounds(s: Seq<char>)
    ensures
        -(s.len() as int) <= paren_depth(s) <= s.len(),
    decreases s.len(),
{
    if s.len() > 0 {
        lemma_paren_depth_bounds(s.drop_last());
    }
}

fn depth_of(t: &Vec<char>) -> (d: i128)
    ensures
        d == paren_depth(t@),
        -(t.len() as int) <= d <= t.len(),
{
    let mut d: i128 = 0;
    let mut i: usize = 0;
    while i < t.len()
        invariant
            i <= t.len(),
            d == paren_depth(t@.take(i as int)),
            -(i as int) <= d <= i,
        decreases t.len() - i,
    {
        assert(t@.take(i + 1).drop_last() =~= t@.take(i as int));
        if t[i] == '(' {
            d = d + 1;
        } else if t[i] == ')' {
            d = d - 1;
        }
        i = i + 1;
    }
    assert(t@.take(t.len() as int) =~= t@);
    d
}

/// `str::split_once(sep)`.
pub open spec fn split_once(s: Seq<char>, sep: Seq<char>) -> Option<(Seq<char>, Seq<char>)> {
    match find(s, sep) {
        Some(k) => Some((s.take(k), s.skip(k + sep.len()))),
        None => None,
    }
}

/// The claim parser's state after some tokens: finished `(name, value)` pairs and the claim
/// still swallowing tokens because its parentheses are open.
pub struct ClaimScan {
    pub out: Seq<(Seq<char>, Seq<char>)>,
    pub pend: Option<(Seq<char>, Seq<char>, int)>,
}

pub open spec fn is_claim_name(name: Seq<char>) -> bool {
    name == "time"@ || name == "space"@
}

pub open spec fn claim_step(st: ClaimScan, t: Seq<char>) -> ClaimScan {
    match st.pend {
        Some(p) => {
            let v2 = p.1 + " "@ + t;
            let d2 = p.2 + paren_depth(t);
            if d2 > 0 {
                ClaimScan { out: st.out, pend: Some((p.0, v2, d2)) }
            } else {
                ClaimScan { out: st.out.push((p.0, v2)), pend: None }
            }
        },
        None => match split_once(t, "="@) {
            Some(nv) => if is_claim_name(nv.0) {
                let d = paren_depth(nv.1);
                if d > 0 {
                    ClaimScan { out: st.out, pend: Some((nv.0, nv.1, d)) }
                } else {
                    ClaimScan { out: st.out.push((nv.0, nv.1)), pend: None }
                }
            } else {
                st
            },
            None => st,
        },
    }
}

pub open spec fn claim_scan(toks: Seq<Seq<char>>) -> ClaimScan
    decreases toks.len(),
{
    if toks.len() == 0 {
        ClaimScan { out: Seq::empty(), pend: None }
    } else {
        claim_step(claim_scan(toks.drop_last()), toks.last())
    }
}

/// The `time=`/`space=` claims of a fence info string, in order; a value whose parentheses are
/// open pulls in the following whitespace-separated tokens (joined by one space) until they
/// balance or the tokens run out.
pub open spec fn spec_solution_complexities(meta: Seq<char>) -> Seq<(Seq<char>, Seq<char>)> {
    let st = claim_scan(words(meta));
    match st.pend {
        Some(p) => st.out.push((p.0, p.1)),
        None => st.out,
    }
}

pub open spec fn pair_views(v: Seq<(String, String)>) -> Seq<(Seq<char>, Seq<char>)> {
    v.map_values(|p: (String, String)| (p.0@, p.1@))
}

pub open spec fn cpair_views(v: Seq<(Vec<char>, Vec<char>)>) -> Seq<(Seq<char>, Seq<char>)> {
    v.map_values(|p: (Vec<char>, Vec<char>)| (p.0@, p.1@))
}

/// `split_once` on character vectors.
pub fn split_once_at(s: &Vec<char>, sep: &Vec<char>) -> (r: Option<(Vec<char>, Vec<char>)>)
    ensures
        r matches Some(p) ==> split_once(s@, sep@) == Some((p.0@, p.1@)),
        r is None ==> split_once(s@, sep@) is None,
{
    match find_in(s, sep) {
        Some(k) => {
            proof {
                crate::text::lemma_find_from_found(s@, sep@, 0);
            }
            assert(crate::text::matches_at(s@, sep@, k as int));
            assert(k + sep@.len() <= s@.len());
            assert(k + sep.len() <= s.len());
            let a = slice(s, 0, k);
            let b = slice(s, k + sep.len(), s.len());
            assert(a@ =~= s@.take(k as int));
            assert(b@ =~= s@.skip(k + sep.len()));
            Some((a, b))
        },
        None => None,
    }
}

/// The claims as character vectors.
pub fn claims_of(meta: &Vec<char>) -> (out: Vec<(Vec<char>, Vec<char>)>)
    ensures
        cpair_views(out@) == spec_solution_complexities(meta@),
{
    let toks = words_of(meta);
    let ghost ts = seqs(toks@);
    proof {
        lemma_words_total(meta@);
    }
    let eq = lit("=");
    let time = lit("time");
    let space = lit("space");
    let space_sep = lit(" ");
    let mut out: Vec<(Vec<char>, Vec<char>)> = Vec::new();
    let mut pend: Option<(Vec<char>, Vec<char>, i128)> = None;
    let mut j: usize = 0;
    while j < toks.len()
        invariant
            j <= toks.len(),
            ts == seqs(toks@),
            ts == words(meta@),
            sum_lens(ts) <= meta.len(),
            eq@ == "="@,
            time@ == "time"@,
            space@ == "space"@,
            space_sep@ == " "@,
            claim_scan(ts.take(j as int)).out == cpair_views(out@),
            claim_scan(ts.take(j as int)).pend == match pend {
                Some(p) => Some((p.0@, p.1@, p.2 as int)),
                None => None::<(Seq<char>, Seq<char>, int)>,
            },
            pend matches Some(p) ==> 0 < p.2 <= sum_lens(ts.take(j as int)),
        decreases toks.len() - j,
    {
        let t = &toks[j];
        assert(ts[j as int] == t@);
        assert(ts.take(j + 1).drop_last() =~= ts.take(j as int));
        assert(ts.take(j + 1).last() == t@);
        proof {
            lemma_sum_lens_take(ts, j + 1);
        }
        assert(sum_lens(ts.take(j + 1)) == sum_lens(ts.take(j as int)) + t.len());
        let dt = depth_of(t);
        match pend {
            Some(p) => {
                let (name, mut value, d) = p;
                crate::text::append(&mut value, &space_sep);
                crate::text::append(&mut value, t);
                let d2 = d + dt;
                if d2 > 0 {
                    pend = Some((name, value, d2));
                } else {
                    let ghost prev = cpair_views(out@);
                    out.push((name, value));
                    assert(cpair_views(out@) =~= prev.push((name@, value@)));
                    pend = None;
                }
            },
            None => {
                match split_once_at(t, &eq) {
                    Some(nv) => {
                        let (name, value) = nv;
                        if same(&name, &time) || same(&name, &space) {
                            let d = depth_of(&value);
                            proof {
                                crate::text::lemma_find_from_found(t@, eq@, 0);
                            }
                            assert(value.len() <= t.len());
                            if d > 0 {
                                pend = Some((name, value, d));
                            } else {
                                let ghost prev = cpair_views(out@);
                                out.push((name, value));
                                assert(cpair_views(out@) =~= prev.push((name@, value@)));
                            }
                        }
                    },
                    None => {},
                }
            },
        }
        j = j + 1;
    }
    assert(ts.take(toks.len() as int) =~= ts);
    match pend {
        Some(p) => {
            let (name, value, _d) = p;
            let ghost prev = cpair_views(out@);
            out.push((name, value));
            assert(cpair_views(out@) =~= prev.push((name@, value@)));
        },
        None => {},
    }
    out
}

/// A solution fence's meta carries `time=O(…) space=O(…)` claims, extracted here. A value
/// may contain spaces (`time=O(log N)`, `time=O(min(N1, N2))`) — following tokens are pulled
/// in until its parentheses balance, so whitespace inside the O-group never truncates it.
pub fn solution_complexities(meta: &str) -> (out: Vec<(String, String)>)
    ensures
        pair_views(out@) == spec_solution_complexities(meta@),
{
    let claims = claims_of(&chars_of(meta));
    let mut out: Vec<(String, String)> = Vec::new();
    let mut i: usize = 0;
    while i < claims.len()
        invariant
            i <= claims.len(),
            pair_views(out@) == cpair_views(claims@).take(i as int),
        decreases claims.len() - i,
    {
        let ghost prev = pair_views(out@);
        let a = string_of(&claims[i].0);
        let b = string_of(&claims[i].1);
        assert(cpair_views(claims@)[i as int] == (a@, b@));
        out.push((a, b));
        assert(pair_views(out@) =~= prev.push((a@, b@)));
        i = i + 1;
        assert(pair_views(out@) =~= cpair_views(claims@).take(i as int));
    }
    assert(cpair_views(claims@).take(claims.len() as int) =~= cpair_views(claims@));
    out
}

// ─────────────────────────────────────────────────────────────────────────────
// APPROACH TABS
// ─────────────────────────────────────────────────────────────────────────────

/// One editorial approach: the tab label ("Brute Force" · "Optimal" · "Editorial") + its
/// markdown.
#[derive(Debug, PartialEq, Eq)]
pub struct Approach {
    pub label: String,
    pub md: String,
}

/// One decoded `data-editorials` entry (absent fields decode as empty).
pub struct EditorialWire {
    pub tag: String,
    pub md: String,
}

/// One authored practice problem: the statement, the starter workbench, the editorials.
#[derive(Debug, PartialEq)]
pub struct PracticeSpec {
    pub problem_md: String,
    pub variants: Vec<Variant>,
    pub spec: Option<TestSpec>,
    pub editorials: Vec<Approach>,
}

/// The last position of `c` in `s`.
pub open spec fn rfind_char(s: Seq<char>, c: char) -> Option<int>
    decreases s.len(),
{
    if s.len() == 0 {
        None
    } else if s.last() == c {
        Some(s.len() - 1)
    } else {
        rfind_char(s.drop_last(), c)
    }
}

pub open spec fn all_digits(s: Seq<char>) -> bool {
    forall|i: int| 0 <= i < s.len() ==> is_ascii_digit(#[trigger] s[i])
}

/// A kind with its trailing `-<n>` removed (an empty `<n>` counts as a number too).
pub open spec fn kind_stem(kind: Seq<char>) -> Seq<char> {
    match rfind_char(kind, '-') {
        Some(k) => if all_digits(kind.skip(k + 1)) {
            kind.take(k)
        } else {
            kind
        },
        None => kind,
    }
}

/// The human kind behind a tag: strip `approach-`, strip a trailing `-<n>`, title-case the
/// `-`-separated words; a bare or unrecognised tag is "Editorial".
pub open spec fn spec_approach_kind(tag: Seq<char>) -> Seq<char> {
    if !starts_with(tag, "approach-"@) {
        "Editorial"@
    } else {
        let stem = kind_stem(tag.skip("approach-"@.len() as int));
        let ws = drop_empty(split_char(stem, '-')).map_values(|w: Seq<char>| capitalize(w));
        if ws.len() == 0 {
            "Editorial"@
        } else {
            join(ws, " "@)
        }
    }
}

fn rfind_dash(s: &Vec<char>) -> (r: Option<usize>)
    ensures
        r matches Some(k) ==> rfind_char(s@, '-') == Some(k as int) && k < s.len(),
        r is None ==> rfind_char(s@, '-') is None,
{
    let mut j = s.len();
    assert(s@.take(s.len() as int) =~= s@);
    while j > 0
        invariant
            j <= s.len(),
            rfind_char(s@, '-') == rfind_char(s@.take(j as int), '-'),
        decreases j,
    {
        assert(s@.take(j as int).drop_last() =~= s@.take(j - 1));
        if s[j - 1] == '-' {
            return Some(j - 1);
        }
        j = j - 1;
    }
    None
}

fn approach_kind_chars(tag: &Vec<char>) -> (out: Vec<char>)
    ensures
        out@ == spec_approach_kind(tag@),
{
    let prefix = lit("approach-");
    if !has_prefix(tag, &prefix) {
        return lit("Editorial");
    }
    let kind = slice(tag, prefix.len(), tag.len());
    assert(kind@ =~= tag@.skip("approach-"@.len() as int));
    let stem = match rfind_dash(&kind) {
        Some(k) => {
            let mut all = true;
            let mut m = k + 1;
            while m < kind.len()
                invariant_except_break
                    all,
                    forall|q: int| k + 1 <= q < m ==> is_ascii_digit(#[trigger] kind@[q]),
                invariant
                    k + 1 <= m <= kind.len(),
                ensures
                    all == all_digits(kind@.skip(k + 1)),
                decreases kind.len() - m,
            {
                if !('0' <= kind[m] && kind[m] <= '9') {
                    all = false;
                    assert(!is_ascii_digit(kind@.skip(k + 1)[m - (k + 1)]));
                    break;
                }
                m = m + 1;
            }
            if all {
                let st = slice(&kind, 0, k);
                assert(st@ =~= kind@.take(k as int));
                st
            } else {
                slice(&kind, 0, kind.len())
            }
        },
        None => slice(&kind, 0, kind.len()),
    };
    assert(kind@.subrange(0, kind.len() as int) =~= kind@);
    assert(stem@ == kind_stem(kind@));
    let pieces = split_on(&stem, '-');
    let mut words: Vec<Vec<char>> = Vec::new();
    let mut i: usize = 0;
    let ghost pv = seqs(pieces@);
    while i < pieces.len()
        invariant
            i <= pieces.len(),
            pv == seqs(pieces@),
            seqs(words@) == drop_empty(pv.take(i as int)).map_values(|w: Seq<char>| capitalize(w)),
        decreases pieces.len() - i,
    {
        assert(pv.take(i + 1).drop_last() =~= pv.take(i as int));
        assert(pv[i as int] == pieces@[i as int]@);
        if pieces[i].len() > 0 {
            let mut w = char_to_upper(pieces[i][0]);
            let rest = slice(&pieces[i], 1, pieces[i].len());
            assert(rest@ =~= pieces@[i as int]@.skip(1));
            append(&mut w, &rest);
            let ghost prev = seqs(words@);
            let ghost wv = w@;
            words.push(w);
            assert(seqs(words@) =~= prev.push(wv));
            assert(drop_empty(pv.take(i + 1)) == drop_empty(pv.take(i as int)).push(pv[i as int]));
            assert(drop_empty(pv.take(i + 1)).map_values(|w: Seq<char>| capitalize(w)) =~= drop_empty(
                pv.take(i as int),
            ).map_values(|w: Seq<char>| capitalize(w)).push(capitalize(pv[i as int])));
        }
        i = i + 1;
    }
    assert(pv.take(pieces.len() as int) =~= pv);
    if words.len() == 0 {
        lit("Editorial")
    } else {
        join_with(&words, &lit(" "))
    }
}

/// `approach-brute-force-1` → "Brute Force"; a bare/unrecognised tag → "Editorial".
pub fn approach_kind(tag: &str) -> (out: String)
    ensures
        out@ == spec_approach_kind(tag@),
{
    string_of(&approach_kind_chars(&chars_of(tag)))
}

/// How many of the first `n` kinds equal `k`.
pub open spec fn count_kind(ks: Seq<Seq<char>>, k: Seq<char>, n: int) -> nat
    decreases n,
{
    if n <= 0 || n > ks.len() {
        0
    } else {
        count_kind(ks, k, n - 1) + if ks[n - 1] == k {
            1nat
        } else {
            0nat
        }
    }
}

/// How many of the first `n` entries are kept (non-blank markdown) and of kind `k`.
pub open spec fn kept_kind(mds: Seq<Seq<char>>, ks: Seq<Seq<char>>, k: Seq<char>, n: int) -> nat
    decreases n,
{
    if n <= 0 || n > ks.len() || n > mds.len() {
        0
    } else {
        kept_kind(mds, ks, k, n - 1) + if ks[n - 1] == k && trim(mds[n - 1]).len() > 0 {
            1nat
        } else {
            0nat
        }
    }
}

/// The tab label of entry `i`: its kind, numbered (1-based, among kept entries) only when
/// the same kind occurs more than once among all entries.
pub open spec fn label_for(mds: Seq<Seq<char>>, ks: Seq<Seq<char>>, i: int) -> Seq<char> {
    let k = ks[i];
    if count_kind(ks, k, ks.len() as int) > 1 {
        k + " "@ + decimal(kept_kind(mds, ks, k, i) + 1)
    } else {
        k
    }
}

/// The kept entries of the first `n`, labelled, in authoring order.
pub open spec fn labels_upto(mds: Seq<Seq<char>>, ks: Seq<Seq<char>>, n: int) -> Seq<
    (Seq<char>, Seq<char>),
>
    decreases n,
{
    if n <= 0 || n > mds.len() {
        Seq::empty()
    } else {
        let prev = labels_upto(mds, ks, n - 1);
        if trim(mds[n - 1]).len() > 0 {
            prev.push((label_for(mds, ks, n - 1), trim(mds[n - 1])))
        } else {
            prev
        }
    }
}

pub open spec fn wire_tags(w: Seq<EditorialWire>) -> Seq<Seq<char>> {
    w.map_values(|e: EditorialWire| e.tag@)
}

pub open spec fn wire_mds(w: Seq<EditorialWire>) -> Seq<Seq<char>> {
    w.map_values(|e: EditorialWire| e.md@)
}

pub open spec fn spec_label_approaches(w: Seq<EditorialWire>) -> Seq<(Seq<char>, Seq<char>)> {
    let ks = wire_tags(w).map_values(|t: Seq<char>| spec_approach_kind(t));
    labels_upto(wire_mds(w), ks, w.len() as int)
}

pub open spec fn approach_views(v: Seq<Approach>) -> Seq<(Seq<char>, Seq<char>)> {
    v.map_values(|a: Approach| (a.label@, a.md@))
}

/// `approach-brute-force-1` → "Brute Force" (numbered only when the same kind repeats);
/// a bare/unrecognised tag → "Editorial". Blank entries drop; order is authoring order.
pub fn label_approaches(wire: &Vec<EditorialWire>) -> (out: Vec<Approach>)
    ensures
        approach_views(out@) == spec_label_approaches(wire@),
{
    let ghost ks = wire_tags(wire@).map_values(|t: Seq<char>| spec_approach_kind(t));
    let ghost mds = wire_mds(wire@);
    let mut kinds: Vec<Vec<char>> = Vec::new();
    let mut i: usize = 0;
    while i < wire.len()
        invariant
            i <= wire.len(),
            ks == wire_tags(wire@).map_values(|t: Seq<char>| spec_approach_kind(t)),
            seqs(kinds@) == ks.take(i as int),
        decreases wire.len() - i,
    {
        let k = approach_kind_chars(&chars_of_string(&wire[i].tag));
        let ghost prev = seqs(kinds@);
        let ghost kv = k@;
        assert(ks[i as int] == spec_approach_kind(wire@[i as int].tag@));
        kinds.push(k);
        assert(seqs(kinds@) =~= prev.push(kv));
        i = i + 1;
        assert(seqs(kinds@) =~= ks.take(i as int));
    }
    assert(ks.take(wire.len() as int) =~= ks);
    let mut out: Vec<Approach> = Vec::new();
    let mut i: usize = 0;
    while i < wire.len()
        invariant
            i <= wire.len(),
            kinds@.len() == wire@.len(),
            seqs(kinds@) == ks,
            ks.len() == wire@.len(),
            mds == wire_mds(wire@),
            approach_views(out@) == labels_upto(mds, ks, i as int),
        decreases wire.len() - i,
    {
        let md = trimmed(&chars_of_string(&wire[i].md));
        assert(mds[i as int] == wire@[i as int].md@);
        if md.len() > 0 {
            let kind = &kinds[i];
            assert(ks[i as int] == kind@);
            // how often this kind occurs overall, and among kept entries before this one
            let mut total: usize = 0;
            let mut before: usize = 0;
            let mut j: usize = 0;
            while j < kinds.len()
                invariant
                    j <= kinds.len(),
                    i < kinds.len(),
                    kinds@.len() == wire@.len(),
                    seqs(kinds@) == ks,
                    ks.len() == wire@.len(),
                    mds == wire_mds(wire@),
                    ks[i as int] == kind@,
                    total == count_kind(ks, kind@, j as int),
                    before == kept_kind(mds, ks, kind@, if j <= i { j as int } else { i as int }),
                    total <= j,
                    before <= j,
                    before <= i,
                decreases kinds.len() - j,
            {
                assert(ks[j as int] == kinds@[j as int]@);
                assert(mds[j as int] == wire@[j as int].md@);
                if same(&kinds[j], kind) {
                    total = total + 1;
                    if j < i && trimmed(&chars_of_string(&wire[j].md)).len() > 0 {
                        before = before + 1;
                    }
                }
                j = j + 1;
            }
            let label = if total > 1 {
                let mut l = slice(kind, 0, kind.len());
                append(&mut l, &lit(" "));
                append(&mut l, &decimal_of(before + 1));
                assert(kind@.subrange(0, kind.len() as int) =~= kind@);
                l
            } else {
                slice(kind, 0, kind.len())
            };
            assert(kind@.subrange(0, kind.len() as int) =~= kind@);
            let a = Approach { label: string_of(&label), md: string_of(&md) };
            let ghost prev = approach_views(out@);
            let ghost av = (a.label@, a.md@);
            assert(av == (label_for(mds, ks, i as int), trim(mds[i as int])));
            out.push(a);
            assert(approach_views(out@) =~= prev.push(av));
        }
        i = i + 1;
    }
    out
}

/// Decoded attribute payloads → the spec. `None` when the statement is blank or no variant
/// survives. `variants` is the decoded `data-variants` list (`None` when malformed), `spec`
/// the decoded test spec (`None` when absent or malformed), `editorials` the decoded
/// `data-editorials` list (`None` when absent or malformed, read as no editorials).
pub fn decode_practice(
    problem_md: &str,
    variants: Option<Vec<RawVariant>>,
    spec: Option<TestSpec>,
    editorials: Option<Vec<EditorialWire>>,
) -> (r: Option<PracticeSpec>)
    ensures
        r is Some <==> (trim(problem_md@).len() > 0 && spec_parse_variants(match variants {
            Some(x) => Some(raw_views(x@)),
            None => None,
        }) is Some),
        r matches Some(p) ==> {
            &&& p.problem_md@ == trim(problem_md@)
            &&& spec_parse_variants(match variants {
                Some(x) => Some(raw_views(x@)),
                None => None,
            }) == Some(variant_views(p.variants@))
            &&& p.spec == spec
            &&& approach_views(p.editorials@) == match editorials {
                Some(w) => spec_label_approaches(w@),
                None => spec_label_approaches(Seq::empty()),
            }
        },
{
    let problem = trimmed(&chars_of(problem_md));
    if problem.len() == 0 {
        return None;
    }
    let variants = match parse_variants(variants) {
        Some(v) => v,
        None => {
            return None;
        },
    };
    let wire = match editorials {
        Some(w) => w,
        None => Vec::new(),
    };
    let labelled = label_approaches(&wire);
    Some(PracticeSpec { problem_md: string_of(&problem), variants, spec, editorials: labelled })
}


/// The title a practice problem takes from the nearest heading above it: what follows
/// `Practice:` in it (or the whole heading), trimmed; with no heading, or a blank title,
/// `Your Turn`.
pub open spec fn spec_practice_title(heading: Option<Seq<char>>) -> Seq<char> {
    match heading {
        None => "Your Turn"@,
        Some(h) => {
            let t = match find(h, "Practice:"@) {
                Some(k) => trim(h.skip(k + "Practice:"@.len())),
                None => trim(h),
            };
            if t.len() == 0 {
                "Your Turn"@
            } else {
                t
            }
        },
    }
}

/// A practice problem's title, from the text of the nearest heading above it (if any).
pub fn practice_title(heading: Option<&str>) -> (out: String)
    ensures
        out@ == spec_practice_title(
            match heading {
                Some(h) => Some(h@),
                None => None,
            },
        ),
{
    let h = match heading {
        None => {
            return string_of(&lit("Your Turn"));
        },
        Some(h) => chars_of(h),
    };
    let marker = lit("Practice:");
    let t = match find_in(&h, &marker) {
        Some(k) => {
            proof {
                crate::text::lemma_find_from_found(h@, marker@, 0);
                assert(find(h@, marker@) == Some(k as int));
                assert(crate::text::matches_at(h@, marker@, k as int));
                assert(k + marker@.len() <= h@.len());
            }
            assert(k + marker.len() <= h.len());
            let tail = slice(&h, k + marker.len(), h.len());
            assert(tail@ =~= h@.skip(k + marker@.len()));
            trimmed(&tail)
        },
        None => trimmed(&h),
    };
    if t.len() == 0 {
        string_of(&lit("Your Turn"))
    } else {
        string_of(&t)
    }
}


proof fn lemma_labels_trimmed(mds: Seq<Seq<char>>, ks: Seq<Seq<char>>, n: int)
    ensures
        forall|i: int|
            0 <= i < labels_upto(mds, ks, n).len() ==> trim((#[trigger] labels_upto(mds, ks, n)[i]).1)
                == labels_upto(mds, ks, n)[i].1 && labels_upto(mds, ks, n)[i].1.len() > 0,
    decreases n,
{
    if n > 0 && n <= mds.len() {
        lemma_labels_trimmed(mds, ks, n - 1);
        crate::text::lemma_trim_idempotent(mds[n - 1]);
        let prev = labels_upto(mds, ks, n - 1);
        if trim(mds[n - 1]).len() > 0 {
            let cur = prev.push((label_for(mds, ks, n - 1), trim(mds[n - 1])));
            assert(labels_upto(mds, ks, n) == cur);
            assert forall|i: int| 0 <= i < cur.len() implies trim((#[trigger] cur[i]).1) == cur[i].1
                && cur[i].1.len() > 0 by {
                if i < prev.len() {
                    assert(cur[i] == prev[i]);
                }
            }
        } else {
            assert(labels_upto(mds, ks, n) == prev);
        }
    }
}

/// A practice problem's editorial tabs hold trimmed, non-blank markdown only.
pub proof fn lemma_editorials_trimmed(w: Seq<EditorialWire>)
    ensures
        forall|i: int|
            0 <= i < spec_label_approaches(w).len() ==> trim((#[trigger] spec_label_approaches(w)[i]).1)
                == spec_label_approaches(w)[i].1 && spec_label_approaches(w)[i].1.len() > 0,
{
    let ks = wire_tags(w).map_values(|t: Seq<char>| spec_approach_kind(t));
    lemma_labels_trimmed(wire_mds(w), ks, w.len() as int);
}


proof fn lemma_labels_upto_mds(mds: Seq<Seq<char>>, ks: Seq<Seq<char>>, n: int)
    requires
        0 <= n <= mds.len(),
    ensures
        labels_upto(mds, ks, n).map_values(|x: (Seq<char>, Seq<char>)| x.1) == mds.take(n).filter(
            |m: Seq<char>| trim(m).len() > 0,
        ).map_values(|m: Seq<char>| trim(m)),
    decreases n,
{
    reveal(Seq::filter);
    if n > 0 {
        lemma_labels_upto_mds(mds, ks, n - 1);
        assert(mds.take(n).drop_last() =~= mds.take(n - 1));
        assert(mds.take(n).last() == mds[n - 1]);
        let f = |m: Seq<char>| trim(m).len() > 0;
        let prev = labels_upto(mds, ks, n - 1);
        let fp = mds.take(n - 1).filter(f);
        if trim(mds[n - 1]).len() > 0 {
            assert(mds.take(n).filter(f) == fp.push(mds[n - 1]));
            assert(labels_upto(mds, ks, n) == prev.push((label_for(mds, ks, n - 1), trim(mds[n - 1]))));
            assert(labels_upto(mds, ks, n).map_values(|x: (Seq<char>, Seq<char>)| x.1) =~= prev.map_values(
                |x: (Seq<char>, Seq<char>)| x.1,
            ).push(trim(mds[n - 1])));
            assert(fp.push(mds[n - 1]).map_values(|m: Seq<char>| trim(m)) =~= fp.map_values(
                |m: Seq<char>| trim(m),
            ).push(trim(mds[n - 1])));
        } else {
            assert(mds.take(n).filter(f) == fp);
            assert(labels_upto(mds, ks, n) == prev);
        }
    } else {
        assert(mds.take(n).filter(|m: Seq<char>| trim(m).len() > 0).len() == 0);
        assert(labels_upto(mds, ks, n).map_values(|x: (Seq<char>, Seq<char>)| x.1) =~= mds.take(n).filter(
            |m: Seq<char>| trim(m).len() > 0,
        ).map_values(|m: Seq<char>| trim(m)));
    }
}

/// A practice problem's editorial tabs are its non-blank editorials, trimmed, in authoring
/// order: one tab for each, and none for a blank one.
pub proof fn lemma_approaches_in_order(w: Seq<EditorialWire>)
    ensures
        spec_label_approaches(w).map_values(|x: (Seq<char>, Seq<char>)| x.1) == wire_mds(w).filter(
            |m: Seq<char>| trim(m).len() > 0,
        ).map_values(|m: Seq<char>| trim(m)),
{
    let ks = wire_tags(w).map_values(|t: Seq<char>| spec_approach_kind(t));
    lemma_labels_upto_mds(wire_mds(w), ks, w.len() as int);
    assert(wire_mds(w).take(w.len() as int) =~= wire_mds(w));
}


proof fn lemma_claim_scan_names(toks: Seq<Seq<char>>)
    ensures
        forall|i: int| 0 <= i < claim_scan(toks).out.len() ==> is_claim_name((#[trigger] claim_scan(toks).out[i]).0),
        claim_scan(toks).pend matches Some(p) ==> is_claim_name(p.0),
    decreases toks.len(),
{
    if toks.len() > 0 {
        lemma_claim_scan_names(toks.drop_last());
        let st = claim_scan(toks.drop_last());
        let r = claim_scan(toks);
        assert forall|i: int| 0 <= i < r.out.len() implies is_claim_name((#[trigger] r.out[i]).0) by {
            if i < st.out.len() {
                assert(r.out[i] == st.out[i]);
            }
        }
    }
}

/// A fence's complexity claims are named `time` or `space`, nothing else.
pub proof fn lemma_claims_named(meta: Seq<char>)
    ensures
        forall|i: int|
            0 <= i < spec_solution_complexities(meta).len() ==> is_claim_name(
                (#[trigger] spec_solution_complexities(meta)[i]).0,
            ),
{
    let st = claim_scan(words(meta));
    lemma_claim_scan_names(words(meta));
    let r = spec_solution_complexities(meta);
    assert forall|i: int| 0 <= i < r.len() implies is_claim_name((#[trigger] r[i]).0) by {
        if i < st.out.len() {
            assert(r[i] == st.out[i]);
        }
    }
}

} // verus!

//! Ranking a query against the flattened library: prefix (100) > word-start (80) >
//! substring (60) > subsequence (30), matched case-insensitively, with a +10 bonus for
//! matching the label over the breadcrumb; ties go to lessons, then books, then posts, then
//! shorter labels, and otherwise keep the library's order. At most [`LIMIT`] results.

use vstd::prelude::*;

use crate::router::page::PageView;
use crate::search::{
    clone_entry, entry_view, entry_views, lemma_entry_views_push, Kind, SearchEntry,
};
use crate::text::{
    chars_of, contains, contains_in, find, has_prefix, lowercased, seqs, starts_with, to_lower, trim,
    trimmed,
};

verus! {

/// The most results a search returns.
pub const LIMIT: usize = 20;

pub open spec fn is_ascii_alnum(c: char) -> bool {
    ('0' <= c && c <= '9') || ('a' <= c && c <= 'z') || ('A' <= c && c <= 'Z')
}

/// `str::split` at every character that is not an ASCII letter or digit: never empty.
pub open spec fn split_alnum(s: Seq<char>) -> Seq<Seq<char>>
    decreases s.len(),
{
    if s.len() == 0 {
        seq![Seq::<char>::empty()]
    } else {
        let p = split_alnum(s.drop_last());
        if !is_ascii_alnum(s.last()) {
            p.push(Seq::<char>::empty())
        } else {
            p.update(p.len() - 1, p.last().push(s.last()))
        }
    }
}

pub proof fn lemma_split_alnum_nonempty(s: Seq<char>)
    ensures
        split_alnum(s).len() >= 1,
    decreases s.len(),
{
    if s.len() > 0 {
        lemma_split_alnum_nonempty(s.drop_last());
    }
}

/// Whether some word of `ws` starts with `q`.
pub open spec fn some_word_starts(ws: Seq<Seq<char>>, q: Seq<char>) -> bool {
    exists|j: int| 0 <= j < ws.len() && starts_with(#[trigger] ws[j], q)
}

/// Whether the characters of `q` occur in `t` in order (matched greedily).
pub open spec fn is_subseq(q: Seq<char>, t: Seq<char>) -> bool
    decreases t.len(),
{
    if q.len() == 0 {
        true
    } else if t.len() == 0 {
        false
    } else if q[0] == t[0] {
        is_subseq(q.drop_first(), t.drop_first())
    } else {
        is_subseq(q, t.drop_first())
    }
}

/// How well `query` matches `text`, both lowercased: a prefix 100, a word start 80, a
/// substring 60, a subsequence 30, else no match.
pub open spec fn spec_score(query: Seq<char>, text: Seq<char>) -> Option<int> {
    let q = lowercased(query);
    let t = lowercased(text);
    if starts_with(t, q) {
        Some(100)
    } else if some_word_starts(split_alnum(t), q) {
        Some(80)
    } else if contains(t, q) {
        Some(60)
    } else if is_subseq(q, t) {
        Some(30)
    } else {
        None
    }
}

/// The better of the label's score (plus 10) and the breadcrumb's.
pub open spec fn spec_rank(query: Seq<char>, e: (Seq<char>, Seq<char>, Kind, PageView)) -> Option<int> {
    match (spec_score(query, e.0), spec_score(query, e.1)) {
        (Some(a), Some(b)) => Some(if a + 10 >= b {
            a + 10
        } else {
            b
        }),
        (Some(a), None) => Some(a + 10),
        (None, Some(b)) => Some(b),
        (None, None) => None,
    }
}

pub open spec fn spec_kind_order(k: Kind) -> int {
    match k {
        Kind::Lesson => 0,
        Kind::Book => 1,
        Kind::Blog => 2,
    }
}

/// Bytes of a string in UTF-8, as `str::len` reports them: the length of its encoding.
pub open spec fn utf8_len(s: Seq<char>) -> usize {
    vstd::utf8::encode_utf8(s).len() as usize
}

/// A ranked entry as values.
pub type Scored = ((Seq<char>, Seq<char>, Kind, PageView), int);

/// The order of results: higher score first, then lessons, books, posts, then shorter labels.
pub open spec fn key(x: Scored) -> (int, int, int) {
    (-x.1, spec_kind_order(x.0.2), utf8_len(x.0.0) as int)
}

pub open spec fn key_lt(a: (int, int, int), b: (int, int, int)) -> bool {
    a.0 < b.0 || (a.0 == b.0 && (a.1 < b.1 || (a.1 == b.1 && a.2 < b.2)))
}

/// `x` placed in `s` after every element whose key is not greater than its own.
pub open spec fn ins_key(s: Seq<Scored>, x: Scored) -> Seq<Scored>
    decreases s.len(),
{
    if s.len() == 0 {
        seq![x]
    } else if key_lt(key(x), key(s[0])) {
        seq![x] + s
    } else {
        seq![s[0]] + ins_key(s.drop_first(), x)
    }
}

/// `s` sorted by key, equal keys keeping their order in `s`.
pub open spec fn sort_by_key(s: Seq<Scored>) -> Seq<Scored>
    decreases s.len(),
{
    if s.len() == 0 {
        s
    } else {
        ins_key(sort_by_key(s.drop_last()), s.last())
    }
}

/// The entries that match at all, with their ranks, in library order.
pub open spec fn scored(query: Seq<char>, all: Seq<(Seq<char>, Seq<char>, Kind, PageView)>) -> Seq<Scored>
    decreases all.len(),
{
    if all.len() == 0 {
        Seq::empty()
    } else {
        scored(query, all.drop_last()) + match spec_rank(query, all.last()) {
            Some(r) => seq![(all.last(), r)],
            None => Seq::empty(),
        }
    }
}

/// At most [`LIMIT`] of `s`, from the front.
pub open spec fn capped<A>(s: Seq<A>) -> Seq<A> {
    if s.len() > LIMIT {
        s.take(LIMIT as int)
    } else {
        s
    }
}

/// The results of a search: a blank query gives the library's first entries; otherwise the
/// matching entries, best first.
pub open spec fn spec_search(query: Seq<char>, all: Seq<(Seq<char>, Seq<char>, Kind, PageView)>) -> Seq<
    (Seq<char>, Seq<char>, Kind, PageView),
> {
    let q = trim(query);
    if q.len() == 0 {
        capped(all)
    } else {
        capped(sort_by_key(scored(q, all))).map_values(|x: Scored| x.0)
    }
}

fn is_alnum(c: char) -> (b: bool)
    ensures
        b == is_ascii_alnum(c),
{
    ('0' <= c && c <= '9') || ('a' <= c && c <= 'z') || ('A' <= c && c <= 'Z')
}

fn split_non_alnum(s: &Vec<char>) -> (out: Vec<Vec<char>>)
    ensures
        seqs(out@) == split_alnum(s@),
{
    let mut parts: Vec<Vec<char>> = Vec::new();
    let mut cur: Vec<char> = Vec::new();
    let mut i: usize = 0;
    while i < s.len()
        invariant
            i <= s.len(),
            seqs(parts@).push(cur@) == split_alnum(s@.take(i as int)),
        decreases s.len() - i,
    {
        let c = s[i];
        let ghost before = s@.take(i as int);
        assert(s@.take(i + 1).drop_last() =~= before);
        proof {
            lemma_split_alnum_nonempty(before);
        }
        if !is_alnum(c) {
            parts.push(cur);
            cur = Vec::new();
            assert(seqs(parts@).push(cur@) =~= split_alnum(before).push(Seq::<char>::empty()));
        } else {
            let ghost old_cur = cur@;
            cur.push(c);
            assert(seqs(parts@).push(cur@) =~= split_alnum(before).update(
                split_alnum(before).len() - 1,
                old_cur.push(c),
            ));
        }
        i = i + 1;
    }
    assert(s@.take(s.len() as int) =~= s@);
    parts.push(cur);
    assert(seqs(parts@) =~= seqs(parts@).drop_last().push(cur@));
    parts
}

/// Whether the characters of `query` occur in `text` in order.
pub fn is_subsequence(query: &Vec<char>, text: &Vec<char>) -> (b: bool)
    ensures
        b == is_subseq(query@, text@),
{
    let mut j: usize = 0;
    let mut i: usize = 0;
    assert(query@.skip(0) =~= query@);
    assert(text@.skip(0) =~= text@);
    while i < text.len()
        invariant
            i <= text@.len(),
            j <= query@.len(),
            is_subseq(query@, text@) == is_subseq(query@.skip(j as int), text@.skip(i as int)),
        decreases text.len() - i,
    {
        assert(text@.skip(i as int).drop_first() =~= text@.skip(i + 1));
        if j < query.len() {
            assert(query@.skip(j as int)[0] == query@[j as int]);
            assert(query@.skip(j as int).drop_first() =~= query@.skip(j + 1));
            if query[j] == text[i] {
                j = j + 1;
            }
        }
        i = i + 1;
    }
    j == query.len()
}

/// How well `query` matches `text`.
pub fn score(query: &str, text: &str) -> (r: Option<i32>)
    ensures
        match r {
            Some(s) => spec_score(query@, text@) == Some(s as int),
            None => spec_score(query@, text@) is None,
        },
{
    let q = to_lower(&chars_of(query));
    let t = to_lower(&chars_of(text));
    if has_prefix(&t, &q) {
        return Some(100);
    }
    let ws = split_non_alnum(&t);
    let mut k: usize = 0;
    while k < ws.len()
        invariant
            k <= ws@.len(),
            seqs(ws@) == split_alnum(t@),
            q@ == lowercased(query@),
            t@ == lowercased(text@),
            !starts_with(t@, q@),
            forall|m: int| 0 <= m < k ==> !starts_with(#[trigger] seqs(ws@)[m], q@),
        decreases ws.len() - k,
    {
        assert(seqs(ws@)[k as int] == ws@[k as int]@);
        if has_prefix(&ws[k], &q) {
            assert(starts_with(split_alnum(t@)[k as int], q@));
            return Some(80);
        }
        k = k + 1;
    }
    if contains_in(&t, &q) {
        return Some(60);
    }
    if is_subsequence(&q, &t) {
        return Some(30);
    }
    None
}

/// The entry's rank for `query`: the better of its label's score (plus 10) and its
/// breadcrumb's; no rank when neither matches.
pub fn rank(query: &str, entry: &SearchEntry) -> (r: Option<i32>)
    ensures
        match r {
            Some(s) => spec_rank(query@, entry_view(*entry)) == Some(s as int),
            None => spec_rank(query@, entry_view(*entry)) is None,
        },
{
    let on_label = score(query, entry.label.as_str());
    let on_crumb = score(query, entry.sublabel.as_str());
    match (on_label, on_crumb) {
        (Some(a), Some(b)) => Some(if a + 10 >= b {
            a + 10
        } else {
            b
        }),
        (Some(a), None) => Some(a + 10),
        (None, Some(b)) => Some(b),
        (None, None) => None,
    }
}

/// Lessons first, then books, then posts.
pub fn kind_order(kind: Kind) -> (o: u8)
    ensures
        o as int == spec_kind_order(kind),
{
    match kind {
        Kind::Lesson => 0,
        Kind::Book => 1,
        Kind::Blog => 2,
    }
}

/// A match, by position in the library, with its ordering key.
struct Ranked {
    at: usize,
    score: i32,
    kind: u8,
    len: usize,
}

spec fn ranked_view(r: Ranked, all: Seq<(Seq<char>, Seq<char>, Kind, PageView)>) -> Scored {
    (all[r.at as int], r.score as int)
}

spec fn ranked_views(v: Seq<Ranked>, all: Seq<(Seq<char>, Seq<char>, Kind, PageView)>) -> Seq<Scored> {
    v.map_values(|r: Ranked| ranked_view(r, all))
}

spec fn ranked_ok(r: Ranked, all: Seq<(Seq<char>, Seq<char>, Kind, PageView)>) -> bool {
    &&& r.at < all.len()
    &&& r.kind as int == spec_kind_order(all[r.at as int].2)
    &&& r.len as int == utf8_len(all[r.at as int].0)
}

fn ranked_before(a: &Ranked, b: &Ranked) -> (lt: bool)
    ensures
        lt == key_lt((-a.score, a.kind as int, a.len as int), (-b.score, b.kind as int, b.len as int)),
{
    a.score > b.score || (a.score == b.score && (a.kind < b.kind || (a.kind == b.kind && a.len < b.len)))
}

/// Rank and cap. A blank query returns the library's first entries; a query nothing matches
/// returns nothing.
pub fn search(query: &str, all: &[SearchEntry]) -> (out: Vec<SearchEntry>)
    ensures
        entry_views(out@) == spec_search(query@, entry_views(all@)),
{
    let ghost av = entry_views(all@);
    let q = trimmed(&chars_of(query));
    let limit = if all.len() > LIMIT {
        LIMIT
    } else {
        all.len()
    };
    if q.len() == 0 {
        let mut out: Vec<SearchEntry> = Vec::new();
        let mut i: usize = 0;
        while i < limit
            invariant
                i <= limit,
                limit <= all@.len(),
                av == entry_views(all@),
                entry_views(out@) == av.take(i as int),
            decreases limit - i,
        {
            let e = clone_entry(&all[i]);
            let ghost prev = out@;
            out.push(e);
            proof {
                lemma_entry_views_push(prev, e);
            }
            assert(av.take(i + 1) =~= av.take(i as int).push(av[i as int]));
            i = i + 1;
        }
        assert(capped(av) =~= av.take(limit as int));
        return out;
    }
    let qs = crate::text::string_of(&q);
    let qstr = qs.as_str();
    let ghost qv = trim(query@);
    // the matches, kept sorted as they arrive
    let mut sorted: Vec<Ranked> = Vec::new();
    let mut i: usize = 0;
    while i < all.len()
        invariant
            i <= all@.len(),
            av == entry_views(all@),
            qstr@ == qv,
            forall|k: int| 0 <= k < sorted@.len() ==> ranked_ok(#[trigger] sorted@[k], av),
            ranked_views(sorted@, av) == sort_by_key(scored(qv, av.take(i as int))),
        decreases all.len() - i,
    {
        let ghost before = av.take(i as int);
        assert(av.take(i + 1).drop_last() =~= before);
        assert(av.take(i + 1).last() == av[i as int]);
        assert(av[i as int] == entry_view(all@[i as int]));
        match rank(qstr, &all[i]) {
            None => {
                assert(scored(qv, av.take(i + 1)) =~= scored(qv, before));
            },
            Some(s) => {
                let x = Ranked { at: i, score: s, kind: kind_order(all[i].kind), len: all[i].label.as_str().len() };
                let ghost xv = ranked_view(x, av);
                let ghost sv = ranked_views(sorted@, av);
                assert(scored(qv, av.take(i + 1)) =~= scored(qv, before).push(xv));
                assert(scored(qv, av.take(i + 1)).drop_last() =~= scored(qv, before));
                // find the first element with a greater key
                let mut p: usize = 0;
                assert(sv.skip(0) =~= sv);
                assert(sv.take(0) + ins_key(sv.skip(0), xv) =~= ins_key(sv, xv));
                while p < sorted.len()
                    invariant
                        p <= sorted@.len(),
                        sv == ranked_views(sorted@, av),
                        forall|k: int| 0 <= k < sorted@.len() ==> ranked_ok(#[trigger] sorted@[k], av),
                        ranked_ok(x, av),
                        xv == ranked_view(x, av),
                        ins_key(sv, xv) == sv.take(p as int) + ins_key(sv.skip(p as int), xv),
                    ensures
                        p <= sorted@.len(),
                        ins_key(sv, xv) == sv.take(p as int) + ins_key(sv.skip(p as int), xv),
                        p == sorted@.len() || key_lt(key(xv), key(sv[p as int])),
                    decreases sorted.len() - p,
                {
                    assert(ranked_ok(sorted@[p as int], av));
                    assert(sv[p as int] == ranked_view(sorted@[p as int], av));
                    if ranked_before(&x, &sorted[p]) {
                        break;
                    }
                    let ghost rest = sv.skip(p as int);
                    assert(rest[0] == sv[p as int]);
                    assert(rest.drop_first() =~= sv.skip(p + 1));
                    assert(sv.take(p + 1) =~= sv.take(p as int) + seq![sv[p as int]]);
                    p = p + 1;
                }
                assert(ins_key(sv.skip(p as int), xv) =~= seq![xv] + sv.skip(p as int));
                let ghost old_sorted = sorted@;
                sorted.insert(p, x);
                assert(sorted@ =~= old_sorted.take(p as int).push(x) + old_sorted.skip(p as int));
                assert(ranked_views(sorted@, av) =~= sv.take(p as int) + seq![xv] + sv.skip(p as int));
            },
        }
        i = i + 1;
    }
    assert(av.take(all@.len() as int) =~= av);
    let ghost sorted_v = ranked_views(sorted@, av);
    let n = if sorted.len() > LIMIT {
        LIMIT
    } else {
        sorted.len()
    };
    let mut out: Vec<SearchEntry> = Vec::new();
    let mut k: usize = 0;
    while k < n
        invariant
            k <= n,
            n <= sorted@.len(),
            av == entry_views(all@),
            sorted_v == ranked_views(sorted@, av),
            forall|m: int| 0 <= m < sorted@.len() ==> ranked_ok(#[trigger] sorted@[m], av),
            entry_views(out@) == sorted_v.take(k as int).map_values(|x: Scored| x.0),
        decreases n - k,
    {
        assert(ranked_ok(sorted@[k as int], av));
        let at = sorted[k].at;
        let e = clone_entry(&all[at]);
        let ghost prev = out@;
        out.push(e);
        proof {
            lemma_entry_views_push(prev, e);
        }
        assert(sorted_v.take(k + 1).map_values(|x: Scored| x.0) =~= sorted_v.take(k as int).map_values(
            |x: Scored| x.0,
        ).push(sorted_v[k as int].0));
        k = k + 1;
    }
    assert(capped(sorted_v) =~= sorted_v.take(n as int));
    out
}


/// A result cursor kept on the list: the last row at most, 0 for an empty list.
pub fn clamp(i: usize, count: usize) -> (r: usize)
    ensures
        r == if count == 0 {
            0
        } else if i < count {
            i
        } else {
            (count - 1) as usize
        },
{
    if count == 0 {
        0
    } else if i < count - 1 {
        i
    } else {
        count - 1
    }
}

/// What a result row calls its kind.
pub fn kind_label(kind: Kind) -> (l: &'static str)
    ensures
        l@ == match kind {
            Kind::Lesson => "Lesson"@,
            Kind::Book => "Book"@,
            Kind::Blog => "Post"@,
        },
{
    match kind {
        Kind::Lesson => "Lesson",
        Kind::Book => "Book",
        Kind::Blog => "Post",
    }
}


/// Whether `s` is in key order (no element's key greater than a later one's).
pub open spec fn key_sorted(s: Seq<Scored>) -> bool {
    forall|i: int, j: int| 0 <= i < j < s.len() ==> !key_lt(key(#[trigger] s[j]), key(#[trigger] s[i]))
}

proof fn lemma_ins_key_sorted(s: Seq<Scored>, x: Scored)
    requires
        key_sorted(s),
    ensures
        key_sorted(ins_key(s, x)),
        ins_key(s, x).to_multiset() == s.to_multiset().insert(x),
    decreases s.len(),
{
    broadcast use vstd::seq_lib::group_to_multiset_ensures;
    if s.len() == 0 {
        assert(seq![x] =~= Seq::<Scored>::empty().push(x));
    } else if key_lt(key(x), key(s[0])) {
        let r = seq![x] + s;
        assert forall|i: int, j: int| 0 <= i < j < r.len() implies !key_lt(key(#[trigger] r[j]), key(#[trigger] r[i])) by {
            if i > 0 {
                assert(r[i] == s[i - 1] && r[j] == s[j - 1]);
            } else {
                assert(r[j] == s[j - 1]);
                if j > 1 {
                    assert(!key_lt(key(s[j - 1]), key(s[0])));
                }
            }
        }
        assert(r =~= s.insert(0, x));
        s.to_multiset_ensures();
    } else {
        let t = s.drop_first();
        assert(key_sorted(t)) by {
            assert forall|i: int, j: int| 0 <= i < j < t.len() implies !key_lt(key(#[trigger] t[j]), key(#[trigger] t[i])) by {
                assert(t[i] == s[i + 1] && t[j] == s[j + 1]);
            }
        }
        lemma_ins_key_sorted(t, x);
        let u = ins_key(t, x);
        let r = seq![s[0]] + u;
        assert forall|i: int, j: int| 0 <= i < j < r.len() implies !key_lt(key(#[trigger] r[j]), key(#[trigger] r[i])) by {
            if i > 0 {
                assert(r[i] == u[i - 1] && r[j] == u[j - 1]);
            } else {
                assert(r[j] == u[j - 1]);
                assert(u.to_multiset().count(u[j - 1]) > 0);
                assert(t.to_multiset().insert(x).count(u[j - 1]) > 0);
                if u[j - 1] != x {
                    assert(t.to_multiset().count(u[j - 1]) > 0);
                    t.to_multiset_ensures();
                    let k = choose|k: int| 0 <= k < t.len() && t[k] == u[j - 1];
                    assert(s[k + 1] == t[k]);
                }
            }
        }
        assert(s =~= seq![s[0]] + t);
        assert(r.to_multiset() =~= s.to_multiset().insert(x)) by {
            vstd::seq_lib::lemma_multiset_commutative(seq![s[0]], u);
            vstd::seq_lib::lemma_multiset_commutative(seq![s[0]], t);
        }
    }
}

/// Ranking sorts: every result comes no later than any result with a smaller key, and the
/// results are exactly the matches (as a multiset).
pub proof fn lemma_sort_by_key(s: Seq<Scored>)
    ensures
        key_sorted(sort_by_key(s)),
        sort_by_key(s).to_multiset() == s.to_multiset(),
    decreases s.len(),
{
    broadcast use vstd::seq_lib::group_to_multiset_ensures;
    if s.len() > 0 {
        lemma_sort_by_key(s.drop_last());
        lemma_ins_key_sorted(sort_by_key(s.drop_last()), s.last());
        assert(s.drop_last().push(s.last()) =~= s);
    } else {
        assert(s.to_multiset() =~= vstd::multiset::Multiset::<Scored>::empty());
    }
}


/// A search never returns more than [`LIMIT`] results, and a query nothing matches returns
/// none.
pub proof fn lemma_search_bounded(query: Seq<char>, all: Seq<(Seq<char>, Seq<char>, Kind, PageView)>)
    ensures
        spec_search(query, all).len() <= LIMIT,
        trim(query).len() > 0 && scored(trim(query), all).len() == 0 ==> spec_search(query, all).len() == 0,
{
    let q = trim(query);
    if q.len() > 0 && scored(q, all).len() == 0 {
        assert(sort_by_key(scored(q, all)) == scored(q, all));
    }
}


/// An entry's rank is the best of its two matches: it matches exactly when its label or its
/// breadcrumb does; it is never below the label's score plus 10 nor below the breadcrumb's score,
/// and it is one of those two.
pub proof fn lemma_rank_best(query: Seq<char>, e: (Seq<char>, Seq<char>, Kind, PageView))
    ensures
        spec_rank(query, e) is None <==> (spec_score(query, e.0) is None && spec_score(query, e.1) is None),
        spec_score(query, e.0) is Some ==> spec_rank(query, e) is Some && spec_rank(query, e)->0
            >= spec_score(query, e.0)->0 + 10,
        spec_score(query, e.1) is Some ==> spec_rank(query, e) is Some && spec_rank(query, e)->0
            >= spec_score(query, e.1)->0,
        spec_rank(query, e) is Some ==> {
            ||| (spec_score(query, e.0) is Some && spec_rank(query, e)->0 == spec_score(query, e.0)->0 + 10)
            ||| (spec_score(query, e.1) is Some && spec_rank(query, e)->0 == spec_score(query, e.1)->0)
        },
{
}


/// The matches of a query, in library order, each with its rank: one for every entry that
/// matches, and none for any other.
pub proof fn lemma_scored_matches(query: Seq<char>, all: Seq<(Seq<char>, Seq<char>, Kind, PageView)>)
    ensures
        scored(query, all).len() == all.filter(
            |e: (Seq<char>, Seq<char>, Kind, PageView)| spec_rank(query, e) is Some,
        ).len(),
        forall|i: int|
            0 <= i < scored(query, all).len() ==> all.contains((#[trigger] scored(query, all)[i]).0)
                && spec_rank(query, scored(query, all)[i].0) == Some(scored(query, all)[i].1),
    decreases all.len(),
{
    if all.len() > 0 {
        let dl = all.drop_last();
        lemma_scored_matches(query, dl);
        let prev = scored(query, dl);
        let pred = |e: (Seq<char>, Seq<char>, Kind, PageView)| spec_rank(query, e) is Some;
        reveal(Seq::filter);
        assert(all.filter(pred).len() == dl.filter(pred).len() + if pred(all.last()) {
            1int
        } else {
            0int
        });
        assert forall|i: int| 0 <= i < scored(query, all).len() implies all.contains(
            (#[trigger] scored(query, all)[i]).0,
        ) && spec_rank(query, scored(query, all)[i].0) == Some(scored(query, all)[i].1) by {
            if i < prev.len() {
                assert(scored(query, all)[i] == prev[i]);
                let k = choose|k: int| 0 <= k < dl.len() && dl[k] == prev[i].0;
                assert(all[k] == dl[k]);
            } else {
                assert(all[all.len() - 1] == all.last());
            }
        }
    }
}

/// What a search returns. A blank query gives the library's first [`LIMIT`] entries, in order.
/// Otherwise every result matches the query, results come best rank first, and there are as
/// many as the entries that match, up to [`LIMIT`].
pub proof fn lemma_search_ranked(query: Seq<char>, all: Seq<(Seq<char>, Seq<char>, Kind, PageView)>)
    ensures
        trim(query).len() == 0 ==> spec_search(query, all) == all.take(
            if all.len() > LIMIT {
                LIMIT as int
            } else {
                all.len() as int
            },
        ),
        trim(query).len() > 0 ==> {
            let q = trim(query);
            let res = spec_search(query, all);
            let n = all.filter(|e: (Seq<char>, Seq<char>, Kind, PageView)| spec_rank(q, e) is Some).len();
            &&& res.len() == if n > LIMIT {
                LIMIT as int
            } else {
                n as int
            }
            &&& forall|i: int| 0 <= i < res.len() ==> all.contains(#[trigger] res[i]) && spec_rank(q, res[i]) is Some
            &&& forall|i: int, j: int|
                0 <= i < j < res.len() ==> spec_rank(q, #[trigger] res[i])->0 >= spec_rank(q, #[trigger] res[j])->0
        },
{
    broadcast use vstd::seq_lib::group_to_multiset_ensures;
    let q = trim(query);
    if q.len() == 0 {
        assert(all.take(all.len() as int) =~= all);
    } else {
        let sc = scored(q, all);
        let s = sort_by_key(sc);
        lemma_scored_matches(q, all);
        lemma_sort_by_key(sc);
        assert(s.len() == sc.len()) by {
            assert(s.to_multiset().len() == sc.to_multiset().len());
        }
        assert forall|i: int| 0 <= i < s.len() implies all.contains(#[trigger] s[i].0) && spec_rank(q, s[i].0)
            == Some(s[i].1) by {
            assert(s.to_multiset().count(s[i]) > 0);
            assert(sc.contains(s[i]));
            let k = choose|k: int| 0 <= k < sc.len() && sc[k] == s[i];
            assert(all.contains(sc[k].0));
        }
        let res = spec_search(query, all);
        let c = capped(s);
        assert forall|i: int| 0 <= i < res.len() implies all.contains(#[trigger] res[i]) && spec_rank(q, res[i]) is Some by {
            assert(res[i] == c[i].0);
            assert(c[i] == s[i]);
        }
        assert forall|i: int, j: int|
            0 <= i < j < res.len() implies spec_rank(q, #[trigger] res[i])->0 >= spec_rank(q, #[trigger] res[j])->0 by {
            assert(res[i] == s[i].0);
            assert(res[j] == s[j].0);
            assert(!key_lt(key(s[j]), key(s[i])));
        }
    }
}


/// Greedy matching is a true subsequence test: dropping the query's first character, or adding
/// a character in front of the text, keeps a match.
proof fn lemma_subseq_mono(q: Seq<char>, v: Seq<char>)
    ensures
        q.len() > 0 && is_subseq(q, v) ==> is_subseq(q.drop_first(), v),
        v.len() > 0 && is_subseq(q, v.drop_first()) ==> is_subseq(q, v),
    decreases v.len(),
{
    if v.len() > 0 {
        lemma_subseq_mono(q, v.drop_first());
        if q.len() > 0 {
            lemma_subseq_mono(q.drop_first(), v.drop_first());
        }
    }
}

/// A match in a suffix of the text is a match in the text.
proof fn lemma_subseq_skip(q: Seq<char>, t: Seq<char>, k: int)
    requires
        0 <= k <= t.len(),
        is_subseq(q, t.skip(k)),
    ensures
        is_subseq(q, t),
    decreases k,
{
    if k > 0 {
        assert(t.skip(k - 1).drop_first() =~= t.skip(k));
        lemma_subseq_mono(q, t.skip(k - 1));
        lemma_subseq_skip(q, t, k - 1);
    } else {
        assert(t.skip(0) =~= t);
    }
}

/// A prefix is a subsequence.
proof fn lemma_prefix_subseq(q: Seq<char>, t: Seq<char>)
    requires
        starts_with(t, q),
    ensures
        is_subseq(q, t),
    decreases q.len(),
{
    if q.len() > 0 {
        assert(t[0] == t.subrange(0, q.len() as int)[0]);
        assert(t.drop_first().subrange(0, q.len() - 1) =~= q.drop_first()) by {
            assert forall|i: int| 0 <= i < q.len() - 1 implies t.drop_first().subrange(0, q.len() - 1)[i]
                == q.drop_first()[i] by {
                assert(t.subrange(0, q.len() as int)[i + 1] == t[i + 1]);
            }
        }
        lemma_prefix_subseq(q.drop_first(), t.drop_first());
    }
}

/// Text that occurs in `t` is a subsequence of it.
proof fn lemma_contains_subseq(q: Seq<char>, t: Seq<char>)
    requires
        contains(t, q),
    ensures
        is_subseq(q, t),
{
    crate::text::lemma_find_from_found(t, q, 0);
    let k = find(t, q)->0;
    assert(t.skip(k).subrange(0, q.len() as int) =~= t.subrange(k, k + q.len()));
    lemma_prefix_subseq(q, t.skip(k));
    lemma_subseq_skip(q, t, k);
}

/// Whether `w` occurs somewhere in `t`.
pub open spec fn occurs_in(w: Seq<char>, t: Seq<char>) -> bool {
    exists|k: int| crate::text::matches_at(t, w, k)
}

/// Every word of the alphanumeric split occurs in the text, and the last word ends it.
proof fn lemma_split_alnum_occurs(s: Seq<char>)
    ensures
        forall|j: int| 0 <= j < split_alnum(s).len() ==> occurs_in(#[trigger] split_alnum(s)[j], s),
        split_alnum(s).len() >= 1,
        split_alnum(s).last().len() <= s.len(),
        s.subrange(s.len() - split_alnum(s).last().len(), s.len() as int) == split_alnum(s).last(),
    decreases s.len(),
{
    lemma_split_alnum_nonempty(s);
    if s.len() == 0 {
        assert(s.subrange(0, 0) =~= split_alnum(s)[0]);
        assert(crate::text::matches_at(s, split_alnum(s)[0], 0));
        assert(s.subrange(0, 0) =~= split_alnum(s).last());
    } else {
        let dl = s.drop_last();
        let p = split_alnum(dl);
        lemma_split_alnum_occurs(dl);
        let r = split_alnum(s);
        assert forall|j: int| 0 <= j < p.len() - 1 implies occurs_in(#[trigger] r[j], s) by {
            assert(r[j] == p[j]);
            assert(occurs_in(p[j], dl));
            let k = choose|k: int| crate::text::matches_at(dl, p[j], k);
            assert(s.subrange(k, k + p[j].len()) =~= dl.subrange(k, k + p[j].len()));
            assert(crate::text::matches_at(s, r[j], k));
        }
        if !is_ascii_alnum(s.last()) {
            let pl = p.last();
            assert(r[p.len() - 1] == pl);
            assert(occurs_in(pl, dl));
            let k = choose|k: int| crate::text::matches_at(dl, pl, k);
            assert(s.subrange(k, k + pl.len()) =~= dl.subrange(k, k + pl.len()));
            assert(crate::text::matches_at(s, r[p.len() - 1], k));
            assert(s.subrange(s.len() as int, s.len() as int) =~= r.last());
            assert(crate::text::matches_at(s, r[p.len() as int], s.len() as int));
        } else {
            let w = p.last().push(s.last());
            assert(r.last() == w);
            assert(s.subrange(s.len() - w.len(), s.len() as int) =~= w) by {
                assert(dl.subrange(dl.len() - p.last().len(), dl.len() as int) == p.last());
                assert forall|i: int| 0 <= i < w.len() implies s.subrange(s.len() - w.len(), s.len() as int)[i]
                    == w[i] by {
                    if i < w.len() - 1 {
                        assert(dl.subrange(dl.len() - p.last().len(), dl.len() as int)[i] == dl[dl.len()
                            - p.last().len() + i]);
                    }
                }
            }
            assert(crate::text::matches_at(s, r[p.len() - 1], s.len() - w.len()));
        }
    }
}

/// What a score says of the match. There is a score exactly when the query's characters occur
/// in the text in order (both lowercased); it is 100 exactly when the text starts with the
/// query, at least 80 when a word of the text does, at least 60 when the text contains the
/// query, and always one of 100, 80, 60 and 30.
pub proof fn lemma_score_levels(query: Seq<char>, text: Seq<char>)
    ensures
        ({
            let q = lowercased(query);
            let t = lowercased(text);
            let r = spec_score(query, text);
            &&& r is Some <==> is_subseq(q, t)
            &&& r == Some(100int) <==> starts_with(t, q)
            &&& some_word_starts(split_alnum(t), q) ==> r is Some && r->0 >= 80
            &&& contains(t, q) ==> r is Some && r->0 >= 60
            &&& r is Some ==> (r->0 == 100 || r->0 == 80 || r->0 == 60 || r->0 == 30)
        }),
{
    let q = lowercased(query);
    let t = lowercased(text);
    if starts_with(t, q) {
        lemma_prefix_subseq(q, t);
    } else if some_word_starts(split_alnum(t), q) {
        lemma_split_alnum_occurs(t);
        let j = choose|j: int| 0 <= j < split_alnum(t).len() && starts_with(#[trigger] split_alnum(t)[j], q);
        let w = split_alnum(t)[j];
        assert(occurs_in(w, t));
        let k = choose|k: int| crate::text::matches_at(t, w, k);
        assert(t.subrange(k, k + q.len()) =~= w.subrange(0, q.len() as int)) by {
            assert forall|i: int| 0 <= i < q.len() implies t.subrange(k, k + q.len())[i] == w.subrange(
                0,
                q.len() as int,
            )[i] by {
                assert(t.subrange(k, k + w.len())[i] == t[k + i]);
            }
        }
        assert(crate::text::matches_at(t, q, k));
        crate::text::lemma_find_from_found(t, q, 0);
        lemma_contains_subseq(q, t);
    } else if contains(t, q) {
        lemma_contains_subseq(q, t);
    }
}

} // verus!

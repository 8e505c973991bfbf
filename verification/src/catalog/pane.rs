//! The problem page's tab vocabulary and the label matcher the editorial shares: sections are
//! matched by normalised label, never by index.

use vstd::prelude::*;

use crate::text::{
    capitalize, capitalized, chars_of, chars_of_string, join, join_with, lemma_seqs_push, lit,
    lowercased, same, seqs, split_char, split_on, string_of, string_views, to_lower, words, words_of,
};

verus! {

#[derive(Debug, Clone, Copy, PartialEq, Eq, Structural)]
pub enum Tab {
    Description,
    Editorial,
    Coach,
    Submissions,
}

impl Tab {
    pub open spec fn spec_slug(self) -> Seq<char> {
        match self {
            Tab::Description => "description"@,
            Tab::Editorial => "editorial"@,
            Tab::Coach => "coach"@,
            Tab::Submissions => "submissions"@,
        }
    }

    pub open spec fn spec_label(self) -> Seq<char> {
        match self {
            Tab::Description => "Description"@,
            Tab::Editorial => "Editorial"@,
            Tab::Coach => "Coach"@,
            Tab::Submissions => "Submissions"@,
        }
    }

    /// The `problem-tab--<slug>` modifier token.
    pub fn slug(self) -> (s: &'static str)
        ensures
            s@ == self.spec_slug(),
    {
        match self {
            Tab::Description => "description",
            Tab::Editorial => "editorial",
            Tab::Coach => "coach",
            Tab::Submissions => "submissions",
        }
    }

    pub fn label(self) -> (s: &'static str)
        ensures
            s@ == self.spec_label(),
    {
        match self {
            Tab::Description => "Description",
            Tab::Editorial => "Editorial",
            Tab::Coach => "Coach",
            Tab::Submissions => "Submissions",
        }
    }
}

/// Tab order, which is also render order.
pub fn tabs() -> (t: [Tab; 4])
    ensures
        t@ == seq![Tab::Description, Tab::Editorial, Tab::Coach, Tab::Submissions],
{
    [Tab::Description, Tab::Editorial, Tab::Coach, Tab::Submissions]
}

/// Lowercase, trimmed, inner whitespace collapsed.
pub open spec fn spec_normalize(label: Seq<char>) -> Seq<char> {
    lowercased(join(words(label), " "@))
}

pub fn normalize_chars(label: &Vec<char>) -> (out: Vec<char>)
    ensures
        out@ == spec_normalize(label@),
{
    let ws = words_of(label);
    let joined = join_with(&ws, &lit(" "));
    to_lower(&joined)
}

/// Lowercase, trimmed, inner whitespace collapsed — so `"Complexity  Analysis"` from one
/// problem's heading matches `"Complexity Analysis"` from another's.
pub fn normalize_label(label: &str) -> (out: String)
    ensures
        out@ == spec_normalize(label@),
{
    string_of(&normalize_chars(&chars_of(label)))
}

/// The first position at or after `i` whose label normalises to `wanted`.
pub open spec fn position_from(labels: Seq<Seq<char>>, wanted: Seq<char>, i: int) -> Option<int>
    decreases labels.len() - i,
{
    if i < 0 || i >= labels.len() {
        None
    } else if spec_normalize(labels[i]) == wanted {
        Some(i)
    } else {
        position_from(labels, wanted, i + 1)
    }
}

pub open spec fn spec_section_index(labels: Seq<Seq<char>>, preferred: Seq<char>) -> int {
    let wanted = spec_normalize(preferred);
    if wanted.len() == 0 {
        0
    } else {
        match position_from(labels, wanted, 0) {
            Some(i) => i,
            None => 0,
        }
    }
}

pub proof fn lemma_position_from_bounds(labels: Seq<Seq<char>>, wanted: Seq<char>, i: int)
    requires
        0 <= i,
    ensures
        position_from(labels, wanted, i) matches Some(k) ==> i <= k < labels.len()
            && spec_normalize(labels[k]) == wanted,
    decreases labels.len() - i,
{
    if i < labels.len() && spec_normalize(labels[i]) != wanted {
        lemma_position_from_bounds(labels, wanted, i + 1);
    }
}

/// Which section to reveal, given this editorial's labels and the remembered one. No match —
/// including a blank preference or an editorial that has no sections — reveals the first.
pub fn section_index(labels: &[String], preferred: &str) -> (i: usize)
    ensures
        i as int == spec_section_index(string_views(labels@), preferred@),
        labels@.len() == 0 ==> i == 0,
        labels@.len() > 0 ==> i < labels@.len(),
{
    let ghost ls = string_views(labels@);
    let wanted = normalize_chars(&chars_of(preferred));
    if wanted.len() == 0 {
        return 0;
    }
    let mut i: usize = 0;
    while i < labels.len()
        invariant
            i <= labels@.len(),
            ls == string_views(labels@),
            wanted.len() > 0,
            wanted@ == spec_normalize(preferred@),
            position_from(ls, wanted@, 0) == position_from(ls, wanted@, i as int),
        decreases labels.len() - i,
    {
        let norm = normalize_chars(&chars_of_string(&labels[i]));
        assert(ls[i as int] == labels@[i as int]@);
        if same(&norm, &wanted) {
            return i;
        }
        i = i + 1;
    }
    0
}


/// `two-sum` → `Two Sum`: every dash-separated word capitalised, joined by spaces (the
/// problem page's fallback title).
pub fn humanize(slug: &str) -> (out: String)
    ensures
        out@ == join(split_char(slug@, '-').map_values(|w: Seq<char>| capitalize(w)), " "@),
{
    let pieces = split_on(&chars_of(slug), '-');
    let ghost pv = seqs(pieces@);
    let mut words: Vec<Vec<char>> = Vec::new();
    let mut i: usize = 0;
    while i < pieces.len()
        invariant
            i <= pieces@.len(),
            pv == seqs(pieces@),
            seqs(words@) == pv.take(i as int).map_values(|w: Seq<char>| capitalize(w)),
        decreases pieces.len() - i,
    {
        assert(pv[i as int] == pieces@[i as int]@);
        let w = capitalized(&pieces[i]);
        let ghost prev = words@;
        words.push(w);
        proof {
            lemma_seqs_push(prev, w);
        }
        assert(pv.take(i + 1).map_values(|w: Seq<char>| capitalize(w)) =~= pv.take(i as int).map_values(
            |w: Seq<char>| capitalize(w),
        ).push(capitalize(pv[i as int])));
        i = i + 1;
    }
    assert(pv.take(pieces@.len() as int) =~= pv);
    string_of(&join_with(&words, &lit(" ")))
}


/// The section revealed is the first whose label matches the (non-blank) preference, wherever it
/// stands; with a blank preference or no match, the first.
pub proof fn lemma_section_index_first(labels: Seq<Seq<char>>, preferred: Seq<char>)
    ensures
        ({
            let wanted = spec_normalize(preferred);
            let r = spec_section_index(labels, preferred);
            &&& (wanted.len() > 0 && exists|k: int| 0 <= k < labels.len() && #[trigger] spec_normalize(labels[k]) == wanted)
                ==> 0 <= r < labels.len() && spec_normalize(labels[r]) == wanted && forall|j: int|
                0 <= j < r ==> #[trigger] spec_normalize(labels[j]) != wanted
            &&& !(wanted.len() > 0 && exists|k: int| 0 <= k < labels.len() && #[trigger] spec_normalize(labels[k]) == wanted)
                ==> r == 0
        }),
{
    let wanted = spec_normalize(preferred);
    lemma_position_from_none_before(labels, wanted, 0);
    lemma_position_from_bounds(labels, wanted, 0);
}

/// The first match at or after `i`: none before it, and none at all when there is no result.
proof fn lemma_position_from_none_before(labels: Seq<Seq<char>>, wanted: Seq<char>, i: int)
    requires
        0 <= i,
    ensures
        position_from(labels, wanted, i) matches Some(k) ==> forall|j: int|
            i <= j < k ==> #[trigger] spec_normalize(labels[j]) != wanted,
        position_from(labels, wanted, i) is None ==> forall|j: int|
            i <= j < labels.len() ==> #[trigger] spec_normalize(labels[j]) != wanted,
    decreases labels.len() - i,
{
    if i < labels.len() && spec_normalize(labels[i]) != wanted {
        lemma_position_from_none_before(labels, wanted, i + 1);
    }
}

} // verus!

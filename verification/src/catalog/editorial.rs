//! The editorial document model. One markdown string in — the sidecar or the inline
//! `<details>` tail, they share a shape — and a typed `EditorialDoc` out: approaches for the
//! stepper, sections for the jump bar, complexity claims for the cards.
//!
//! Two authored formats exist. Type 1 is flat (`## Intuition` / `## Approach` /
//! `## Solution` / `## Complexity Analysis`); type 2 nests the same set as `###`
//! subsections under one `##` heading PER APPROACH (`## Brute Force`, `## Optimal 1`, …).
//! Both are parsed by the same splitter; `multi` is detected, never declared. Anything else
//! degrades to a plain sectioned document.

use vstd::prelude::*;

use crate::catalog::pane::{normalize_chars, spec_normalize};
use crate::execution::practice::{claims_of, cpair_views, spec_solution_complexities};
use crate::text::{
    chars_of, chars_of_string, copy_chars, ends_with, find, find_in, has_prefix, has_suffix, join,
    join_with, lines, lines_of, lit, same, seqs, slice, starts_with, string_of, strip_leading,
    strip_leading_char, trim, trim_end, trim_start, trimmed, trimmed_end, trimmed_start, words,
    words_of,
};

verus! {

#[derive(Debug, Clone, Copy, PartialEq, Eq, Structural)]
pub enum SectionKind {
    Intuition,
    Approach,
    Solution,
    Complexity,
    Other,
}

/// One rendered section: the author's heading (empty for an approach's leading prose) and
/// its body WITHOUT the heading line.
#[derive(Debug, PartialEq, Eq)]
pub struct SectionDoc {
    pub label: String,
    pub kind: SectionKind,
    pub md: String,
}

/// One approach: its heading label ("" for the single format), the complexity claims from
/// its first `solution` fence meta, and its sections in authoring order.
#[derive(Debug, PartialEq, Eq)]
pub struct ApproachDoc {
    pub label: String,
    pub time: Option<String>,
    pub space: Option<String>,
    pub sections: Vec<SectionDoc>,
}

#[derive(Debug, PartialEq, Eq)]
pub struct EditorialDoc {
    /// Prose before the first heading — always visible, above the jump bar's sections.
    pub preamble: String,
    /// One entry for the single format, two or more when the stepper applies.
    pub approaches: Vec<ApproachDoc>,
    /// Whether `approaches` came from top-level `##` approach headings.
    pub multi: bool,
}

pub struct SectionView {
    pub label: Seq<char>,
    pub kind: SectionKind,
    pub md: Seq<char>,
}

pub struct ApproachView {
    pub label: Seq<char>,
    pub time: Option<Seq<char>>,
    pub space: Option<Seq<char>>,
    pub sections: Seq<SectionView>,
}

pub struct EditorialView {
    pub preamble: Seq<char>,
    pub approaches: Seq<ApproachView>,
    pub multi: bool,
}

pub open spec fn opt_view(o: Option<String>) -> Option<Seq<char>> {
    match o {
        Some(s) => Some(s@),
        None => None,
    }
}

impl View for SectionDoc {
    type V = SectionView;

    open spec fn view(&self) -> SectionView {
        SectionView { label: self.label@, kind: self.kind, md: self.md@ }
    }
}

pub open spec fn section_views(v: Seq<SectionDoc>) -> Seq<SectionView> {
    v.map_values(|s: SectionDoc| s@)
}

impl View for ApproachDoc {
    type V = ApproachView;

    open spec fn view(&self) -> ApproachView {
        ApproachView {
            label: self.label@,
            time: opt_view(self.time),
            space: opt_view(self.space),
            sections: section_views(self.sections@),
        }
    }
}

pub open spec fn approach_views(v: Seq<ApproachDoc>) -> Seq<ApproachView> {
    v.map_values(|a: ApproachDoc| a@)
}

impl View for EditorialDoc {
    type V = EditorialView;

    open spec fn view(&self) -> EditorialView {
        EditorialView {
            preamble: self.preamble@,
            approaches: approach_views(self.approaches@),
            multi: self.multi,
        }
    }
}

// ─────────────────────────────────────────────────────────────────────────────
// SECTION KINDS
// ─────────────────────────────────────────────────────────────────────────────

pub open spec fn spec_section_kind(label: Seq<char>) -> SectionKind {
    let norm = spec_normalize(label);
    if norm == "intuition"@ {
        SectionKind::Intuition
    } else if norm == "approach"@ {
        SectionKind::Approach
    } else if norm == "solution"@ || norm == "solutions"@ || norm == "code"@ {
        SectionKind::Solution
    } else if starts_with(norm, "complexity"@) {
        SectionKind::Complexity
    } else {
        SectionKind::Other
    }
}

fn kind_of(label: &Vec<char>) -> (k: SectionKind)
    ensures
        k == spec_section_kind(label@),
{
    let norm = normalize_chars(label);
    if same(&norm, &lit("intuition")) {
        SectionKind::Intuition
    } else if same(&norm, &lit("approach")) {
        SectionKind::Approach
    } else if same(&norm, &lit("solution")) || same(&norm, &lit("solutions")) || same(
        &norm,
        &lit("code"),
    ) {
        SectionKind::Solution
    } else if has_prefix(&norm, &lit("complexity")) {
        SectionKind::Complexity
    } else {
        SectionKind::Other
    }
}

/// The canonical kind behind a heading, via the same normalisation the remembered-section
/// matcher uses. A `complexity` prefix covers both "Complexity" and "Complexity Analysis".
pub fn section_kind(label: &str) -> (k: SectionKind)
    ensures
        k == spec_section_kind(label@),
{
    kind_of(&chars_of(label))
}

// ─────────────────────────────────────────────────────────────────────────────
// HEADING SPLIT — fence-aware, at line-start markers
// ─────────────────────────────────────────────────────────────────────────────

/// A line that opens or closes a code fence.
pub open spec fn is_fence_line(line: Seq<char>) -> bool {
    starts_with(trim_start(line), "```"@)
}

pub struct HeadScan {
    pub in_fence: bool,
    pub pre: Seq<Seq<char>>,
    pub secs: Seq<(Seq<char>, Seq<Seq<char>>)>,
}

pub open spec fn push_line(st: HeadScan, line: Seq<char>) -> HeadScan {
    if st.secs.len() == 0 {
        HeadScan { in_fence: st.in_fence, pre: st.pre.push(line), secs: st.secs }
    } else {
        HeadScan {
            in_fence: st.in_fence,
            pre: st.pre,
            secs: st.secs.update(
                st.secs.len() - 1,
                (st.secs.last().0, st.secs.last().1.push(line)),
            ),
        }
    }
}

pub open spec fn head_step(st: HeadScan, line: Seq<char>, marker: Seq<char>) -> HeadScan {
    if is_fence_line(line) {
        push_line(HeadScan { in_fence: !st.in_fence, pre: st.pre, secs: st.secs }, line)
    } else if !st.in_fence && starts_with(line, marker) {
        HeadScan {
            in_fence: st.in_fence,
            pre: st.pre,
            secs: st.secs.push((trim(line.skip(marker.len() as int)), Seq::<Seq<char>>::empty())),
        }
    } else {
        push_line(st, line)
    }
}

pub open spec fn head_scan(ls: Seq<Seq<char>>, marker: Seq<char>) -> HeadScan
    decreases ls.len(),
{
    if ls.len() == 0 {
        HeadScan { in_fence: false, pre: Seq::empty(), secs: Seq::empty() }
    } else {
        head_step(head_scan(ls.drop_last(), marker), ls.last(), marker)
    }
}

pub open spec fn body_text(s: (Seq<char>, Seq<Seq<char>>)) -> (Seq<char>, Seq<char>) {
    (s.0, trim(join(s.1, "\n"@)))
}

/// The preamble and the `(label, body)` sections; the heading line is consumed into the
/// label, and bodies and the preamble come back trimmed.
pub open spec fn split_headings(md: Seq<char>, marker: Seq<char>) -> (
    Seq<char>,
    Seq<(Seq<char>, Seq<char>)>,
) {
    let st = head_scan(lines(md), marker);
    (trim(join(st.pre, "\n"@)), st.secs.map_values(|s: (Seq<char>, Seq<Seq<char>>)| body_text(s)))
}

/// The scan before any heading keeps every line as preamble; the first heading line ends the
/// preamble, which is then a prefix of the lines that stays fixed, and labels the first section.
pub proof fn lemma_head_scan_pre(ls: Seq<Seq<char>>, marker: Seq<char>)
    ensures
        head_scan(ls, marker).pre.len() <= ls.len(),
        head_scan(ls, marker).pre == ls.take(head_scan(ls, marker).pre.len() as int),
        head_scan(ls, marker).secs.len() == 0 ==> head_scan(ls, marker).pre.len() == ls.len(),
        head_scan(ls, marker).secs.len() > 0 ==> {
            let k = head_scan(ls, marker).pre.len() as int;
            &&& k < ls.len()
            &&& starts_with(ls[k], marker)
            &&& head_scan(ls, marker).secs[0].0 == trim(ls[k].skip(marker.len() as int))
        },
    decreases ls.len(),
{
    if ls.len() > 0 {
        let dl = ls.drop_last();
        lemma_head_scan_pre(dl, marker);
        let st = head_scan(dl, marker);
        let k = st.pre.len() as int;
        assert(ls.take(k) =~= dl.take(k));
        if st.secs.len() == 0 {
            assert(ls.take(ls.len() as int) =~= ls);
            assert(dl.push(ls.last()) =~= ls);
            assert(ls[k] == ls.last());
        } else {
            assert(ls[k] == dl[k]);
        }
    }
}

/// A split's preamble is the trimmed text of the lines before its first heading line, or of
/// all the lines when there is no heading; the first section is labelled by that heading line.
pub proof fn lemma_split_preamble(md: Seq<char>, marker: Seq<char>)
    ensures
        split_headings(md, marker).1.len() == 0 ==> split_headings(md, marker).0 == trim(
            join(lines(md), "\n"@),
        ),
        split_headings(md, marker).1.len() > 0 ==> exists|k: int|
            0 <= k < lines(md).len() && starts_with(#[trigger] lines(md)[k], marker) && split_headings(
                md,
                marker,
            ).0 == trim(join(lines(md).take(k), "\n"@)) && split_headings(md, marker).1[0].0 == trim(
                lines(md)[k].skip(marker.len() as int),
            ),
{
    let ls = lines(md);
    lemma_head_scan_pre(ls, marker);
    let st = head_scan(ls, marker);
    if st.secs.len() == 0 {
        assert(ls.take(ls.len() as int) =~= ls);
    } else {
        let k = st.pre.len() as int;
        assert(split_headings(md, marker).1[0] == body_text(st.secs[0]));
        assert(starts_with(lines(md)[k], marker));
    }
}

pub open spec fn raw_views(v: Seq<(Vec<char>, Vec<Vec<char>>)>) -> Seq<(Seq<char>, Seq<Seq<char>>)> {
    v.map_values(|p: (Vec<char>, Vec<Vec<char>>)| (p.0@, seqs(p.1@)))
}

fn fence_line(line: &Vec<char>) -> (b: bool)
    ensures
        b == is_fence_line(line@),
{
    has_prefix(&trimmed_start(line), &lit("```"))
}

/// Fence-aware split at line-start heading markers.
fn split_at_headings(md: &Vec<char>, marker: &Vec<char>) -> (r: (Vec<char>, Vec<(Vec<char>, Vec<char>)>))
    ensures
        r.0@ == split_headings(md@, marker@).0,
        cpair_views(r.1@) == split_headings(md@, marker@).1,
{
    let ls = lines_of(md);
    let ghost lv = seqs(ls@);
    let mut in_fence = false;
    let mut pre: Vec<Vec<char>> = Vec::new();
    let mut secs: Vec<(Vec<char>, Vec<Vec<char>>)> = Vec::new();
    let mut i: usize = 0;
    assert(seqs(pre@) =~= Seq::<Seq<char>>::empty());
    assert(raw_views(secs@) =~= Seq::<(Seq<char>, Seq<Seq<char>>)>::empty());
    assert(lv.take(0) =~= Seq::<Seq<char>>::empty());
    while i < ls.len()
        invariant
            i <= ls.len(),
            lv == seqs(ls@),
            head_scan(lv.take(i as int), marker@) == (HeadScan {
                in_fence,
                pre: seqs(pre@),
                secs: raw_views(secs@),
            }),
        decreases ls.len() - i,
    {
        let line = &ls[i];
        assert(lv.take(i + 1).drop_last() =~= lv.take(i as int));
        assert(lv.take(i + 1).last() == line@);
        let ghost st = head_scan(lv.take(i as int), marker@);
        let is_fence = fence_line(line);
        let heading = !is_fence && !in_fence && has_prefix(line, marker);
        if is_fence {
            in_fence = !in_fence;
        }
        if heading {
            let label = trimmed(&slice(line, marker.len(), line.len()));
            assert(line@.subrange(marker.len() as int, line.len() as int) =~= line@.skip(
                marker.len() as int,
            ));
            let ghost prev = raw_views(secs@);
            let empty_body: Vec<Vec<char>> = Vec::new();
            assert(seqs(empty_body@) =~= Seq::<Seq<char>>::empty());
            secs.push((label, empty_body));
            assert(raw_views(secs@) =~= prev.push((label@, Seq::<Seq<char>>::empty())));
        } else {
            if secs.len() == 0 {
                let ghost prev = seqs(pre@);
                pre.push(copy_chars(line));
                assert(seqs(pre@) =~= prev.push(line@));
            } else {
                let ghost prev = raw_views(secs@);
                let last = secs.pop();
                match last {
                    Some(p) => {
                        let (label, mut body) = p;
                        let ghost pb = seqs(body@);
                        body.push(copy_chars(line));
                        assert(seqs(body@) =~= pb.push(line@));
                        secs.push((label, body));
                        assert(raw_views(secs@) =~= prev.update(
                            prev.len() - 1,
                            (prev.last().0, prev.last().1.push(line@)),
                        ));
                    },
                    None => {},
                }
            }
        }
        i = i + 1;
    }
    assert(lv.take(ls.len() as int) =~= lv);
    let preamble = trimmed(&join_with(&pre, &lit("\n")));
    let mut out: Vec<(Vec<char>, Vec<char>)> = Vec::new();
    let ghost sv = raw_views(secs@);
    let mut k: usize = 0;
    while k < secs.len()
        invariant
            k <= secs.len(),
            sv == raw_views(secs@),
            cpair_views(out@) == sv.take(k as int).map_values(
                |s: (Seq<char>, Seq<Seq<char>>)| body_text(s),
            ),
        decreases secs.len() - k,
    {
        let label = copy_chars(&secs[k].0);
        let body = trimmed(&join_with(&secs[k].1, &lit("\n")));
        assert(sv[k as int] == (secs@[k as int].0@, seqs(secs@[k as int].1@)));
        let ghost prev = cpair_views(out@);
        assert(body_text(sv[k as int]) == (label@, body@));
        out.push((label, body));
        assert(cpair_views(out@) =~= prev.push((label@, body@)));
        k = k + 1;
        assert(cpair_views(out@) =~= sv.take(k as int).map_values(
            |s: (Seq<char>, Seq<Seq<char>>)| body_text(s),
        ));
    }
    assert(sv.take(secs.len() as int) =~= sv);
    (preamble, out)
}

/// Whether a top-level section body carries a canonical `###` subsection — the
/// multi-approach discriminator (an approach heading is free text; its CONTENTS are the
/// recognisable part).
pub open spec fn spec_has_canonical_sub(body: Seq<char>) -> bool {
    let subs = split_headings(body, "### "@).1;
    exists|i: int| 0 <= i < subs.len() && spec_section_kind(#[trigger] subs[i].0) != SectionKind::Other
}

fn has_canonical_subheading(body: &Vec<char>) -> (b: bool)
    ensures
        b == spec_has_canonical_sub(body@),
{
    let (_, subs) = split_at_headings(body, &lit("### "));
    let ghost sv = cpair_views(subs@);
    let mut i: usize = 0;
    while i < subs.len()
        invariant
            i <= subs.len(),
            sv == cpair_views(subs@),
            sv == split_headings(body@, "### "@).1,
            forall|j: int| 0 <= j < i ==> spec_section_kind(#[trigger] sv[j].0) == SectionKind::Other,
        decreases subs.len() - i,
    {
        assert(sv[i as int].0 == subs@[i as int].0@);
        if kind_of(&subs[i].0) != SectionKind::Other {
            assert(spec_section_kind(sv[i as int].0) != SectionKind::Other);
            return true;
        }
        i = i + 1;
    }
    false
}

// ─────────────────────────────────────────────────────────────────────────────
// SPOILER WRAPPER — the inline editorial arrives wearing `<details>`
// ─────────────────────────────────────────────────────────────────────────────

pub open spec fn first_nonblank_from(ls: Seq<Seq<char>>, i: int) -> Option<int>
    decreases ls.len() - i,
{
    if i < 0 || i >= ls.len() {
        None
    } else if trim(ls[i]).len() > 0 {
        Some(i)
    } else {
        first_nonblank_from(ls, i + 1)
    }
}

pub open spec fn is_summary_line(l: Seq<char>) -> bool {
    starts_with(trim(l), "<summary"@) && ends_with(trim(l), "</summary>"@)
}

/// Fence state and the last fence-outside `</details>` line of `ls`.
pub open spec fn close_scan(ls: Seq<Seq<char>>) -> (bool, Option<int>)
    decreases ls.len(),
{
    if ls.len() == 0 {
        (false, None)
    } else {
        let st = close_scan(ls.drop_last());
        let line = ls.last();
        if is_fence_line(line) {
            (!st.0, st.1)
        } else if !st.0 && trim(line) == "</details>"@ {
            (st.0, Some(ls.len() - 1))
        } else {
            st
        }
    }
}

/// Line `j` closes the wrapper: it is no fence line, stands outside every fence (an even number
/// of fence lines before it) and reads `</details>` once trimmed.
pub open spec fn is_closing(ls: Seq<Seq<char>>, j: int) -> bool {
    0 <= j < ls.len() && !is_fence_line(ls[j]) && crate::catalog::fence_count(ls, j) % 2 == 0 && trim(ls[j])
        == "</details>"@
}

proof fn lemma_fence_count_prefix(ls: Seq<Seq<char>>, j: int)
    requires
        ls.len() > 0,
        j <= ls.len() - 1,
    ensures
        crate::catalog::fence_count(ls, j) == crate::catalog::fence_count(ls.drop_last(), j),
    decreases j,
{
    if j > 0 {
        lemma_fence_count_prefix(ls, j - 1);
    }
}

/// The wrapper's closing line is the last `</details>` outside every fence, and there is none
/// when no line closes; the scan ends inside a fence exactly when an odd number of lines open or
/// close one.
pub proof fn lemma_close_scan_last(ls: Seq<Seq<char>>)
    ensures
        close_scan(ls).0 == (crate::catalog::fence_count(ls, ls.len() as int) % 2 == 1),
        close_scan(ls).1 matches Some(at) ==> is_closing(ls, at) && forall|j: int|
            at < j < ls.len() ==> !#[trigger] is_closing(ls, j),
        close_scan(ls).1 is None ==> forall|j: int| 0 <= j < ls.len() ==> !#[trigger] is_closing(ls, j),
    decreases ls.len(),
{
    if ls.len() > 0 {
        let dl = ls.drop_last();
        let n = ls.len() - 1;
        lemma_close_scan_last(dl);
        assert forall|j: int| 0 <= j <= n implies crate::catalog::fence_count(ls, j)
            == crate::catalog::fence_count(dl, j) by {
            lemma_fence_count_prefix(ls, j);
        }
        assert forall|j: int| 0 <= j < n implies #[trigger] is_closing(ls, j) == is_closing(dl, j) by {
            assert(ls[j] == dl[j]);
        }
        assert(crate::catalog::fence_count(ls, ls.len() as int) == crate::catalog::fence_count(ls, n) + if crate::catalog::is_fence(
            ls[n],
        ) {
            1nat
        } else {
            0nat
        });
        assert(ls[n] == ls.last());
    }
}

/// The OUTER wrapper — and only it — comes off: the opening line, its `<summary>` line, and
/// the last fence-outside `</details>`. Nested details deeper in the document survive.
pub open spec fn spec_strip_spoiler(md: Seq<char>) -> Seq<char> {
    let t = trim(md);
    if !starts_with(t, "<details"@) {
        md
    } else {
        let ls = lines(t).drop_first();
        let ls2 = match first_nonblank_from(ls, 0) {
            Some(f) => if is_summary_line(ls[f]) {
                ls.remove(f)
            } else {
                ls
            },
            None => ls,
        };
        let ls3 = match close_scan(ls2).1 {
            Some(at) => ls2.remove(at),
            None => ls2,
        };
        trim(join(ls3, "\n"@))
    }
}

pub proof fn lemma_close_scan_bounds(ls: Seq<Seq<char>>)
    ensures
        close_scan(ls).1 matches Some(k) ==> 0 <= k < ls.len(),
    decreases ls.len(),
{
    if ls.len() > 0 {
        lemma_close_scan_bounds(ls.drop_last());
    }
}

pub proof fn lemma_first_nonblank_bounds(ls: Seq<Seq<char>>, i: int)
    requires
        0 <= i,
    ensures
        first_nonblank_from(ls, i) matches Some(k) ==> i <= k < ls.len(),
    decreases ls.len() - i,
{
    if i < ls.len() && trim(ls[i]).len() == 0 {
        lemma_first_nonblank_bounds(ls, i + 1);
    }
}

proof fn lemma_seqs_remove(v: Seq<Vec<char>>, i: int)
    requires
        0 <= i < v.len(),
    ensures
        seqs(v.remove(i)) == seqs(v).remove(i),
{
    assert(seqs(v.remove(i)) =~= seqs(v).remove(i));
}

fn strip_spoiler_wrapper(md: &Vec<char>) -> (out: Vec<char>)
    ensures
        out@ == spec_strip_spoiler(md@),
{
    let t = trimmed(md);
    if !has_prefix(&t, &lit("<details")) {
        return copy_chars(md);
    }
    proof {
        reveal_strlit("<details");
        crate::text::lemma_lines_nonempty(t@);
    }
    let mut ls = lines_of(&t);
    let ghost before = ls@;
    ls.remove(0);
    proof {
        lemma_seqs_remove(before, 0);
        assert(seqs(before).remove(0) =~= seqs(before).drop_first());
    }
    let ghost lv = seqs(ls@);
    assert(lv == lines(t@).drop_first());
    // the first non-blank line, when it is the `<summary>` line
    let mut f: usize = 0;
    while f < ls.len() && trimmed(&ls[f]).len() == 0
        invariant
            f <= ls.len(),
            lv == seqs(ls@),
            first_nonblank_from(lv, 0) == first_nonblank_from(lv, f as int),
        decreases ls.len() - f,
    {
        assert(lv[f as int] == ls@[f as int]@);
        f = f + 1;
    }
    if f < ls.len() {
        assert(lv[f as int] == ls@[f as int]@);
        let head = trimmed(&ls[f]);
        if has_prefix(&head, &lit("<summary")) && has_suffix(&head, &lit("</summary>")) {
            let ghost b2 = ls@;
            ls.remove(f);
            proof {
                lemma_seqs_remove(b2, f as int);
            }
        }
    }
    let ghost lv2 = seqs(ls@);
    assert(lv2 == match first_nonblank_from(lv, 0) {
        Some(f) => if is_summary_line(lv[f]) {
            lv.remove(f)
        } else {
            lv
        },
        None => lv,
    });
    // the last fence-outside `</details>`
    let mut in_fence = false;
    let mut last_close: Option<usize> = None;
    let close_tag = lit("</details>");
    let mut i: usize = 0;
    assert(lv2.take(0) =~= Seq::<Seq<char>>::empty());
    while i < ls.len()
        invariant
            i <= ls.len(),
            lv2 == seqs(ls@),
            close_tag@ == "</details>"@,
            close_scan(lv2.take(i as int)) == (in_fence, match last_close {
                Some(k) => Some(k as int),
                None => None::<int>,
            }),
        decreases ls.len() - i,
    {
        assert(lv2.take(i + 1).drop_last() =~= lv2.take(i as int));
        assert(lv2[i as int] == ls@[i as int]@);
        if fence_line(&ls[i]) {
            in_fence = !in_fence;
        } else if !in_fence && same(&trimmed(&ls[i]), &close_tag) {
            last_close = Some(i);
        }
        i = i + 1;
    }
    assert(lv2.take(ls.len() as int) =~= lv2);
    proof {
        lemma_close_scan_bounds(lv2);
    }
    match last_close {
        Some(at) => {
            let ghost b3 = ls@;
            ls.remove(at);
            proof {
                lemma_seqs_remove(b3, at as int);
            }
        },
        None => {},
    }
    trimmed(&join_with(&ls, &lit("\n")))
}

// ─────────────────────────────────────────────────────────────────────────────
// SOLUTION FENCES — the synthesized section and the complexity claims
// ─────────────────────────────────────────────────────────────────────────────

/// A fence OPENING whose info string carries the whitespace-delimited `solution` token.
pub open spec fn is_solution_info(line: Seq<char>) -> bool {
    words(trim(strip_leading(trim_start(line), '`'))).contains("solution"@)
}

/// Fence state and the first solution-fence opening of `ls`.
pub open spec fn fence_scan(ls: Seq<Seq<char>>) -> (bool, Option<int>)
    decreases ls.len(),
{
    if ls.len() == 0 {
        (false, None)
    } else {
        let st = fence_scan(ls.drop_last());
        if st.1 is Some {
            st
        } else if is_fence_line(ls.last()) {
            if !st.0 && is_solution_info(ls.last()) {
                (st.0, Some(ls.len() - 1))
            } else {
                (!st.0, None)
            }
        } else {
            st
        }
    }
}

/// Line index of the first fence OPENING whose info string carries the `solution` token.
/// Plain fences don't count.
pub open spec fn spec_solution_fence_start(md: Seq<char>) -> Option<int> {
    fence_scan(lines(md)).1
}

pub proof fn lemma_fence_scan_bounds(ls: Seq<Seq<char>>)
    ensures
        fence_scan(ls).1 matches Some(k) ==> 0 <= k < ls.len(),
    decreases ls.len(),
{
    if ls.len() > 0 {
        lemma_fence_scan_bounds(ls.drop_last());
    }
}

/// The full info string of the first `solution` fence.
pub open spec fn spec_first_solution_meta(md: Seq<char>) -> Option<Seq<char>> {
    match spec_solution_fence_start(md) {
        Some(at) => Some(trim(strip_leading(trim_start(lines(md)[at]), '`'))),
        None => None,
    }
}

fn fence_info(line: &Vec<char>) -> (out: Vec<char>)
    ensures
        out@ == trim(strip_leading(trim_start(line@), '`')),
{
    trimmed(&strip_leading_char(&trimmed_start(line), '`'))
}

fn has_solution_token(line: &Vec<char>) -> (b: bool)
    ensures
        b == is_solution_info(line@),
{
    let ws = words_of(&fence_info(line));
    let target = lit("solution");
    let mut k: usize = 0;
    while k < ws.len()
        invariant
            k <= ws.len(),
            target@ == "solution"@,
            seqs(ws@) == words(trim(strip_leading(trim_start(line@), '`'))),
            forall|j: int| 0 <= j < k ==> seqs(ws@)[j] != "solution"@,
        decreases ws.len() - k,
    {
        if same(&ws[k], &target) {
            assert(seqs(ws@)[k as int] == "solution"@);
            return true;
        }
        k = k + 1;
    }
    false
}

/// Line index and lines of `md` at the first solution-fence opening.
fn solution_fence_start(md: &Vec<char>) -> (r: (Option<usize>, Vec<Vec<char>>))
    ensures
        seqs(r.1@) == lines(md@),
        r.0 matches Some(k) ==> spec_solution_fence_start(md@) == Some(k as int) && k < r.1.len(),
        r.0 is None ==> spec_solution_fence_start(md@) is None,
{
    let ls = lines_of(md);
    let ghost lv = seqs(ls@);
    let mut in_fence = false;
    let mut i: usize = 0;
    assert(lv.take(0) =~= Seq::<Seq<char>>::empty());
    while i < ls.len()
        invariant
            i <= ls.len(),
            lv == seqs(ls@),
            lv == lines(md@),
            fence_scan(lv.take(i as int)) == (in_fence, None::<int>),
        decreases ls.len() - i,
    {
        assert(lv.take(i + 1).drop_last() =~= lv.take(i as int));
        assert(lv[i as int] == ls@[i as int]@);
        if fence_line(&ls[i]) {
            if !in_fence && has_solution_token(&ls[i]) {
                proof {
                    lemma_fence_scan_prefix(lv, i as int + 1);
                }
                return (Some(i), ls);
            }
            in_fence = !in_fence;
        }
        i = i + 1;
    }
    assert(lv.take(ls.len() as int) =~= lv);
    (None, ls)
}

/// Once found in a prefix, the first solution fence stays found.
pub proof fn lemma_fence_scan_prefix(ls: Seq<Seq<char>>, n: int)
    requires
        0 <= n <= ls.len(),
        fence_scan(ls.take(n)).1 is Some,
    ensures
        fence_scan(ls).1 == fence_scan(ls.take(n)).1,
    decreases ls.len() - n,
{
    if n < ls.len() {
        assert(ls.take(n + 1).drop_last() =~= ls.take(n));
        lemma_fence_scan_prefix(ls, n + 1);
    } else {
        assert(ls.take(n) =~= ls);
    }
}

fn first_meta_chars(md: &Vec<char>) -> (r: Option<Vec<char>>)
    ensures
        r matches Some(m) ==> spec_first_solution_meta(md@) == Some(m@),
        r is None ==> spec_first_solution_meta(md@) is None,
{
    let (at, ls) = solution_fence_start(md);
    match at {
        Some(k) => {
            assert(seqs(ls@)[k as int] == ls@[k as int]@);
            Some(fence_info(&ls[k]))
        },
        None => None,
    }
}

/// The full info string of the first `solution` fence, e.g.
/// `python solution time=O(N) space=O(K)` — `solution_complexities` reads the claims out.
pub fn first_solution_meta(md: &str) -> (r: Option<String>)
    ensures
        opt_view(r) == spec_first_solution_meta(md@),
{
    match first_meta_chars(&chars_of(md)) {
        Some(m) => Some(string_of(&m)),
        None => None,
    }
}

/// The value of the first claim named `key`.
pub open spec fn find_claim(pairs: Seq<(Seq<char>, Seq<char>)>, key: Seq<char>, i: int) -> Option<
    Seq<char>,
>
    decreases pairs.len() - i,
{
    if i < 0 || i >= pairs.len() {
        None
    } else if pairs[i].0 == key {
        Some(pairs[i].1)
    } else {
        find_claim(pairs, key, i + 1)
    }
}

/// The `(time, space)` claims of a solution meta.
pub open spec fn spec_complexity_claims(meta: Option<Seq<char>>) -> (
    Option<Seq<char>>,
    Option<Seq<char>>,
) {
    match meta {
        None => (None, None),
        Some(m) => {
            let pairs = spec_solution_complexities(m);
            (find_claim(pairs, "time"@, 0), find_claim(pairs, "space"@, 0))
        },
    }
}

proof fn lemma_find_claim_first(pairs: Seq<(Seq<char>, Seq<char>)>, key: Seq<char>, i: int)
    requires
        0 <= i,
    ensures
        find_claim(pairs, key, i) matches Some(v) ==> exists|k: int|
            i <= k < pairs.len() && #[trigger] pairs[k] == (key, v) && forall|j: int|
                i <= j < k ==> (#[trigger] pairs[j]).0 != key,
        find_claim(pairs, key, i) is None ==> forall|j: int| i <= j < pairs.len() ==> (#[trigger] pairs[j]).0 != key,
    decreases pairs.len() - i,
{
    if i < pairs.len() && pairs[i].0 != key {
        lemma_find_claim_first(pairs, key, i + 1);
        if let Some(v) = find_claim(pairs, key, i) {
            let k = choose|k: int|
                i + 1 <= k < pairs.len() && #[trigger] pairs[k] == (key, v) && forall|j: int|
                    i + 1 <= j < k ==> (#[trigger] pairs[j]).0 != key;
            assert(forall|j: int| i <= j < k ==> (#[trigger] pairs[j]).0 != key);
        }
    } else if i < pairs.len() {
        assert(pairs[i] == (key, pairs[i].1));
    }
}

/// An approach's time and space are the first `time` and the first `space` claim of its
/// solution meta, and there is none when the meta claims none (or there is no meta).
pub proof fn lemma_complexity_claims_first(meta: Seq<char>)
    ensures
        ({
            let pairs = spec_solution_complexities(meta);
            let c = spec_complexity_claims(Some(meta));
            &&& c.0 matches Some(v) ==> exists|k: int|
                0 <= k < pairs.len() && #[trigger] pairs[k] == ("time"@, v) && forall|j: int|
                    0 <= j < k ==> (#[trigger] pairs[j]).0 != "time"@
            &&& c.0 is None ==> forall|j: int| 0 <= j < pairs.len() ==> (#[trigger] pairs[j]).0 != "time"@
            &&& c.1 matches Some(v) ==> exists|k: int|
                0 <= k < pairs.len() && #[trigger] pairs[k] == ("space"@, v) && forall|j: int|
                    0 <= j < k ==> (#[trigger] pairs[j]).0 != "space"@
            &&& c.1 is None ==> forall|j: int| 0 <= j < pairs.len() ==> (#[trigger] pairs[j]).0 != "space"@
        }),
        spec_complexity_claims(None) == (None::<Seq<char>>, None::<Seq<char>>),
{
    let pairs = spec_solution_complexities(meta);
    lemma_find_claim_first(pairs, "time"@, 0);
    lemma_find_claim_first(pairs, "space"@, 0);
}

fn claim_value(pairs: &Vec<(Vec<char>, Vec<char>)>, key: &Vec<char>) -> (r: Option<String>)
    ensures
        opt_view(r) == find_claim(cpair_views(pairs@), key@, 0),
{
    let ghost pv = cpair_views(pairs@);
    let mut i: usize = 0;
    while i < pairs.len()
        invariant
            i <= pairs.len(),
            pv == cpair_views(pairs@),
            find_claim(pv, key@, 0) == find_claim(pv, key@, i as int),
        decreases pairs.len() - i,
    {
        assert(pv[i as int] == (pairs@[i as int].0@, pairs@[i as int].1@));
        if same(&pairs[i].0, key) {
            return Some(string_of(&pairs[i].1));
        }
        i = i + 1;
    }
    None
}

fn complexity_claims(meta: Option<Vec<char>>) -> (r: (Option<String>, Option<String>))
    ensures
        (opt_view(r.0), opt_view(r.1)) == spec_complexity_claims(match meta {
            Some(m) => Some(m@),
            None => None,
        }),
{
    match meta {
        None => (None, None),
        Some(m) => {
            let pairs = claims_of(&m);
            (claim_value(&pairs, &lit("time")), claim_value(&pairs, &lit("space")))
        },
    }
}

// ─────────────────────────────────────────────────────────────────────────────
// SOLUTION SYNTHESIS — fences without a Solution heading
// ─────────────────────────────────────────────────────────────────────────────

pub open spec fn has_solution_section(secs: Seq<SectionView>) -> bool {
    exists|i: int| 0 <= i < secs.len() && (#[trigger] secs[i]).kind == SectionKind::Solution
}

pub open spec fn first_fence_section(secs: Seq<SectionView>, i: int) -> Option<int>
    decreases secs.len() - i,
{
    if i < 0 || i >= secs.len() {
        None
    } else if spec_solution_fence_start(secs[i].md) is Some {
        Some(i)
    } else {
        first_fence_section(secs, i + 1)
    }
}

/// The section split at its first solution fence: `(head, tail)`, both trimmed.
pub open spec fn fence_split(md: Seq<char>, fl: int) -> (Seq<char>, Seq<char>) {
    let ls = lines(md);
    (trim(join(ls.take(fl), "\n"@)), trim(join(ls.skip(fl), "\n"@)))
}

/// When no Solution section exists but a `solution` fence does, the owning section splits at
/// the first fence line and the tail becomes a synthetic Solution section right after it (or
/// replaces the section outright when nothing precedes the fence). An explicit Solution
/// heading suppresses this entirely.
pub open spec fn spec_synthesize(secs: Seq<SectionView>) -> Seq<SectionView> {
    if has_solution_section(secs) {
        secs
    } else {
        match first_fence_section(secs, 0) {
            None => secs,
            Some(i) => match spec_solution_fence_start(secs[i].md) {
                None => secs,
                Some(fl) => {
                    let parts = fence_split(secs[i].md, fl);
                    let sol = SectionView {
                        label: "Solution"@,
                        kind: SectionKind::Solution,
                        md: parts.1,
                    };
                    if parts.0.len() == 0 {
                        secs.update(i, sol)
                    } else {
                        secs.update(
                            i,
                            SectionView { label: secs[i].label, kind: secs[i].kind, md: parts.0 },
                        ).insert(i + 1, sol)
                    }
                },
            },
        }
    }
}

proof fn lemma_first_fence_section(secs: Seq<SectionView>, i: int)
    requires
        0 <= i,
    ensures
        first_fence_section(secs, i) matches Some(k) ==> i <= k < secs.len()
            && spec_solution_fence_start(secs[k].md) is Some && forall|j: int|
            i <= j < k ==> spec_solution_fence_start((#[trigger] secs[j]).md) is None,
        first_fence_section(secs, i) is None ==> forall|j: int|
            i <= j < secs.len() ==> spec_solution_fence_start((#[trigger] secs[j]).md) is None,
    decreases secs.len() - i,
{
    if i < secs.len() && spec_solution_fence_start(secs[i].md) is None {
        lemma_first_fence_section(secs, i + 1);
    }
}

/// Synthesis touches one section at most. An explicit Solution section, or no `solution` fence
/// in any section, leaves the sections as they are. Otherwise the first section with such a
/// fence gives way to its prose before the fence (if any) and then a Solution section holding
/// the rest; the sections before and after it stay, in order, and the result has a Solution.
pub proof fn lemma_synthesize_local(secs: Seq<SectionView>)
    ensures
        has_solution_section(secs) ==> spec_synthesize(secs) == secs,
        (forall|j: int| 0 <= j < secs.len() ==> spec_solution_fence_start((#[trigger] secs[j]).md) is None)
            ==> spec_synthesize(secs) == secs,
        !has_solution_section(secs) && (exists|j: int|
            0 <= j < secs.len() && spec_solution_fence_start((#[trigger] secs[j]).md) is Some) ==> {
            let out = spec_synthesize(secs);
            let i = first_fence_section(secs, 0)->0;
            let n = out.len() - secs.len();
            &&& 0 <= i < secs.len()
            &&& forall|j: int| 0 <= j < i ==> spec_solution_fence_start((#[trigger] secs[j]).md) is None
            &&& spec_solution_fence_start(secs[i].md) is Some
            &&& n == 0 || n == 1
            &&& out.take(i) == secs.take(i)
            &&& out.skip(i + n + 1) == secs.skip(i + 1)
            &&& out[i + n].kind == SectionKind::Solution
            &&& out[i + n].label == "Solution"@
            &&& n == 1 ==> out[i].label == secs[i].label && out[i].kind == secs[i].kind
            &&& has_solution_section(out)
        },
{
    lemma_first_fence_section(secs, 0);
    if !has_solution_section(secs) {
        match first_fence_section(secs, 0) {
            None => {},
            Some(i) => {
                let out = spec_synthesize(secs);
                let n = out.len() - secs.len();
                assert(out.take(i) =~= secs.take(i));
                assert(out.skip(i + n + 1) =~= secs.skip(i + 1));
                assert(out[i + n].kind == SectionKind::Solution);
                assert(has_solution_section(out));
            },
        }
    }
}

fn sub_lines(ls: &Vec<Vec<char>>, a: usize, b: usize) -> (out: Vec<Vec<char>>)
    requires
        a <= b <= ls.len(),
    ensures
        seqs(out@) == seqs(ls@).subrange(a as int, b as int),
{
    let mut out: Vec<Vec<char>> = Vec::new();
    let mut i = a;
    while i < b
        invariant
            a <= i <= b <= ls.len(),
            seqs(out@) == seqs(ls@).subrange(a as int, i as int),
        decreases b - i,
    {
        let ghost prev = seqs(out@);
        let line = copy_chars(&ls[i]);
        assert(seqs(ls@)[i as int] == line@);
        out.push(line);
        assert(seqs(out@) =~= prev.push(line@));
        i = i + 1;
        assert(seqs(out@) =~= seqs(ls@).subrange(a as int, i as int));
    }
    out
}

fn synthesize_solution(sections: &mut Vec<SectionDoc>)
    ensures
        section_views(final(sections)@) == spec_synthesize(section_views(old(sections)@)),
{
    let ghost sv = section_views(sections@);
    let mut k: usize = 0;
    while k < sections.len()
        invariant
            k <= sections.len(),
            sv == section_views(sections@),
            forall|j: int| 0 <= j < k ==> sv[j].kind != SectionKind::Solution,
        decreases sections.len() - k,
    {
        assert(sv[k as int].kind == sections@[k as int].kind);
        if sections[k].kind == SectionKind::Solution {
            assert(has_solution_section(sv));
            return;
        }
        k = k + 1;
    }
    assert(!has_solution_section(sv));
    let mut i: usize = 0;
    while i < sections.len()
        invariant
            i <= sections.len(),
            sv == section_views(sections@),
            sv == section_views(old(sections)@),
            !has_solution_section(sv),
            first_fence_section(sv, 0) == first_fence_section(sv, i as int),
        decreases sections.len() - i,
    {
        let md = chars_of_string(&sections[i].md);
        assert(sv[i as int].md == md@);
        let (fl, ls) = solution_fence_start(&md);
        match fl {
            None => {},
            Some(f) => {
                let head = trimmed(&join_with(&sub_lines(&ls, 0, f), &lit("\n")));
                let tail = trimmed(&join_with(&sub_lines(&ls, f, ls.len()), &lit("\n")));
                assert(seqs(ls@).subrange(0, f as int) =~= lines(md@).take(f as int));
                assert(seqs(ls@).subrange(f as int, ls.len() as int) =~= lines(md@).skip(f as int));
                assert(first_fence_section(sv, i as int) == Some(i as int));
                assert(fence_split(sv[i as int].md, f as int) == (head@, tail@));
                let solution = SectionDoc {
                    label: string_of(&lit("Solution")),
                    kind: SectionKind::Solution,
                    md: string_of(&tail),
                };
                let ghost before = sections@;
                if head.len() == 0 {
                    sections.remove(i);
                    sections.insert(i, solution);
                    assert(section_views(sections@) =~= sv.update(i as int, solution@));
                } else {
                    let old_sec = sections.remove(i);
                    let kept = SectionDoc { label: old_sec.label, kind: old_sec.kind, md: string_of(&head) };
                    let ghost kept_view = kept@;
                    sections.insert(i, kept);
                    sections.insert(i + 1, solution);
                    assert(kept_view == (SectionView { label: sv[i as int].label, kind: sv[i as int].kind, md: head@ }));
                    assert(section_views(sections@) =~= sv.update(i as int, kept_view).insert(
                        i + 1,
                        solution@,
                    ));
                }
                return;
            },
        }
        i = i + 1;
    }
}

/// The first section (from `i`) carrying a solution meta, and that meta.
pub open spec fn first_meta_from(secs: Seq<SectionView>, i: int) -> Option<Seq<char>>
    decreases secs.len() - i,
{
    if i < 0 || i >= secs.len() {
        None
    } else {
        match spec_first_solution_meta(secs[i].md) {
            Some(m) => Some(m),
            None => first_meta_from(secs, i + 1),
        }
    }
}

pub open spec fn spec_build_approach(label: Seq<char>, secs: Seq<SectionView>) -> ApproachView {
    let s2 = spec_synthesize(secs);
    let c = spec_complexity_claims(first_meta_from(s2, 0));
    ApproachView { label, time: c.0, space: c.1, sections: s2 }
}

fn build_approach(label: String, sections: Vec<SectionDoc>) -> (a: ApproachDoc)
    ensures
        a@ == spec_build_approach(label@, section_views(sections@)),
{
    let mut sections = sections;
    synthesize_solution(&mut sections);
    let ghost s2 = section_views(sections@);
    let mut meta: Option<Vec<char>> = None;
    let mut i: usize = 0;
    while i < sections.len()
        invariant_except_break
            meta is None,
            first_meta_from(s2, 0) == first_meta_from(s2, i as int),
        invariant
            i <= sections.len(),
            s2 == section_views(sections@),
        ensures
            match &meta {
                Some(m) => first_meta_from(s2, 0) == Some(m@),
                None => first_meta_from(s2, 0) is None,
            },
        decreases sections.len() - i,
    {
        let md = chars_of_string(&sections[i].md);
        assert(s2[i as int].md == md@);
        match first_meta_chars(&md) {
            Some(m) => {
                meta = Some(m);
                break;
            },
            None => {},
        }
        i = i + 1;
    }
    let ghost mv = match &meta {
        Some(m) => Some(m@),
        None => None,
    };
    assert(mv == first_meta_from(s2, 0));
    let (time, space) = complexity_claims(meta);
    ApproachDoc { label, time, space, sections }
}

// ─────────────────────────────────────────────────────────────────────────────
// PARSE
// ─────────────────────────────────────────────────────────────────────────────

pub open spec fn section_of(p: (Seq<char>, Seq<char>)) -> SectionView {
    SectionView { label: p.0, kind: spec_section_kind(p.0), md: p.1 }
}

pub open spec fn sections_of(parts: Seq<(Seq<char>, Seq<char>)>) -> Seq<SectionView> {
    parts.map_values(|p: (Seq<char>, Seq<char>)| section_of(p))
}

/// One `##` approach of the multi format: prose before its first `###` becomes an unlabeled
/// leading section, then one section per `###` subsection.
pub open spec fn multi_approach(p: (Seq<char>, Seq<char>)) -> ApproachView {
    let sp = split_headings(p.1, "### "@);
    let lead = if sp.0.len() > 0 {
        seq![SectionView { label: Seq::empty(), kind: SectionKind::Other, md: sp.0 }]
    } else {
        Seq::<SectionView>::empty()
    };
    spec_build_approach(p.0, lead + sections_of(sp.1))
}

/// Some top-level section body carries a canonical `###` subsection.
pub open spec fn any_canonical(top: Seq<(Seq<char>, Seq<char>)>) -> bool {
    exists|i: int| 0 <= i < top.len() && spec_has_canonical_sub(#[trigger] top[i].1)
}

pub open spec fn spec_parse_editorial(raw: Seq<char>) -> EditorialView {
    let md = spec_strip_spoiler(raw);
    if trim(md).len() == 0 {
        EditorialView { preamble: Seq::empty(), approaches: Seq::empty(), multi: false }
    } else {
        let h2 = split_headings(md, "## "@);
        let split = if h2.1.len() == 0 {
            split_headings(md, "# "@)
        } else {
            h2
        };
        let top = split.1;
        if top.len() == 0 {
            let c = spec_complexity_claims(spec_first_solution_meta(md));
            EditorialView {
                preamble: trim(md),
                approaches: seq![
                    ApproachView {
                        label: Seq::empty(),
                        time: c.0,
                        space: c.1,
                        sections: Seq::empty(),
                    },
                ],
                multi: false,
            }
        } else {
            let multi = top.len() >= 2 && any_canonical(top);
            let approaches = if multi {
                top.map_values(|p: (Seq<char>, Seq<char>)| multi_approach(p))
            } else {
                seq![spec_build_approach(Seq::empty(), sections_of(top))]
            };
            EditorialView { preamble: split.0, approaches, multi }
        }
    }
}

/// The preamble of an editorial is the prose before its first top-level heading, whichever
/// format its approaches take: the split's preamble when there are top-level headings, the
/// whole (trimmed) text when there are none, and nothing for a blank text.
pub proof fn lemma_editorial_preamble(raw: Seq<char>)
    ensures
        ({
            let md = spec_strip_spoiler(raw);
            let marker = if split_headings(md, "## "@).1.len() == 0 {
                "# "@
            } else {
                "## "@
            };
            let split = split_headings(md, marker);
            &&& trim(md).len() == 0 ==> spec_parse_editorial(raw).preamble.len() == 0
            &&& trim(md).len() > 0 && split.1.len() == 0 ==> spec_parse_editorial(raw).preamble == trim(md)
            &&& trim(md).len() > 0 && split.1.len() > 0 ==> spec_parse_editorial(raw).preamble == split.0
            &&& trim(md).len() > 0 && split.1.len() > 0 ==> exists|k: int|
                0 <= k < lines(md).len() && starts_with(#[trigger] lines(md)[k], marker)
                    && spec_parse_editorial(raw).preamble == trim(join(lines(md).take(k), "\n"@))
        }),
{
    let md = spec_strip_spoiler(raw);
    let marker = if split_headings(md, "## "@).1.len() == 0 {
        "# "@
    } else {
        "## "@
    };
    lemma_split_preamble(md, marker);
}

/// The shape of a parsed editorial: no approach exactly when the text (without its spoiler
/// wrapper) is blank; the single format has at most one approach; the multi format has one per
/// top-level heading (at least two), labelled by those headings in order.
pub proof fn lemma_editorial_shape(raw: Seq<char>)
    ensures
        spec_parse_editorial(raw).approaches.len() == 0 <==> trim(spec_strip_spoiler(raw)).len() == 0,
        !spec_parse_editorial(raw).multi ==> spec_parse_editorial(raw).approaches.len() <= 1,
        spec_parse_editorial(raw).multi ==> {
            let md = spec_strip_spoiler(raw);
            let h2 = split_headings(md, "## "@);
            let top = if h2.1.len() == 0 {
                split_headings(md, "# "@).1
            } else {
                h2.1
            };
            &&& spec_parse_editorial(raw).approaches.len() == top.len()
            &&& top.len() >= 2
            &&& forall|i: int|
                0 <= i < top.len() ==> (#[trigger] spec_parse_editorial(raw).approaches[i]).label == top[i].0
        },
{
}

fn section_docs(parts: &Vec<(Vec<char>, Vec<char>)>, out: &mut Vec<SectionDoc>)
    ensures
        section_views(final(out)@) == section_views(old(out)@) + sections_of(cpair_views(parts@)),
{
    let ghost pv = cpair_views(parts@);
    let ghost start = section_views(out@);
    let mut i: usize = 0;
    while i < parts.len()
        invariant
            i <= parts.len(),
            pv == cpair_views(parts@),
            start == section_views(old(out)@),
            section_views(out@) == start + sections_of(pv.take(i as int)),
        decreases parts.len() - i,
    {
        assert(pv[i as int] == (parts@[i as int].0@, parts@[i as int].1@));
        let doc = SectionDoc {
            label: string_of(&parts[i].0),
            kind: kind_of(&parts[i].0),
            md: string_of(&parts[i].1),
        };
        let ghost prev = section_views(out@);
        assert(doc@ == section_of(pv[i as int]));
        out.push(doc);
        assert(section_views(out@) =~= prev.push(doc@));
        i = i + 1;
        assert(sections_of(pv.take(i as int)) =~= sections_of(pv.take(i - 1)).push(
            section_of(pv[i - 1]),
        ));
    }
    assert(pv.take(parts.len() as int) =~= pv);
}

fn multi_approach_doc(label: &Vec<char>, body: &Vec<char>) -> (a: ApproachDoc)
    ensures
        a@ == multi_approach((label@, body@)),
{
    let (leading, subs) = split_at_headings(body, &lit("### "));
    let mut sections: Vec<SectionDoc> = Vec::new();
    let ghost lead = if leading@.len() > 0 {
        seq![SectionView { label: Seq::empty(), kind: SectionKind::Other, md: leading@ }]
    } else {
        Seq::<SectionView>::empty()
    };
    if leading.len() > 0 {
        sections.push(SectionDoc { label: String::new(), kind: SectionKind::Other, md: string_of(&leading) });
    }
    assert(section_views(sections@) =~= lead);
    section_docs(&subs, &mut sections);
    build_approach(string_of(label), sections)
}

/// Parse an editorial markdown document into its approaches and sections.
pub fn parse_editorial(md: &str) -> (doc: EditorialDoc)
    ensures
        doc@ == spec_parse_editorial(md@),
{
    let raw = chars_of(md);
    let md = strip_spoiler_wrapper(&raw);
    if trimmed(&md).len() == 0 {
        let doc = EditorialDoc { preamble: String::new(), approaches: Vec::new(), multi: false };
        assert(approach_views(doc.approaches@) =~= Seq::<ApproachView>::empty());
        return doc;
    }
    let (p2, s2) = split_at_headings(&md, &lit("## "));
    let (preamble, top) = if s2.len() == 0 {
        split_at_headings(&md, &lit("# "))
    } else {
        (p2, s2)
    };
    let ghost tv = cpair_views(top@);
    let ghost mdv = spec_strip_spoiler(raw@);
    let ghost h2 = split_headings(mdv, "## "@);
    let ghost split = if h2.1.len() == 0 {
        split_headings(mdv, "# "@)
    } else {
        h2
    };
    assert(md@ == mdv);
    assert(tv == split.1);
    assert(preamble@ == split.0);
    if top.len() == 0 {
        let (time, space) = complexity_claims(first_meta_chars(&md));
        let mut approaches: Vec<ApproachDoc> = Vec::new();
        let bare = ApproachDoc { label: String::new(), time, space, sections: Vec::new() };
        assert(section_views(bare.sections@) =~= Seq::<SectionView>::empty());
        let ghost bare_view = bare@;
        approaches.push(bare);
        assert(approach_views(approaches@) =~= seq![bare_view]);
        return EditorialDoc { preamble: string_of(&trimmed(&md)), approaches, multi: false };
    }
    let mut multi = false;
    if top.len() >= 2 {
        let mut i: usize = 0;
        while i < top.len()
            invariant_except_break
                !multi,
            invariant
                i <= top.len(),
                tv == cpair_views(top@),
                forall|j: int| 0 <= j < i ==> !spec_has_canonical_sub(#[trigger] tv[j].1),
            ensures
                multi == exists|j: int| 0 <= j < tv.len() && spec_has_canonical_sub(#[trigger] tv[j].1),
            decreases top.len() - i,
        {
            assert(tv[i as int].1 == top@[i as int].1@);
            if has_canonical_subheading(&top[i].1) {
                multi = true;
                break;
            }
            i = i + 1;
        }
    }
    assert(multi == (tv.len() >= 2 && any_canonical(tv)));
    let mut approaches: Vec<ApproachDoc> = Vec::new();
    if multi {
        let mut i: usize = 0;
        while i < top.len()
            invariant
                i <= top.len(),
                tv == cpair_views(top@),
                approach_views(approaches@) == tv.take(i as int).map_values(
                    |p: (Seq<char>, Seq<char>)| multi_approach(p),
                ),
            decreases top.len() - i,
        {
            assert(tv[i as int] == (top@[i as int].0@, top@[i as int].1@));
            let a = multi_approach_doc(&top[i].0, &top[i].1);
            let ghost prev = approach_views(approaches@);
            let ghost av = a@;
            approaches.push(a);
            assert(approach_views(approaches@) =~= prev.push(av));
            i = i + 1;
            assert(approach_views(approaches@) =~= tv.take(i as int).map_values(
                |p: (Seq<char>, Seq<char>)| multi_approach(p),
            ));
        }
        assert(tv.take(top.len() as int) =~= tv);
    } else {
        let mut sections: Vec<SectionDoc> = Vec::new();
        assert(section_views(sections@) =~= Seq::<SectionView>::empty());
        section_docs(&top, &mut sections);
        assert(section_views(sections@) =~= sections_of(tv));
        let a = build_approach(String::new(), sections);
        let ghost av = a@;
        approaches.push(a);
        assert(approach_views(approaches@) =~= seq![av]);
    }
    let doc = EditorialDoc { preamble: string_of(&preamble), approaches, multi };
    doc
}

// ─────────────────────────────────────────────────────────────────────────────
// COMPLEXITY PROSE — `**Time Complexity:** O(…) – explanation` → the two cards
// ─────────────────────────────────────────────────────────────────────────────

/// One card's content: the O-value and its explanation prose.
#[derive(Debug, PartialEq, Eq)]
pub struct ComplexityProse {
    pub time: Option<(String, String)>,
    pub space: Option<(String, String)>,
}

pub struct ProseView {
    pub time: Option<(Seq<char>, Seq<char>)>,
    pub space: Option<(Seq<char>, Seq<char>)>,
}

pub open spec fn pair_opt_view(o: Option<(String, String)>) -> Option<(Seq<char>, Seq<char>)> {
    match o {
        Some(p) => Some((p.0@, p.1@)),
        None => None,
    }
}

impl View for ComplexityProse {
    type V = ProseView;

    open spec fn view(&self) -> ProseView {
        ProseView { time: pair_opt_view(self.time), space: pair_opt_view(self.space) }
    }
}

/// `a` equals `b` up to ASCII case, `b` being lowercased.
pub open spec fn eq_fold(a: char, b: char) -> bool {
    a == b || ('a' <= b && b <= 'z' && (a as u32) + 32 == (b as u32))
}

/// `s` begins with the lowercased needle `p`, ignoring ASCII case. For the two ASCII marker
/// needles below this is exactly "the lowercased line starts with the needle": no non-ASCII
/// character lowercases onto their letters except `İ`, whose lowercased form carries a
/// combining dot that no needle continues with.
pub open spec fn starts_with_fold(s: Seq<char>, p: Seq<char>) -> bool {
    p.len() <= s.len() && forall|i: int| 0 <= i < p.len() ==> eq_fold(#[trigger] s[i], p[i])
}

fn has_prefix_fold(s: &Vec<char>, p: &Vec<char>) -> (b: bool)
    ensures
        b == starts_with_fold(s@, p@),
{
    if p.len() > s.len() {
        return false;
    }
    let mut i: usize = 0;
    while i < p.len()
        invariant
            i <= p.len() <= s.len(),
            forall|k: int| 0 <= k < i ==> eq_fold(#[trigger] s@[k], p@[k]),
        decreases p.len() - i,
    {
        let a = s[i];
        let b = p[i];
        if !(a == b || ('a' <= b && b <= 'z' && (a as u32) == (b as u32) - 32)) {
            return false;
        }
        i = i + 1;
    }
    true
}

/// A `**Time Complexity:**` / `**Space Complexity:**` marker at the start of a line:
/// `(is_time, remainder)`.
pub open spec fn marker_of(line: Seq<char>) -> Option<(bool, Seq<char>)> {
    if starts_with_fold(line, "**time complexity:**"@) {
        Some((true, line.skip("**time complexity:**"@.len() as int)))
    } else if starts_with_fold(line, "**space complexity:**"@) {
        Some((false, line.skip("**space complexity:**"@.len() as int)))
    } else {
        None
    }
}

fn strip_marker(line: &Vec<char>) -> (r: Option<(bool, Vec<char>)>)
    ensures
        r matches Some(p) ==> marker_of(line@) == Some((p.0, p.1@)),
        r is None ==> marker_of(line@) is None,
{
    let t = lit("**time complexity:**");
    if has_prefix_fold(line, &t) {
        let rest = slice(line, t.len(), line.len());
        assert(rest@ =~= line@.skip(t@.len() as int));
        return Some((true, rest));
    }
    let sp = lit("**space complexity:**");
    if has_prefix_fold(line, &sp) {
        let rest = slice(line, sp.len(), line.len());
        assert(rest@ =~= line@.skip(sp@.len() as int));
        return Some((false, rest));
    }
    None
}

/// The first separator that `rest` begins with.
pub open spec fn sep_match(rest: Seq<char>) -> Option<Seq<char>> {
    if starts_with(rest, " – "@) {
        Some(" – "@)
    } else if starts_with(rest, " — "@) {
        Some(" — "@)
    } else if starts_with(rest, " - "@) {
        Some(" - "@)
    } else if starts_with(rest, ". "@) {
        Some(". "@)
    } else if starts_with(rest, ", "@) {
        Some(", "@)
    } else {
        None
    }
}

/// The first separator sitting OUTSIDE parentheses after at least one closed group:
/// `(position, separator length)`.
pub open spec fn sep_scan(tail: Seq<char>, at: int, depth: int, closed: bool) -> Option<(int, int)>
    decreases tail.len() - at,
{
    if at < 0 || at >= tail.len() {
        None
    } else if depth == 0 && closed && sep_match(tail.skip(at)) is Some {
        match sep_match(tail.skip(at)) {
            Some(sep) => Some((at, sep.len() as int)),
            None => None,
        }
    } else if tail[at] == '(' {
        sep_scan(tail, at + 1, depth + 1, closed)
    } else if tail[at] == ')' {
        sep_scan(tail, at + 1, depth - 1, closed || depth - 1 == 0)
    } else {
        sep_scan(tail, at + 1, depth, closed)
    }
}

pub open spec fn trim_end_punct(s: Seq<char>) -> Seq<char>
    decreases s.len(),
{
    if s.len() > 0 && (s.last() == '.' || s.last() == ',') {
        trim_end_punct(s.drop_last())
    } else {
        s
    }
}

/// Split an authored complexity paragraph into (O-value, explanation). The value starts at
/// the first `O(` and runs to the first separator outside parentheses after a closed group;
/// a paragraph without an `O(` group, or whose value comes out empty, is not card material.
pub open spec fn spec_split_value_prose(text: Seq<char>) -> Option<(Seq<char>, Seq<char>)> {
    let t = trim(text);
    match find(t, "O("@) {
        None => None,
        Some(start) => {
            let tail = t.skip(start);
            let vp = match sep_scan(tail, 0, 0, false) {
                Some(p) => (tail.take(p.0), tail.skip(p.0 + p.1)),
                None => (tail, Seq::<char>::empty()),
            };
            let v = trim_end(trim_end_punct(trim(vp.0)));
            if v.len() > 0 {
                Some((v, trim(vp.1)))
            } else {
                None
            }
        },
    }
}

fn sep_at(rest: &Vec<char>) -> (r: Option<usize>)
    ensures
        r matches Some(n) ==> sep_match(rest@) matches Some(sep) && sep.len() == n,
        r is None ==> sep_match(rest@) is None,
{
    let a = lit(" – ");
    if has_prefix(rest, &a) {
        return Some(a.len());
    }
    let b = lit(" — ");
    if has_prefix(rest, &b) {
        return Some(b.len());
    }
    let c = lit(" - ");
    if has_prefix(rest, &c) {
        return Some(c.len());
    }
    let d = lit(". ");
    if has_prefix(rest, &d) {
        return Some(d.len());
    }
    let e = lit(", ");
    if has_prefix(rest, &e) {
        return Some(e.len());
    }
    None
}

fn trimmed_end_punct(s: &Vec<char>) -> (out: Vec<char>)
    ensures
        out@ == trim_end_punct(s@),
{
    let mut j = s.len();
    assert(s@.subrange(0, s.len() as int) =~= s@);
    while j > 0 && (s[j - 1] == '.' || s[j - 1] == ',')
        invariant
            j <= s.len(),
            trim_end_punct(s@) == trim_end_punct(s@.subrange(0, j as int)),
        decreases j,
    {
        assert(s@.subrange(0, j as int).drop_last() =~= s@.subrange(0, j - 1));
        j = j - 1;
    }
    slice(s, 0, j)
}

fn split_value_prose(text: &Vec<char>) -> (r: Option<(Vec<char>, Vec<char>)>)
    ensures
        r matches Some(p) ==> spec_split_value_prose(text@) == Some((p.0@, p.1@)),
        r is None ==> spec_split_value_prose(text@) is None,
{
    let t = trimmed(text);
    let start = match find_in(&t, &lit("O(")) {
        Some(k) => k,
        None => {
            return None;
        },
    };
    proof {
        crate::text::lemma_find_from_found(t@, "O("@, 0);
    }
    let tail = slice(&t, start, t.len());
    assert(tail@ =~= t@.skip(start as int));
    let mut depth: i128 = 0;
    let mut closed = false;
    let mut split: Option<(usize, usize)> = None;
    let mut at: usize = 0;
    while at < tail.len()
        invariant_except_break
            split is None,
            sep_scan(tail@, 0, 0, false) == sep_scan(tail@, at as int, depth as int, closed),
        invariant
            at <= tail.len(),
            -(at as int) <= depth <= at,
        ensures
            match split {
                Some(p) => sep_scan(tail@, 0, 0, false) == Some((p.0 as int, p.1 as int)) && p.0
                    + p.1 <= tail.len(),
                None => sep_scan(tail@, 0, 0, false) is None,
            },
        decreases tail.len() - at,
    {
        if depth == 0 && closed {
            let rest = slice(&tail, at, tail.len());
            assert(rest@ =~= tail@.skip(at as int));
            match sep_at(&rest) {
                Some(n) => {
                    split = Some((at, n));
                    break;
                },
                None => {},
            }
        }
        let c = tail[at];
        if c == '(' {
            depth = depth + 1;
        } else if c == ')' {
            depth = depth - 1;
            if depth == 0 {
                closed = true;
            }
        }
        at = at + 1;
    }
    let (value, prose) = match split {
        Some(p) => {
            let (k, n) = p;
            let v = slice(&tail, 0, k);
            let pr = slice(&tail, k + n, tail.len());
            assert(v@ =~= tail@.take(k as int));
            assert(pr@ =~= tail@.skip(k + n));
            (v, pr)
        },
        None => (copy_chars(&tail), Vec::new()),
    };
    let v = trimmed_end(&trimmed_end_punct(&trimmed(&value)));
    if v.len() > 0 {
        Some((v, trimmed(&prose)))
    } else {
        None
    }
}

/// Where the paragraph starting at line `j` ends: the next blank line, fence line or marker.
pub open spec fn para_end(ls: Seq<Seq<char>>, j: int) -> int
    decreases ls.len() - j,
{
    if j < 0 || j >= ls.len() {
        j
    } else {
        let n = trim(ls[j]);
        if n.len() == 0 || starts_with(n, "```"@) || marker_of(n) is Some {
            j
        } else {
            para_end(ls, j + 1)
        }
    }
}

pub proof fn lemma_para_end(ls: Seq<Seq<char>>, j: int)
    requires
        0 <= j,
    ensures
        j <= para_end(ls, j),
        j <= ls.len() ==> para_end(ls, j) <= ls.len(),
    decreases ls.len() - j,
{
    if j < ls.len() {
        let n = trim(ls[j]);
        if !(n.len() == 0 || starts_with(n, "```"@) || marker_of(n) is Some) {
            lemma_para_end(ls, j + 1);
        }
    }
}

/// The marker line's remainder plus the paragraph's following lines, each trimmed.
pub open spec fn paragraph(ls: Seq<Seq<char>>, rest: Seq<char>, i: int, j: int) -> Seq<Seq<char>> {
    seq![trim(rest)] + ls.subrange(i + 1, j).map_values(|l: Seq<char>| trim(l))
}

pub open spec fn prose_scan(
    ls: Seq<Seq<char>>,
    i: int,
    in_fence: bool,
    time: Option<(Seq<char>, Seq<char>)>,
    space: Option<(Seq<char>, Seq<char>)>,
) -> (Option<(Seq<char>, Seq<char>)>, Option<(Seq<char>, Seq<char>)>)
    decreases ls.len() - i,
{
    if i < 0 || i >= ls.len() {
        (time, space)
    } else {
        let t = trim(ls[i]);
        if starts_with(t, "```"@) {
            prose_scan(ls, i + 1, !in_fence, time, space)
        } else if in_fence {
            prose_scan(ls, i + 1, in_fence, time, space)
        } else {
            match marker_of(t) {
                None => prose_scan(ls, i + 1, in_fence, time, space),
                Some(m) => {
                    let j = para_end(ls, i + 1);
                    proof {
                        lemma_para_end(ls, i + 1);
                    }
                    let parsed = spec_split_value_prose(join(paragraph(ls, m.1, i, j), " "@));
                    if m.0 {
                        prose_scan(ls, j, in_fence, if time is Some { time } else { parsed }, space)
                    } else {
                        prose_scan(ls, j, in_fence, time, if space is Some { space } else { parsed })
                    }
                },
            }
        }
    }
}

/// The first paragraph per axis wins: once a claim for an axis is found, the rest of the
/// section never replaces it.
pub proof fn lemma_prose_first_wins(
    ls: Seq<Seq<char>>,
    i: int,
    in_fence: bool,
    time: Option<(Seq<char>, Seq<char>)>,
    space: Option<(Seq<char>, Seq<char>)>,
)
    ensures
        time is Some ==> prose_scan(ls, i, in_fence, time, space).0 == time,
        space is Some ==> prose_scan(ls, i, in_fence, time, space).1 == space,
    decreases ls.len() - i,
{
    if 0 <= i < ls.len() {
        let t = trim(ls[i]);
        if starts_with(t, "```"@) {
            lemma_prose_first_wins(ls, i + 1, !in_fence, time, space);
        } else if in_fence {
            lemma_prose_first_wins(ls, i + 1, in_fence, time, space);
        } else {
            match marker_of(t) {
                None => lemma_prose_first_wins(ls, i + 1, in_fence, time, space),
                Some(m) => {
                    let j = para_end(ls, i + 1);
                    lemma_para_end(ls, i + 1);
                    let parsed = spec_split_value_prose(join(paragraph(ls, m.1, i, j), " "@));
                    if m.0 {
                        lemma_prose_first_wins(ls, j, in_fence, if time is Some { time } else { parsed }, space);
                    } else {
                        lemma_prose_first_wins(ls, j, in_fence, time, if space is Some { space } else { parsed });
                    }
                },
            }
        }
    }
}

/// Parse a Complexity section's authored `**Time Complexity:** … / **Space Complexity:** …`
/// paragraphs (markers inside code fences are code, not claims). The first paragraph per axis
/// wins; either axis may miss, and when BOTH do the section isn't card-shaped (`None`).
pub open spec fn spec_complexity_prose(md: Seq<char>) -> Option<ProseView> {
    let r = prose_scan(lines(md), 0, false, None, None);
    if r.0 is Some || r.1 is Some {
        Some(ProseView { time: r.0, space: r.1 })
    } else {
        None
    }
}

fn pair_of(p: Option<(Vec<char>, Vec<char>)>) -> (r: Option<(String, String)>)
    ensures
        pair_opt_view(r) == match p {
            Some(q) => Some((q.0@, q.1@)),
            None => None,
        },
{
    match p {
        Some(q) => Some((string_of(&q.0), string_of(&q.1))),
        None => None,
    }
}

pub open spec fn cpair_opt(p: Option<(Vec<char>, Vec<char>)>) -> Option<(Seq<char>, Seq<char>)> {
    match p {
        Some(q) => Some((q.0@, q.1@)),
        None => None,
    }
}

/// Parse a Complexity section into its two cards.
pub fn complexity_prose(md: &str) -> (r: Option<ComplexityProse>)
    ensures
        r matches Some(c) ==> spec_complexity_prose(md@) == Some(c@),
        r is None ==> spec_complexity_prose(md@) is None,
{
    let ls = lines_of(&chars_of(md));
    let ghost lv = seqs(ls@);
    let mut time: Option<(Vec<char>, Vec<char>)> = None;
    let mut space: Option<(Vec<char>, Vec<char>)> = None;
    let mut in_fence = false;
    let fence = lit("```");
    let blank = lit(" ");
    let mut i: usize = 0;
    while i < ls.len()
        invariant
            i <= ls.len(),
            lv == seqs(ls@),
            fence@ == "```"@,
            blank@ == " "@,
            prose_scan(lv, 0, false, None, None) == prose_scan(
                lv,
                i as int,
                in_fence,
                cpair_opt(time),
                cpair_opt(space),
            ),
        decreases ls.len() - i,
    {
        assert(lv[i as int] == ls@[i as int]@);
        let t = trimmed(&ls[i]);
        if has_prefix(&t, &fence) {
            in_fence = !in_fence;
            i = i + 1;
            continue;
        }
        if in_fence {
            i = i + 1;
            continue;
        }
        let marker = strip_marker(&t);
        match marker {
            None => {
                i = i + 1;
            },
            Some(m) => {
                let (is_time, rest) = m;
                let mut para: Vec<Vec<char>> = Vec::new();
                para.push(trimmed(&rest));
                let mut j = i + 1;
                assert(seqs(para@) =~= seq![trim(rest@)]);
                assert(ls@.subrange(i + 1, j as int).len() == 0);
                assert(seqs(para@) =~= paragraph(lv, rest@, i as int, j as int));
                while j < ls.len()
                    invariant_except_break
                        para_end(lv, i + 1) == para_end(lv, j as int),
                    invariant
                        i + 1 <= j <= ls.len(),
                        lv == seqs(ls@),
                        fence@ == "```"@,
                        seqs(para@) == paragraph(lv, rest@, i as int, j as int),
                    ensures
                        para_end(lv, i + 1) == j,
                    decreases ls.len() - j,
                {
                    assert(lv[j as int] == ls@[j as int]@);
                    let next = trimmed(&ls[j]);
                    if next.len() == 0 || has_prefix(&next, &fence) || strip_marker(&next).is_some() {
                        break;
                    }
                    let ghost prev = seqs(para@);
                    let ghost nv = next@;
                    para.push(next);
                    assert(seqs(para@) =~= prev.push(nv));
                    assert(nv == trim(lv[j as int]));
                    assert(lv.subrange(i + 1, j + 1).map_values(|l: Seq<char>| trim(l)) =~= lv.subrange(
                        i + 1,
                        j as int,
                    ).map_values(|l: Seq<char>| trim(l)).push(trim(lv[j as int])));
                    j = j + 1;
                    assert(seqs(para@) =~= paragraph(lv, rest@, i as int, j as int));
                }
                let parsed = split_value_prose(&join_with(&para, &blank));
                let ghost pv = match &parsed {
                    Some(p) => Some((p.0@, p.1@)),
                    None => None,
                };
                assert(pv == spec_split_value_prose(join(paragraph(lv, rest@, i as int, j as int), " "@)));
                if is_time {
                    if time.is_none() {
                        time = parsed;
                    }
                } else {
                    if space.is_none() {
                        space = parsed;
                    }
                }
                i = j;
            },
        }
    }
    if time.is_some() || space.is_some() {
        Some(ComplexityProse { time: pair_of(time), space: pair_of(space) })
    } else {
        None
    }
}

// ─────────────────────────────────────────────────────────────────────────────
// DISPLAY HELPERS
// ─────────────────────────────────────────────────────────────────────────────

/// Offset of the `)` that closes a group whose depth is `depth` before position `k`.
pub open spec fn close_paren_from(s: Seq<char>, k: int, depth: int) -> Option<int>
    decreases s.len() - k,
{
    if k < 0 || k >= s.len() {
        None
    } else if s[k] == '(' {
        close_paren_from(s, k + 1, depth + 1)
    } else if s[k] == ')' {
        if depth - 1 == 0 {
            Some(k)
        } else {
            close_paren_from(s, k + 1, depth - 1)
        }
    } else {
        close_paren_from(s, k + 1, depth)
    }
}

pub proof fn lemma_close_paren_bounds(s: Seq<char>, k: int, depth: int)
    requires
        0 <= k,
    ensures
        close_paren_from(s, k, depth) matches Some(o) ==> k <= o < s.len(),
    decreases s.len() - k,
{
    if k < s.len() {
        if s[k] == '(' {
            lemma_close_paren_bounds(s, k + 1, depth + 1);
        } else if s[k] == ')' {
            if depth - 1 != 0 {
                lemma_close_paren_bounds(s, k + 1, depth - 1);
            }
        } else {
            lemma_close_paren_bounds(s, k + 1, depth);
        }
    }
}

/// Every closed `sqrt(x)` becomes `√x`; an unclosed `sqrt(` and everything after it is
/// passed through as written.
pub open spec fn unsqrt(rest: Seq<char>) -> Seq<char>
    decreases rest.len(),
{
    match find(rest, "sqrt("@) {
        None => rest,
        Some(at) => {
            let inner = rest.skip(at + "sqrt("@.len());
            match close_paren_from(inner, 0, 1) {
                Some(off) => {
                    proof {
                        reveal_strlit("sqrt(");
                        crate::text::lemma_find_from_found(rest, "sqrt("@, 0);
                        lemma_close_paren_bounds(inner, 0, 1);
                    }
                    rest.take(at) + seq!['√'] + inner.take(off) + unsqrt(inner.skip(off + 1))
                },
                None => rest,
            }
        },
    }
}

/// `*` shown as a middle dot.
pub open spec fn dot_stars(s: Seq<char>) -> Seq<char> {
    s.map_values(
        |c: char|
            if c == '*' {
                '·'
            } else {
                c
            },
    )
}

pub open spec fn is_ascii_digit(c: char) -> bool {
    '0' <= c && c <= '9'
}

pub open spec fn digits_end(s: Seq<char>, j: int) -> int
    decreases s.len() - j,
{
    if j < 0 || j >= s.len() {
        j
    } else if is_ascii_digit(s[j]) {
        digits_end(s, j + 1)
    } else {
        j
    }
}

pub proof fn lemma_digits_end(s: Seq<char>, j: int)
    requires
        0 <= j,
    ensures
        j <= digits_end(s, j),
        j <= s.len() ==> digits_end(s, j) <= s.len(),
        forall|k: int| j <= k < digits_end(s, j) ==> is_ascii_digit(#[trigger] s[k]),
        digits_end(s, j) < s.len() ==> !is_ascii_digit(s[digits_end(s, j)]),
    decreases s.len() - j,
{
    if j < s.len() && is_ascii_digit(s[j]) {
        lemma_digits_end(s, j + 1);
    }
}

pub open spec fn sup_digit(d: char) -> char {
    if d == '0' {
        '⁰'
    } else if d == '1' {
        '¹'
    } else if d == '2' {
        '²'
    } else if d == '3' {
        '³'
    } else if d == '4' {
        '⁴'
    } else if d == '5' {
        '⁵'
    } else if d == '6' {
        '⁶'
    } else if d == '7' {
        '⁷'
    } else if d == '8' {
        '⁸'
    } else {
        '⁹'
    }
}

/// `^` followed by a WHOLE integer becomes a superscript (`N^2` → `N²`); a fractional power
/// like `N^1.5` has no clean superscript and stays as authored.
pub open spec fn sup_from(s: Seq<char>, i: int) -> Seq<char>
    decreases s.len() - i,
{
    if i < 0 || i >= s.len() {
        Seq::empty()
    } else if s[i] != '^' {
        seq![s[i]] + sup_from(s, i + 1)
    } else {
        let j = digits_end(s, i + 1);
        proof {
            lemma_digits_end(s, i + 1);
        }
        let power = s.subrange(i + 1, j);
        if power.len() == 0 || (j < s.len() && s[j] == '.') {
            seq!['^'] + power + sup_from(s, j)
        } else {
            power.map_values(|d: char| sup_digit(d)) + sup_from(s, j)
        }
    }
}

/// The display form of a complexity claim: `O(sqrt(N)+K*log(K))` → `O(√N+K·log(K))`,
/// `O(N^2)` → `O(N²)`.
pub open spec fn spec_pretty_o(o: Seq<char>) -> Seq<char> {
    sup_from(dot_stars(unsqrt(o)), 0)
}

proof fn lemma_sup_from_plain(s: Seq<char>, i: int)
    requires
        0 <= i <= s.len(),
        forall|k: int| 0 <= k < s.len() ==> s[k] != '^',
    ensures
        sup_from(s, i) == s.skip(i),
    decreases s.len() - i,
{
    if i < s.len() {
        lemma_sup_from_plain(s, i + 1);
        assert(seq![s[i]] + s.skip(i + 1) =~= s.skip(i));
    } else {
        assert(s.skip(i) =~= Seq::<char>::empty());
    }
}

/// Prettifying is purely cosmetic: a claim with no `sqrt(`, no `*` and no `^` is shown exactly
/// as written.
pub proof fn lemma_pretty_o_plain(o: Seq<char>)
    requires
        !crate::text::contains(o, "sqrt("@),
        forall|k: int| 0 <= k < o.len() ==> o[k] != '*' && o[k] != '^',
    ensures
        spec_pretty_o(o) == o,
{
    assert(unsqrt(o) == o);
    assert(dot_stars(o) =~= o);
    lemma_sup_from_plain(o, 0);
    assert(o.skip(0) =~= o);
}

fn sup_char(d: char) -> (c: char)
    ensures
        c == sup_digit(d),
{
    if d == '0' {
        '⁰'
    } else if d == '1' {
        '¹'
    } else if d == '2' {
        '²'
    } else if d == '3' {
        '³'
    } else if d == '4' {
        '⁴'
    } else if d == '5' {
        '⁵'
    } else if d == '6' {
        '⁶'
    } else if d == '7' {
        '⁷'
    } else if d == '8' {
        '⁸'
    } else {
        '⁹'
    }
}

fn superscript_powers(s: &Vec<char>) -> (out: Vec<char>)
    ensures
        out@ == sup_from(s@, 0),
{
    let mut out: Vec<char> = Vec::new();
    let mut i: usize = 0;
    while i < s.len()
        invariant
            i <= s.len(),
            out@ + sup_from(s@, i as int) == sup_from(s@, 0),
        decreases s.len() - i,
    {
        if s[i] != '^' {
            let ghost before = out@;
            out.push(s[i]);
            assert(before + sup_from(s@, i as int) =~= out@ + sup_from(s@, i + 1));
            i = i + 1;
        } else {
            proof {
                lemma_digits_end(s@, i + 1);
            }
            let mut j = i + 1;
            while j < s.len() && '0' <= s[j] && s[j] <= '9'
                invariant
                    i + 1 <= j <= s.len(),
                    digits_end(s@, i + 1) == digits_end(s@, j as int),
                decreases s.len() - j,
            {
                j = j + 1;
            }
            let ghost before = out@;
            let ghost power = s@.subrange(i + 1, j as int);
            if j == i + 1 || (j < s.len() && s[j] == '.') {
                out.push('^');
                let mut k = i + 1;
                while k < j
                    invariant
                        i + 1 <= k <= j <= s.len(),
                        out@ == before + seq!['^'] + s@.subrange(i + 1, k as int),
                    decreases j - k,
                {
                    out.push(s[k]);
                    k = k + 1;
                    assert(out@ =~= before + seq!['^'] + s@.subrange(i + 1, k as int));
                }
                assert(before + sup_from(s@, i as int) =~= out@ + sup_from(s@, j as int));
            } else {
                let mut k = i + 1;
                while k < j
                    invariant
                        i + 1 <= k <= j <= s.len(),
                        out@ == before + s@.subrange(i + 1, k as int).map_values(
                            |d: char| sup_digit(d),
                        ),
                    decreases j - k,
                {
                    out.push(sup_char(s[k]));
                    k = k + 1;
                    assert(out@ =~= before + s@.subrange(i + 1, k as int).map_values(
                        |d: char| sup_digit(d),
                    ));
                }
                assert(before + sup_from(s@, i as int) =~= out@ + sup_from(s@, j as int));
            }
            i = j;
        }
    }
    assert(out@ + sup_from(s@, i as int) =~= out@);
    out
}

fn close_paren(s: &Vec<char>) -> (r: Option<usize>)
    ensures
        r matches Some(o) ==> close_paren_from(s@, 0, 1) == Some(o as int) && o < s.len(),
        r is None ==> close_paren_from(s@, 0, 1) is None,
{
    let mut depth: i128 = 1;
    let mut k: usize = 0;
    while k < s.len()
        invariant
            k <= s.len(),
            1 - (k as int) <= depth <= 1 + k,
            close_paren_from(s@, 0, 1) == close_paren_from(s@, k as int, depth as int),
        decreases s.len() - k,
    {
        if s[k] == '(' {
            depth = depth + 1;
        } else if s[k] == ')' {
            depth = depth - 1;
            if depth == 0 {
                return Some(k);
            }
        }
        k = k + 1;
    }
    None
}

/// Display prettifier for complexity claims: authors write `O(sqrt(N)+K*log(K))` and
/// `O(N^2)`, the design shows `O(√N+K·log(K))` and `O(N²)`. Purely cosmetic.
pub fn pretty_o(o: &str) -> (out: String)
    ensures
        out@ == spec_pretty_o(o@),
{
    let src = chars_of(o);
    let sqrt = lit("sqrt(");
    proof {
        reveal_strlit("sqrt(");
    }
    let mut out: Vec<char> = Vec::new();
    let mut rest = copy_chars(&src);
    loop
        invariant
            sqrt@ == "sqrt("@,
            sqrt@.len() == 5,
            out@ + unsqrt(rest@) == unsqrt(src@),
        ensures
            out@ + rest@ == unsqrt(src@),
        decreases rest.len(),
    {
        match find_in(&rest, &sqrt) {
            None => {
                break;
            },
            Some(at) => {
                proof {
                    crate::text::lemma_find_from_found(rest@, sqrt@, 0);
                }
                assert(crate::text::matches_at(rest@, sqrt@, at as int));
                let inner = slice(&rest, at + sqrt.len(), rest.len());
                assert(inner@ =~= rest@.skip(at + "sqrt("@.len()));
                match close_paren(&inner) {
                    Some(off) => {
                        let ghost before = out@;
                        crate::text::append(&mut out, &slice(&rest, 0, at));
                        out.push('√');
                        crate::text::append(&mut out, &slice(&inner, 0, off));
                        let next = slice(&inner, off + 1, inner.len());
                        assert(rest@.take(at as int) =~= rest@.subrange(0, at as int));
                        assert(inner@.take(off as int) =~= inner@.subrange(0, off as int));
                        assert(next@ =~= inner@.skip(off + 1));
                        assert(out@ =~= before + (rest@.take(at as int) + seq!['√'] + inner@.take(
                            off as int,
                        )));
                        assert(unsqrt(rest@) == rest@.take(at as int) + seq!['√'] + inner@.take(
                            off as int,
                        ) + unsqrt(next@));
                        rest = next;
                    },
                    None => {
                        break;
                    },
                }
            },
        }
    }
    crate::text::append(&mut out, &rest);
    let mut dotted: Vec<char> = Vec::new();
    let mut k: usize = 0;
    while k < out.len()
        invariant
            k <= out.len(),
            dotted@ == dot_stars(out@.take(k as int)),
        decreases out.len() - k,
    {
        dotted.push(
            if out[k] == '*' {
                '·'
            } else {
                out[k]
            },
        );
        k = k + 1;
        assert(dotted@ =~= dot_stars(out@.take(k as int)));
    }
    assert(out@.take(out.len() as int) =~= out@);
    string_of(&superscript_powers(&dotted))
}

} // verus!

//! Catalog logic over the wire shapes: navigation through the catalog tree (reading order,
//! owning book, cover targets, card counts), the problem page's description/editorial split,
//! the sidebar filter, the click resolver of the architecture viewer, and the modules for the
//! editorial document, the problem tabs, reading preferences and reading progress.

pub mod editorial;
pub mod pane;
pub mod prefs;
pub mod progress;
pub mod sidebar;

use vstd::prelude::*;

use crate::text::{
    chars_of, chars_of_strings, contains, contains_in, copy_chars, eq_ascii_nocase, has_prefix,
    join, join_with, lemma_seqs_push, lines, lines_of, lit, lowercased, same, same_ascii_nocase,
    seqs, starts_with, str_eq, string_of, string_views, to_lower, trim, trim_end, trim_start,
    trimmed, trimmed_end, trimmed_start, words, words_of,
};
use crate::wire::{BookDto, BookEntryDto, CatalogEntryDto, ChapterDto, LessonDto, SynapseIndexDto};

verus! {

/// A lesson as values: slug, title, order, essential.
pub open spec fn lesson_view(l: LessonDto) -> (Seq<char>, Seq<char>, Option<u32>, bool) {
    (l.slug@, l.title@, l.order, l.essential)
}

/// The lessons under `es`, pre-order, each with its full `/`-joined path below `prefix`.
pub open spec fn entries_order(es: Seq<BookEntryDto>, prefix: Seq<Seq<char>>) -> Seq<
    (Seq<char>, (Seq<char>, Seq<char>, Option<u32>, bool)),
>
    decreases es,
{
    if es.len() == 0 {
        Seq::empty()
    } else {
        entries_order(es.drop_last(), prefix) + entry_order(es.last(), prefix)
    }
}

/// The lessons under one entry, pre-order.
pub open spec fn entry_order(e: BookEntryDto, prefix: Seq<Seq<char>>) -> Seq<
    (Seq<char>, (Seq<char>, Seq<char>, Option<u32>, bool)),
>
    decreases e,
{
    match e {
        BookEntryDto::Lesson(l) => seq![(join(prefix.push(l.slug@), "/"@), lesson_view(l))],
        BookEntryDto::Chapter(c) => entries_order(c.entries@, prefix.push(c.slug@)),
    }
}

/// A book's URL prefix segments: `category_path + slug`.
pub open spec fn spec_book_prefix(book: BookDto) -> Seq<Seq<char>> {
    string_views(book.category_path@).push(book.slug@)
}

/// Every lesson of a book with its full directory-mirror path, pre-order.
pub open spec fn spec_reading_order(book: BookDto) -> Seq<
    (Seq<char>, (Seq<char>, Seq<char>, Option<u32>, bool)),
> {
    entries_order(book.entries@, spec_book_prefix(book))
}

pub open spec fn order_views(v: Seq<(String, LessonDto)>) -> Seq<
    (Seq<char>, (Seq<char>, Seq<char>, Option<u32>, bool)),
> {
    v.map_values(|e: (String, LessonDto)| (e.0@, lesson_view(e.1)))
}

/// A copy of a lesson.
pub fn clone_lesson(l: &LessonDto) -> (r: LessonDto)
    ensures
        lesson_view(r) == lesson_view(*l),
{
    LessonDto { slug: l.slug.clone(), title: l.title.clone(), order: l.order, essential: l.essential }
}

/// A copy of a vector of strings.
pub fn clone_strings(v: &Vec<String>) -> (r: Vec<String>)
    ensures
        string_views(r@) == string_views(v@),
{
    let mut r: Vec<String> = Vec::new();
    let mut i: usize = 0;
    while i < v.len()
        invariant
            i <= v@.len(),
            string_views(r@) == string_views(v@).take(i as int),
        decreases v.len() - i,
    {
        let x = v[i].clone();
        let ghost prev = r@;
        r.push(x);
        assert(string_views(r@) =~= string_views(prev).push(x@));
        assert(string_views(v@).take(i + 1) =~= string_views(v@).take(i as int).push(v@[i as int]@));
        i = i + 1;
    }
    assert(string_views(v@).take(v@.len() as int) =~= string_views(v@));
    r
}

/// A book's URL prefix segments: `category_path + slug`.
pub fn book_prefix(book: &BookDto) -> (segments: Vec<String>)
    ensures
        string_views(segments@) == spec_book_prefix(*book),
{
    let mut segments = clone_strings(&book.category_path);
    let ghost prev = segments@;
    segments.push(book.slug.clone());
    assert(string_views(segments@) =~= string_views(prev).push(book.slug@));
    segments
}

fn collect(entries: &Vec<BookEntryDto>, prefix: &Vec<String>, out: &mut Vec<(String, LessonDto)>)
    ensures
        order_views(final(out)@) == order_views(old(out)@) + entries_order(entries@, string_views(prefix@)),
    decreases entries@,
{
    let ghost pv = string_views(prefix@);
    let ghost start = order_views(out@);
    let mut i: usize = 0;
    while i < entries.len()
        invariant
            i <= entries@.len(),
            pv == string_views(prefix@),
            order_views(out@) == start + entries_order(entries@.take(i as int), pv),
        decreases entries.len() - i,
    {
        let ghost before = entries@.take(i as int);
        assert(entries@.take(i + 1).drop_last() =~= before);
        assert(entries@.take(i + 1).last() == entries@[i as int]);
        assert(entries_order(entries@.take(i + 1), pv) == entries_order(before, pv) + entry_order(
            entries@[i as int],
            pv,
        ));
        match &entries[i] {
            BookEntryDto::Lesson(lesson) => {
                let mut segments = clone_strings(prefix);
                let ghost p0 = segments@;
                segments.push(lesson.slug.clone());
                assert(string_views(segments@) =~= pv.push(lesson.slug@));
                let path = string_of(&join_with(&chars_of_strings(&segments), &lit("/")));
                let item = (path, clone_lesson(lesson));
                let ghost prev = out@;
                out.push(item);
                assert(order_views(out@) =~= order_views(prev).push((item.0@, lesson_view(item.1))));
                assert(entry_order(entries@[i as int], pv) == seq![
                    (join(pv.push(lesson.slug@), "/"@), lesson_view(*lesson)),
                ]);
            },
            BookEntryDto::Chapter(chapter) => {
                let mut segments = clone_strings(prefix);
                segments.push(chapter.slug.clone());
                assert(string_views(segments@) =~= pv.push(chapter.slug@));
                assert(decreases_to!(entries@ => entries@[i as int]));
                collect(&chapter.entries, &segments, out);
                assert(entry_order(entries@[i as int], pv) == entries_order(
                    chapter.entries@,
                    pv.push(chapter.slug@),
                ));
            },
        }
        i = i + 1;
    }
    assert(entries@.take(entries@.len() as int) =~= entries@);
}

/// Every lesson of a book with its full directory-mirror path, pre-order: the sidebar's and
/// the library card's source of truth.
pub fn reading_order(book: &BookDto) -> (out: Vec<(String, LessonDto)>)
    ensures
        order_views(out@) == spec_reading_order(*book),
{
    let mut out: Vec<(String, LessonDto)> = Vec::new();
    let prefix = book_prefix(book);
    collect(&book.entries, &prefix, &mut out);
    assert(order_views(Seq::<(String, LessonDto)>::empty()) =~= Seq::empty());
    out
}


/// Where a book's cover card points: its first lesson in reading order.
pub fn first_lesson_path(book: &BookDto) -> (r: Option<String>)
    ensures
        match r {
            Some(p) => spec_reading_order(*book).len() > 0 && p@ == spec_reading_order(*book)[0].0,
            None => spec_reading_order(*book).len() == 0,
        },
{
    let order = reading_order(book);
    if order.len() == 0 {
        None
    } else {
        assert(order_views(order@)[0].0 == order@[0].0@);
        Some(order[0].0.clone())
    }
}

/// Recursive lesson-leaf count: the card's "N lessons" line.
pub fn lesson_count(book: &BookDto) -> (n: usize)
    ensures
        n == spec_reading_order(*book).len(),
{
    reading_order(book).len()
}

/// How many of `es` are chapters.
pub open spec fn chapters_in(es: Seq<BookEntryDto>) -> nat
    decreases es.len(),
{
    if es.len() == 0 {
        0
    } else {
        chapters_in(es.drop_last()) + if es.last() is Chapter {
            1nat
        } else {
            0nat
        }
    }
}

/// The chapter count is the number of the list's entries that are chapters.
pub proof fn lemma_chapters_counted(es: Seq<BookEntryDto>)
    ensures
        chapters_in(es) == es.filter(|e: BookEntryDto| e is Chapter).len(),
    decreases es.len(),
{
    reveal(Seq::filter);
    if es.len() > 0 {
        lemma_chapters_counted(es.drop_last());
    }
}

/// Direct chapter children only: the card counts top-level chapters.
pub fn chapter_count(book: &BookDto) -> (n: usize)
    ensures
        n == chapters_in(book.entries@),
{
    let mut n: usize = 0;
    let mut i: usize = 0;
    while i < book.entries.len()
        invariant
            i <= book.entries@.len(),
            n == chapters_in(book.entries@.take(i as int)),
            n <= i,
        decreases book.entries.len() - i,
    {
        assert(book.entries@.take(i + 1).drop_last() =~= book.entries@.take(i as int));
        if let BookEntryDto::Chapter(_) = &book.entries[i] {
            n = n + 1;
        }
        i = i + 1;
    }
    assert(book.entries@.take(book.entries@.len() as int) =~= book.entries@);
    n
}

/// The book a lesson path names: the first entry of `es` that holds it. A book matches on
/// its slug; a category whose slug matches is searched with the rest of the path.
pub open spec fn book_in(es: Seq<CatalogEntryDto>, path: Seq<Seq<char>>) -> Option<BookDto>
    decreases es,
{
    if es.len() == 0 || path.len() == 0 {
        None
    } else {
        match book_at(es[0], path) {
            Some(b) => Some(b),
            None => book_in(es.subrange(1, es.len() as int), path),
        }
    }
}

/// What one catalog entry contributes to [`book_in`].
pub open spec fn book_at(e: CatalogEntryDto, path: Seq<Seq<char>>) -> Option<BookDto>
    decreases e,
{
    match e {
        CatalogEntryDto::Book(b) => if b.slug@ == path[0] {
            Some(b)
        } else {
            None
        },
        CatalogEntryDto::Category(c) => if c.slug@ == path[0] {
            book_in(c.entries@, path.drop_first())
        } else {
            None
        },
    }
}

fn find_owner<'a>(entries: &'a Vec<CatalogEntryDto>, path: &[String], from: usize) -> (r: Option<
    &'a BookDto,
>)
    requires
        from <= path@.len(),
    ensures
        match r {
            Some(b) => book_in(entries@, string_views(path@).skip(from as int)) == Some(*b),
            None => book_in(entries@, string_views(path@).skip(from as int)) is None,
        },
    decreases entries@,
{
    let ghost pv = string_views(path@).skip(from as int);
    if from >= path.len() {
        return None;
    }
    let first = &path[from];
    let n = path.len();
    assert(pv[0] == first@);
    assert(entries@.subrange(0, entries@.len() as int) =~= entries@);
    let mut i: usize = 0;
    while i < entries.len()
        invariant
            i <= entries@.len(),
            from < n,
            n == path@.len(),
            pv == string_views(path@).skip(from as int),
            pv.len() > 0,
            pv[0] == first@,
            book_in(entries@, pv) == book_in(entries@.subrange(i as int, entries@.len() as int), pv),
        decreases entries.len() - i,
    {
        let ghost rest = entries@.subrange(i as int, entries@.len() as int);
        assert(rest[0] == entries@[i as int]);
        assert(rest.subrange(1, rest.len() as int) =~= entries@.subrange(i + 1, entries@.len() as int));
        match &entries[i] {
            CatalogEntryDto::Book(book) => {
                if str_eq(book.slug.as_str(), first.as_str()) {
                    return Some(book);
                }
            },
            CatalogEntryDto::Category(category) => {
                if str_eq(category.slug.as_str(), first.as_str()) {
                    assert(decreases_to!(entries@ => entries@[i as int]));
                    let found = find_owner(&category.entries, path, from + 1);
                    assert(string_views(path@).skip(from + 1) =~= pv.drop_first());
                    assert(book_at(entries@[i as int], pv) == book_in(category.entries@, pv.drop_first()));
                    if found.is_some() {
                        return found;
                    }
                }
            },
        }
        i = i + 1;
    }
    assert(entries@.subrange(entries@.len() as int, entries@.len() as int).len() == 0);
    None
}

/// The book a lesson path belongs to: the entry whose `category_path + slug` prefixes it.
pub fn book_of<'a>(index: &'a SynapseIndexDto, lesson_path: &[String]) -> (r: Option<&'a BookDto>)
    ensures
        match r {
            Some(b) => book_in(index.entries@, string_views(lesson_path@)) == Some(*b),
            None => book_in(index.entries@, string_views(lesson_path@)) is None,
        },
{
    assert(string_views(lesson_path@).skip(0) =~= string_views(lesson_path@));
    find_owner(&index.entries, lesson_path, 0)
}

/// The first book of `es` (depth-first through categories) whose slug is `slug`.
pub open spec fn book_named(es: Seq<CatalogEntryDto>, slug: Seq<char>) -> Option<BookDto>
    decreases es,
{
    if es.len() == 0 {
        None
    } else {
        match book_named_at(es[0], slug) {
            Some(b) => Some(b),
            None => book_named(es.subrange(1, es.len() as int), slug),
        }
    }
}

pub open spec fn book_named_at(e: CatalogEntryDto, slug: Seq<char>) -> Option<BookDto>
    decreases e,
{
    match e {
        CatalogEntryDto::Book(b) => if b.slug@ == slug {
            Some(b)
        } else {
            None
        },
        CatalogEntryDto::Category(c) => book_named(c.entries@, slug),
    }
}

fn find_named<'a>(entries: &'a Vec<CatalogEntryDto>, slug: &str) -> (r: Option<&'a BookDto>)
    ensures
        match r {
            Some(b) => book_named(entries@, slug@) == Some(*b),
            None => book_named(entries@, slug@) is None,
        },
    decreases entries@,
{
    assert(entries@.subrange(0, entries@.len() as int) =~= entries@);
    let mut i: usize = 0;
    while i < entries.len()
        invariant
            i <= entries@.len(),
            book_named(entries@, slug@) == book_named(
                entries@.subrange(i as int, entries@.len() as int),
                slug@,
            ),
        decreases entries.len() - i,
    {
        let ghost rest = entries@.subrange(i as int, entries@.len() as int);
        assert(rest[0] == entries@[i as int]);
        assert(rest.subrange(1, rest.len() as int) =~= entries@.subrange(i + 1, entries@.len() as int));
        match &entries[i] {
            CatalogEntryDto::Book(book) => {
                if str_eq(book.slug.as_str(), slug) {
                    return Some(book);
                }
            },
            CatalogEntryDto::Category(category) => {
                assert(decreases_to!(entries@ => entries@[i as int]));
                let found = find_named(&category.entries, slug);
                assert(book_named_at(entries@[i as int], slug@) == book_named(category.entries@, slug@));
                if found.is_some() {
                    return found;
                }
            },
        }
        i = i + 1;
    }
    assert(entries@.subrange(entries@.len() as int, entries@.len() as int).len() == 0);
    None
}

/// The book with a (globally unique) slug, depth-first through categories.
pub fn find_book<'a>(index: &'a SynapseIndexDto, slug: &str) -> (r: Option<&'a BookDto>)
    ensures
        match r {
            Some(b) => book_named(index.entries@, slug@) == Some(*b),
            None => book_named(index.entries@, slug@) is None,
        },
{
    find_named(&index.entries, slug)
}


/// The owning book is found wherever its entry stands in the list: with a non-empty path it is
/// what the first entry that holds the path gives, and there is none exactly when no entry
/// holds it.
pub proof fn lemma_book_in_first(es: Seq<CatalogEntryDto>, path: Seq<Seq<char>>)
    ensures
        path.len() > 0 ==> forall|k: int|
            0 <= k < es.len() && (#[trigger] book_at(es[k], path)) is Some && (forall|j: int|
                0 <= j < k ==> book_at(es[j], path) is None) ==> book_in(es, path) == book_at(es[k], path),
        book_in(es, path) is None <==> (path.len() == 0 || forall|k: int|
            0 <= k < es.len() ==> (#[trigger] book_at(es[k], path)) is None),
    decreases es.len(),
{
    if es.len() > 0 && path.len() > 0 {
        let rest = es.subrange(1, es.len() as int);
        lemma_book_in_first(rest, path);
        assert forall|k: int| 1 <= k < es.len() implies #[trigger] es[k] == rest[k - 1] by {}
        if book_at(es[0], path) is None {
            assert forall|k: int|
                0 <= k < es.len() && (#[trigger] book_at(es[k], path)) is Some && (forall|j: int|
                    0 <= j < k ==> book_at(es[j], path) is None) implies book_in(es, path) == book_at(
                es[k],
                path,
            ) by {
                assert(k >= 1);
                assert(rest[k - 1] == es[k]);
                assert forall|j: int| 0 <= j < k - 1 implies book_at(rest[j], path) is None by {
                    assert(rest[j] == es[j + 1]);
                }
            }
            if book_in(es, path) is None {
                assert forall|k: int| 0 <= k < es.len() implies (#[trigger] book_at(es[k], path)) is None by {
                    if k > 0 {
                        assert(rest[k - 1] == es[k]);
                    }
                }
            }
            if forall|k: int| 0 <= k < es.len() ==> (#[trigger] book_at(es[k], path)) is None {
                assert forall|k: int| 0 <= k < rest.len() implies (#[trigger] book_at(rest[k], path)) is None by {
                    assert(rest[k] == es[k + 1]);
                }
            }
        }
    }
}

/// A slug's book is found wherever its entry stands in the list: it is what the first entry
/// that holds the slug gives, and there is none exactly when no entry holds it.
pub proof fn lemma_book_named_first(es: Seq<CatalogEntryDto>, slug: Seq<char>)
    ensures
        forall|k: int|
            0 <= k < es.len() && (#[trigger] book_named_at(es[k], slug)) is Some && (forall|j: int|
                0 <= j < k ==> book_named_at(es[j], slug) is None) ==> book_named(es, slug) == book_named_at(
                es[k],
                slug,
            ),
        book_named(es, slug) is None <==> forall|k: int|
            0 <= k < es.len() ==> (#[trigger] book_named_at(es[k], slug)) is None,
    decreases es.len(),
{
    if es.len() > 0 {
        let rest = es.subrange(1, es.len() as int);
        lemma_book_named_first(rest, slug);
        if book_named_at(es[0], slug) is None {
            assert forall|k: int|
                0 <= k < es.len() && (#[trigger] book_named_at(es[k], slug)) is Some && (forall|j: int|
                    0 <= j < k ==> book_named_at(es[j], slug) is None) implies book_named(es, slug)
                == book_named_at(es[k], slug) by {
                assert(k >= 1);
                assert(rest[k - 1] == es[k]);
                assert forall|j: int| 0 <= j < k - 1 implies book_named_at(rest[j], slug) is None by {
                    assert(rest[j] == es[j + 1]);
                }
            }
            if book_named(es, slug) is None {
                assert forall|k: int| 0 <= k < es.len() implies (#[trigger] book_named_at(es[k], slug)) is None by {
                    if k > 0 {
                        assert(rest[k - 1] == es[k]);
                    }
                }
            }
            if forall|k: int| 0 <= k < es.len() ==> (#[trigger] book_named_at(es[k], slug)) is None {
                assert forall|k: int| 0 <= k < rest.len() implies (#[trigger] book_named_at(rest[k], slug)) is None by {
                    assert(rest[k] == es[k + 1]);
                }
            }
        }
    }
}

/// One hop of a click's composed path, target-first: `(tag_name, class_attr, data_id)`.
pub type C4PathHop = (String, String, Option<String>);

pub open spec fn hop_views(path: Seq<C4PathHop>) -> Seq<(Seq<char>, Seq<char>, Option<Seq<char>>)> {
    path.map_values(
        |h: C4PathHop|
            (
                h.0@,
                h.1@,
                match h.2 {
                    Some(x) => Some(x@),
                    None => None,
                },
            ),
    )
}

/// The element a click inside the architecture viewer lands on. Walking target-first: a
/// `button` before any node is one of the viewer's own controls (no element); the first hop
/// carrying the exact `react-flow__node` class token names the element by its non-empty
/// `data-id`; edges carry no such token and never resolve.
pub open spec fn spec_resolve_c4_node(path: Seq<(Seq<char>, Seq<char>, Option<Seq<char>>)>) -> Option<
    Seq<char>,
>
    decreases path.len(),
{
    if path.len() == 0 {
        None
    } else if eq_ascii_nocase(path[0].0, "button"@) {
        None
    } else if words(path[0].1).contains("react-flow__node"@) {
        match path[0].2 {
            Some(id) => if id.len() > 0 {
                Some(id)
            } else {
                None
            },
            None => None,
        }
    } else {
        spec_resolve_c4_node(path.drop_first())
    }
}

/// A hop that is one of the viewer's own controls.
pub open spec fn is_control(h: (Seq<char>, Seq<char>, Option<Seq<char>>)) -> bool {
    eq_ascii_nocase(h.0, "button"@)
}

/// A hop carrying the exact node class token.
pub open spec fn is_node(h: (Seq<char>, Seq<char>, Option<Seq<char>>)) -> bool {
    words(h.1).contains("react-flow__node"@)
}

/// The first control or node decides: a control (even one that is also a node) means no
/// element; a node means its id when that id is non-empty; with neither anywhere, no element.
pub proof fn lemma_resolve_first_stop(path: Seq<(Seq<char>, Seq<char>, Option<Seq<char>>)>)
    ensures
        (forall|j: int| 0 <= j < path.len() ==> !is_control(#[trigger] path[j]) && !is_node(path[j]))
            ==> spec_resolve_c4_node(path) is None,
        forall|m: int|
            0 <= m < path.len() && (is_control(#[trigger] path[m]) || is_node(path[m])) && (forall|j: int|
                0 <= j < m ==> !is_control(#[trigger] path[j]) && !is_node(path[j])) ==> spec_resolve_c4_node(path)
                == if is_control(path[m]) {
                None
            } else {
                match path[m].2 {
                    Some(id) => if id.len() > 0 {
                        Some(id)
                    } else {
                        None
                    },
                    None => None,
                }
            },
    decreases path.len(),
{
    if path.len() > 0 {
        let t = path.drop_first();
        lemma_resolve_first_stop(t);
        if forall|j: int| 0 <= j < path.len() ==> !is_control(#[trigger] path[j]) && !is_node(path[j]) {
            assert(!is_control(path[0]) && !is_node(path[0]));
            assert forall|j: int| 0 <= j < t.len() implies !is_control(#[trigger] t[j]) && !is_node(t[j]) by {
                assert(t[j] == path[j + 1]);
            }
        }
        assert forall|m: int|
            0 <= m < path.len() && (is_control(#[trigger] path[m]) || is_node(path[m])) && (forall|j: int|
                0 <= j < m ==> !is_control(#[trigger] path[j]) && !is_node(path[j])) implies spec_resolve_c4_node(
            path,
        ) == if is_control(path[m]) {
            None
        } else {
            match path[m].2 {
                Some(id) => if id.len() > 0 {
                    Some(id)
                } else {
                    None
                },
                None => None,
            }
        } by {
            if m > 0 {
                assert(!is_control(path[0]) && !is_node(path[0]));
                assert(t[m - 1] == path[m]);
                assert forall|j: int| 0 <= j < m - 1 implies !is_control(#[trigger] t[j]) && !is_node(t[j]) by {
                    assert(t[j] == path[j + 1]);
                }
            }
        }
    }
}

/// Resolve a click inside the architecture viewer to an element's dotted name.
pub fn resolve_c4_node(path: &[C4PathHop]) -> (r: Option<String>)
    ensures
        match r {
            Some(id) => spec_resolve_c4_node(hop_views(path@)) == Some(id@),
            None => spec_resolve_c4_node(hop_views(path@)) is None,
        },
{
    let ghost hv = hop_views(path@);
    let button = lit("button");
    let token = lit("react-flow__node");
    assert(hv.skip(0) =~= hv);
    let mut i: usize = 0;
    while i < path.len()
        invariant
            i <= path@.len(),
            hv == hop_views(path@),
            button@ == "button"@,
            token@ == "react-flow__node"@,
            spec_resolve_c4_node(hv) == spec_resolve_c4_node(hv.skip(i as int)),
        decreases path.len() - i,
    {
        let ghost rest = hv.skip(i as int);
        assert(rest[0] == hv[i as int]);
        assert(rest.drop_first() =~= hv.skip(i + 1));
        let (tag, classes, data_id) = &path[i];
        if same_ascii_nocase(&chars_of(tag.as_str()), &button) {
            return None;
        }
        let ws = words_of(&chars_of(classes.as_str()));
        let mut is_node = false;
        let mut k: usize = 0;
        while k < ws.len()
            invariant
                k <= ws@.len(),
                is_node == (exists|j: int| 0 <= j < k && #[trigger] seqs(ws@)[j] == token@),
            decreases ws.len() - k,
        {
            assert(seqs(ws@)[k as int] == ws@[k as int]@);
            if same(&ws[k], &token) {
                is_node = true;
            }
            k = k + 1;
        }
        if is_node {
            return match data_id {
                Some(id) => if id.as_str().unicode_len() > 0 {
                    Some(id.clone())
                } else {
                    None
                },
                None => None,
            };
        }
        i = i + 1;
    }
    None
}

// ─────────────────────────────────────────────────────────────────────────────
// The problem page: the first `<details` at a line start outside a code fence divides the
// description from the editorial.
// ─────────────────────────────────────────────────────────────────────────────

/// Whether a line opens or closes a code fence.
pub open spec fn is_fence(line: Seq<char>) -> bool {
    starts_with(trim_start(line), "```"@)
}

/// The first line at or after `i` that starts with `<details` outside a fence, the fence state
/// before line `i` being `in_fence`.
pub open spec fn details_from(ls: Seq<Seq<char>>, i: int, in_fence: bool) -> Option<int>
    decreases ls.len() - i,
{
    if i < 0 || i >= ls.len() {
        None
    } else {
        let f = if is_fence(ls[i]) {
            !in_fence
        } else {
            in_fence
        };
        if !f && starts_with(ls[i], "<details"@) {
            Some(i)
        } else {
            details_from(ls, i + 1, f)
        }
    }
}

/// `(description, editorial)` of a problem page's markdown: split before the boundary line,
/// the description's trailing whitespace trimmed; without a boundary the whole text is the
/// description and the editorial is empty.
pub open spec fn spec_problem_content_split(raw: Seq<char>) -> (Seq<char>, Seq<char>) {
    let ls = lines(raw);
    match details_from(ls, 0, false) {
        Some(at) => (trim_end(join(ls.take(at), "\n"@)), join(ls.skip(at), "\n"@)),
        None => (raw, Seq::empty()),
    }
}

pub proof fn lemma_details_bounds(ls: Seq<Seq<char>>, i: int, f: bool)
    requires
        0 <= i,
    ensures
        details_from(ls, i, f) matches Some(k) ==> i <= k < ls.len(),
    decreases ls.len() - i,
{
    if i < ls.len() {
        let g = if is_fence(ls[i]) {
            !f
        } else {
            f
        };
        lemma_details_bounds(ls, i + 1, g);
    }
}

/// How many of the first `n` lines open or close a fence.
pub open spec fn fence_count(ls: Seq<Seq<char>>, n: int) -> nat
    decreases n,
{
    if n <= 0 || n > ls.len() {
        0
    } else {
        fence_count(ls, n - 1) + if is_fence(ls[n - 1]) {
            1nat
        } else {
            0nat
        }
    }
}

/// Line `i` starts with `<details` and an even number of fence lines stand before it (it is
/// outside every fence).
pub open spec fn is_boundary(ls: Seq<Seq<char>>, i: int) -> bool {
    0 <= i < ls.len() && fence_count(ls, i) % 2 == 0 && starts_with(ls[i], "<details"@)
}

proof fn lemma_details_line_is_no_fence(l: Seq<char>)
    requires
        starts_with(l, "<details"@),
    ensures
        !is_fence(l),
{
    reveal_strlit("<details");
    reveal_strlit("```");
    assert(l[0] == "<details"@[0]);
    assert(trim_start(l) == l);
    assert(!starts_with(l, "```"@)) by {
        if starts_with(l, "```"@) {
            assert(l[0] == "```"@[0]);
        }
    }
}

proof fn lemma_details_from_k(ls: Seq<Seq<char>>, k: int, f: bool)
    requires
        0 <= k <= ls.len(),
        f == (fence_count(ls, k) % 2 == 1),
    ensures
        details_from(ls, k, f) matches Some(i) ==> k <= i < ls.len() && is_boundary(ls, i) && (forall|j: int|
            k <= j < i ==> !#[trigger] is_boundary(ls, j)),
        details_from(ls, k, f) is None ==> (forall|j: int| k <= j < ls.len() ==> !#[trigger] is_boundary(ls, j)),
    decreases ls.len() - k,
{
    if k < ls.len() {
        let g = if is_fence(ls[k]) {
            !f
        } else {
            f
        };
        assert(fence_count(ls, k + 1) == fence_count(ls, k) + if is_fence(ls[k]) {
            1nat
        } else {
            0nat
        });
        assert(g == (fence_count(ls, k + 1) % 2 == 1));
        if starts_with(ls[k], "<details"@) {
            lemma_details_line_is_no_fence(ls[k]);
        }
        if !(!g && starts_with(ls[k], "<details"@)) {
            lemma_details_from_k(ls, k + 1, g);
            assert(!is_boundary(ls, k));
        }
    }
}

/// The split happens at the FIRST line that starts with `<details` outside every fence (an
/// even number of fence lines before it), and nowhere when there is no such line.
pub proof fn lemma_split_at_first_boundary(ls: Seq<Seq<char>>)
    ensures
        forall|i: int|
            details_from(ls, 0, false) == Some(i) <==> (is_boundary(ls, i) && forall|j: int|
                0 <= j < i ==> !#[trigger] is_boundary(ls, j)),
        details_from(ls, 0, false) is None <==> (forall|i: int| !#[trigger] is_boundary(ls, i)),
{
    assert(fence_count(ls, 0) == 0);
    lemma_details_from_k(ls, 0, false);
    assert forall|i: int|
        details_from(ls, 0, false) == Some(i) <==> (is_boundary(ls, i) && forall|j: int|
            0 <= j < i ==> !#[trigger] is_boundary(ls, j)) by {
        if is_boundary(ls, i) && forall|j: int| 0 <= j < i ==> !#[trigger] is_boundary(ls, j) {
            match details_from(ls, 0, false) {
                Some(i2) => {
                    if i2 < i {
                        assert(!is_boundary(ls, i2));
                    }
                    if i < i2 {
                        assert(!is_boundary(ls, i));
                    }
                },
                None => {
                    assert(!is_boundary(ls, i));
                },
            }
        }
    }
    if details_from(ls, 0, false) is None {
        assert forall|i: int| !#[trigger] is_boundary(ls, i) by {
            if 0 <= i < ls.len() {
            }
        }
    } else {
        let i = details_from(ls, 0, false)->0;
        assert(is_boundary(ls, i));
    }
}

/// Split a problem page's markdown into its description and its editorial.
pub fn problem_content_split(raw: &str) -> (r: (String, String))
    ensures
        (r.0@, r.1@) == spec_problem_content_split(raw@),
{
    let text = chars_of(raw);
    let ls = lines_of(&text);
    let ghost lv = seqs(ls@);
    let fence = lit("```");
    let details = lit("<details");
    let mut in_fence = false;
    let mut boundary: Option<usize> = None;
    let mut i: usize = 0;
    while i < ls.len()
        invariant_except_break
            i <= ls@.len(),
            boundary is None,
            details_from(lv, 0, false) == details_from(lv, i as int, in_fence),
        invariant
            lv == seqs(ls@),
            lv == lines(raw@),
            fence@ == "```"@,
            details@ == "<details"@,
        ensures
            match boundary {
                Some(at) => details_from(lv, 0, false) == Some(at as int) && at < ls@.len(),
                None => details_from(lv, 0, false) is None,
            },
        decreases ls.len() - i,
    {
        assert(lv[i as int] == ls@[i as int]@);
        if has_prefix(&trimmed_start(&ls[i]), &fence) {
            in_fence = !in_fence;
        }
        if !in_fence && has_prefix(&ls[i], &details) {
            boundary = Some(i);
            break;
        }
        i = i + 1;
    }
    match boundary {
        Some(at) => {
            let mut head: Vec<Vec<char>> = Vec::new();
            let mut tail: Vec<Vec<char>> = Vec::new();
            let mut k: usize = 0;
            while k < ls.len()
                invariant
                    at < ls@.len(),
                    k <= ls@.len(),
                    lv == seqs(ls@),
                    seqs(head@) == lv.take(if k < at { k as int } else { at as int }),
                    seqs(tail@) == if k < at {
                        Seq::<Seq<char>>::empty()
                    } else {
                        lv.subrange(at as int, k as int)
                    },
                decreases ls.len() - k,
            {
                let x = copy_chars(&ls[k]);
                if k < at {
                    let ghost prev = head@;
                    head.push(x);
                    proof {
                        lemma_seqs_push(prev, x);
                    }
                    assert(lv.take(k + 1) =~= lv.take(k as int).push(lv[k as int]));
                } else {
                    let ghost prev = tail@;
                    tail.push(x);
                    proof {
                        lemma_seqs_push(prev, x);
                    }
                    assert(lv.subrange(at as int, k + 1) =~= lv.subrange(at as int, k as int).push(
                        lv[k as int],
                    ));
                }
                k = k + 1;
            }
            assert(lv.subrange(at as int, lv.len() as int) =~= lv.skip(at as int));
            let nl = lit("\n");
            let description = trimmed_end(&join_with(&head, &nl));
            let editorial = join_with(&tail, &nl);
            (string_of(&description), string_of(&editorial))
        },
        None => (string_of(&text), String::new()),
    }
}


// ─────────────────────────────────────────────────────────────────────────────
// The sidebar filter: a case-insensitive substring match on titles. A matching chapter keeps
// all its lessons; otherwise it survives only through surviving descendants.
// ─────────────────────────────────────────────────────────────────────────────

/// A book entry as values.
pub enum EntryView {
    Lesson((Seq<char>, Seq<char>, Option<u32>, bool)),
    Chapter(Seq<char>, Seq<char>, Option<u32>, Seq<EntryView>),
}

pub open spec fn entry_view(e: BookEntryDto) -> EntryView
    decreases e,
{
    match e {
        BookEntryDto::Lesson(l) => EntryView::Lesson(lesson_view(l)),
        BookEntryDto::Chapter(c) => EntryView::Chapter(c.slug@, c.title@, c.order, entries_view(c.entries@)),
    }
}

pub open spec fn entries_view(es: Seq<BookEntryDto>) -> Seq<EntryView>
    decreases es,
{
    if es.len() == 0 {
        Seq::empty()
    } else {
        entries_view(es.drop_last()).push(entry_view(es.last()))
    }
}

/// What survives of `es` under a (lowercased, non-empty) needle.
pub open spec fn pruned(es: Seq<BookEntryDto>, needle: Seq<char>) -> Seq<EntryView>
    decreases es,
{
    if es.len() == 0 {
        Seq::empty()
    } else {
        pruned(es.drop_last(), needle) + pruned_one(es.last(), needle)
    }
}

/// What survives of one entry: a lesson whose title matches; a chapter whose title matches,
/// whole; otherwise a chapter holding only its surviving descendants, if there are any.
pub open spec fn pruned_one(e: BookEntryDto, needle: Seq<char>) -> Seq<EntryView>
    decreases e,
{
    match e {
        BookEntryDto::Lesson(l) => if contains(lowercased(l.title@), needle) {
            seq![entry_view(e)]
        } else {
            Seq::empty()
        },
        BookEntryDto::Chapter(c) => if contains(lowercased(c.title@), needle) {
            seq![entry_view(e)]
        } else {
            let kids = pruned(c.entries@, needle);
            if kids.len() > 0 {
                seq![EntryView::Chapter(c.slug@, c.title@, c.order, kids)]
            } else {
                Seq::empty()
            }
        },
    }
}

/// The sidebar tree for a query: the whole tree for a blank query, else what survives the
/// lowercased, trimmed query.
pub open spec fn spec_prune_entries(es: Seq<BookEntryDto>, query: Seq<char>) -> Seq<EntryView> {
    let needle = lowercased(trim(query));
    if needle.len() == 0 {
        entries_view(es)
    } else {
        pruned(es, needle)
    }
}

/// The whole tree's view is the view of each entry, in order.
pub proof fn lemma_entries_view_each(es: Seq<BookEntryDto>)
    ensures
        entries_view(es) == es.map_values(|e: BookEntryDto| entry_view(e)),
    decreases es.len(),
{
    if es.len() > 0 {
        lemma_entries_view_each(es.drop_last());
    }
    assert(entries_view(es) =~= es.map_values(|e: BookEntryDto| entry_view(e)));
}

/// Pruning goes entry by entry and keeps the order: what survives of a list is what survives
/// of each of its entries, concatenated in the list's order.
pub proof fn lemma_pruned_each(es: Seq<BookEntryDto>, needle: Seq<char>)
    ensures
        pruned(es, needle) == es.map_values(|e: BookEntryDto| pruned_one(e, needle)).flatten(),
    decreases es.len(),
{
    let parts = es.map_values(|e: BookEntryDto| pruned_one(e, needle));
    if es.len() > 0 {
        lemma_pruned_each(es.drop_last(), needle);
        assert(parts.drop_last() =~= es.drop_last().map_values(|e: BookEntryDto| pruned_one(e, needle)));
        parts.drop_last().lemma_flatten_and_flatten_alt_are_equivalent();
        assert(parts.last() == pruned_one(es.last(), needle));
    }
    parts.lemma_flatten_and_flatten_alt_are_equivalent();
}

/// A book's reading order goes entry by entry: the lessons under each entry, concatenated in
/// the list's order.
pub proof fn lemma_entries_order_each(es: Seq<BookEntryDto>, prefix: Seq<Seq<char>>)
    ensures
        entries_order(es, prefix) == es.map_values(|e: BookEntryDto| entry_order(e, prefix)).flatten(),
    decreases es.len(),
{
    let parts = es.map_values(|e: BookEntryDto| entry_order(e, prefix));
    if es.len() > 0 {
        lemma_entries_order_each(es.drop_last(), prefix);
        assert(parts.drop_last() =~= es.drop_last().map_values(|e: BookEntryDto| entry_order(e, prefix)));
        parts.drop_last().lemma_flatten_and_flatten_alt_are_equivalent();
        assert(parts.last() == entry_order(es.last(), prefix));
    }
    parts.lemma_flatten_and_flatten_alt_are_equivalent();
}

pub proof fn lemma_entries_view_push(es: Seq<BookEntryDto>, e: BookEntryDto)
    ensures
        entries_view(es.push(e)) == entries_view(es).push(entry_view(e)),
{
    assert(es.push(e).drop_last() =~= es);
}

fn clone_entry(e: &BookEntryDto) -> (r: BookEntryDto)
    ensures
        entry_view(r) == entry_view(*e),
    decreases e,
{
    match e {
        BookEntryDto::Lesson(l) => BookEntryDto::Lesson(clone_lesson(l)),
        BookEntryDto::Chapter(c) => BookEntryDto::Chapter(
            ChapterDto {
                slug: c.slug.clone(),
                title: c.title.clone(),
                order: c.order,
                entries: clone_entries(&c.entries),
            },
        ),
    }
}

fn clone_entries(es: &Vec<BookEntryDto>) -> (r: Vec<BookEntryDto>)
    ensures
        entries_view(r@) == entries_view(es@),
    decreases es@,
{
    let mut r: Vec<BookEntryDto> = Vec::new();
    let mut i: usize = 0;
    while i < es.len()
        invariant
            i <= es@.len(),
            entries_view(r@) == entries_view(es@.take(i as int)),
        decreases es.len() - i,
    {
        assert(decreases_to!(es@ => es@[i as int]));
        let x = clone_entry(&es[i]);
        let ghost prev = r@;
        r.push(x);
        proof {
            lemma_entries_view_push(prev, x);
            lemma_entries_view_push(es@.take(i as int), es@[i as int]);
        }
        assert(es@.take(i + 1) =~= es@.take(i as int).push(es@[i as int]));
        i = i + 1;
    }
    assert(es@.take(es@.len() as int) =~= es@);
    r
}

fn prune_one(e: &BookEntryDto, needle: &Vec<char>) -> (r: Option<BookEntryDto>)
    ensures
        match r {
            Some(x) => pruned_one(*e, needle@) == seq![entry_view(x)],
            None => pruned_one(*e, needle@) == Seq::<EntryView>::empty(),
        },
    decreases e,
{
    match e {
        BookEntryDto::Lesson(l) => {
            if contains_in(&to_lower(&chars_of(l.title.as_str())), needle) {
                Some(clone_entry(e))
            } else {
                None
            }
        },
        BookEntryDto::Chapter(c) => {
            if contains_in(&to_lower(&chars_of(c.title.as_str())), needle) {
                return Some(clone_entry(e));
            }
            let kids = prune_list(&c.entries, needle);
            if kids.len() > 0 {
                Some(
                    BookEntryDto::Chapter(
                        ChapterDto {
                            slug: c.slug.clone(),
                            title: c.title.clone(),
                            order: c.order,
                            entries: kids,
                        },
                    ),
                )
            } else {
                None
            }
        },
    }
}

fn prune_list(es: &Vec<BookEntryDto>, needle: &Vec<char>) -> (r: Vec<BookEntryDto>)
    ensures
        entries_view(r@) == pruned(es@, needle@),
        entries_view(r@).len() == r@.len(),
    decreases es@,
{
    let mut r: Vec<BookEntryDto> = Vec::new();
    let mut i: usize = 0;
    while i < es.len()
        invariant
            i <= es@.len(),
            entries_view(r@) == pruned(es@.take(i as int), needle@),
            entries_view(r@).len() == r@.len(),
        decreases es.len() - i,
    {
        assert(decreases_to!(es@ => es@[i as int]));
        assert(es@.take(i + 1).drop_last() =~= es@.take(i as int));
        assert(pruned(es@.take(i + 1), needle@) == pruned(es@.take(i as int), needle@) + pruned_one(
            es@[i as int],
            needle@,
        ));
        match prune_one(&es[i], needle) {
            Some(x) => {
                let ghost prev = r@;
                r.push(x);
                proof {
                    lemma_entries_view_push(prev, x);
                }
                assert(entries_view(r@) =~= pruned(es@.take(i + 1), needle@));
            },
            None => {
                assert(pruned(es@.take(i + 1), needle@) =~= pruned(es@.take(i as int), needle@));
            },
        }
        i = i + 1;
    }
    assert(es@.take(es@.len() as int) =~= es@);
    r
}

/// The sidebar filter: the entries whose titles match `query` case-insensitively (a matching
/// chapter keeps all its lessons; a chapter otherwise survives through surviving descendants);
/// a blank query keeps everything.
pub fn prune_entries(entries: &[BookEntryDto], query: &str) -> (r: Vec<BookEntryDto>)
    ensures
        entries_view(r@) == spec_prune_entries(entries@, query@),
{
    let needle = to_lower(&trimmed(&chars_of(query)));
    let blank = needle.len() == 0;
    let mut r: Vec<BookEntryDto> = Vec::new();
    let mut i: usize = 0;
    while i < entries.len()
        invariant
            i <= entries@.len(),
            needle@ == lowercased(trim(query@)),
            blank == (needle@.len() == 0),
            entries_view(r@) == if blank {
                entries_view(entries@.take(i as int))
            } else {
                pruned(entries@.take(i as int), needle@)
            },
        decreases entries.len() - i,
    {
        assert(entries@.take(i + 1) =~= entries@.take(i as int).push(entries@[i as int]));
        assert(entries@.take(i + 1).drop_last() =~= entries@.take(i as int));
        if blank {
            let x = clone_entry(&entries[i]);
            let ghost prev = r@;
            r.push(x);
            proof {
                lemma_entries_view_push(prev, x);
                lemma_entries_view_push(entries@.take(i as int), entries@[i as int]);
            }
        } else {
            assert(pruned(entries@.take(i + 1), needle@) == pruned(entries@.take(i as int), needle@)
                + pruned_one(entries@[i as int], needle@));
            match prune_one(&entries[i], &needle) {
                Some(x) => {
                    let ghost prev = r@;
                    r.push(x);
                    proof {
                        lemma_entries_view_push(prev, x);
                    }
                    assert(entries_view(r@) =~= pruned(entries@.take(i + 1), needle@));
                },
                None => {
                    assert(pruned(entries@.take(i + 1), needle@) =~= pruned(
                        entries@.take(i as int),
                        needle@,
                    ));
                },
            }
        }
        i = i + 1;
    }
    assert(entries@.take(entries@.len() as int) =~= entries@);
    r
}


/// `n word`'s noun: the word itself for one, with an `s` otherwise.
pub fn plural(n: usize, word: &str) -> (out: String)
    ensures
        out@ == if n == 1 {
            word@
        } else {
            word@.push('s')
        },
{
    let mut w = chars_of(word);
    if n != 1 {
        w.push('s');
    }
    string_of(&w)
}

} // verus!

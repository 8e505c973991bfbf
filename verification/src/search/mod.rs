//! Search over the whole library: every lesson, every book (linked to its first lesson) and
//! every blog post, flattened into entries and ranked against a query.

pub mod rank;

use vstd::prelude::*;

use crate::catalog::clone_strings;
use crate::router::page::{Page, PageView};
use crate::text::{
    chars_of_strings, join, join_with, lemma_string_views_push, lit, string_of, string_views,
};
use crate::wire::{BlogSummaryDto, BookDto, BookEntryDto, CatalogEntryDto, SynapseIndexDto};

verus! {

/// What an entry is.
#[derive(Debug, Clone, Copy, PartialEq, Eq, Structural)]
pub enum Kind {
    Lesson,
    Book,
    Blog,
}

/// One searchable entry: what it is called, where it sits (its breadcrumb), what it is and
/// where it leads.
#[derive(Debug, Clone, PartialEq, Eq)]
pub struct SearchEntry {
    pub label: String,
    pub sublabel: String,
    pub kind: Kind,
    pub page: Page,
}

/// An entry as values.
pub open spec fn entry_view(e: SearchEntry) -> (Seq<char>, Seq<char>, Kind, PageView) {
    (e.label@, e.sublabel@, e.kind, e.page@)
}

pub open spec fn entry_views(v: Seq<SearchEntry>) -> Seq<(Seq<char>, Seq<char>, Kind, PageView)> {
    v.map_values(|e: SearchEntry| entry_view(e))
}

pub proof fn lemma_entry_views_push(v: Seq<SearchEntry>, e: SearchEntry)
    ensures
        entry_views(v.push(e)) == entry_views(v).push(entry_view(e)),
{
    assert(entry_views(v.push(e)) =~= entry_views(v).push(entry_view(e)));
}

/// A copy of a page.
pub fn clone_page(p: &Page) -> (r: Page)
    ensures
        r@ == p@,
{
    match p {
        Page::Library => Page::Library,
        Page::Lesson(path) => Page::Lesson(clone_strings(path)),
        Page::Blog => Page::Blog,
        Page::BlogPost(slug) => Page::BlogPost(slug.clone()),
        Page::Account => Page::Account,
        Page::Admin => Page::Admin,
        Page::NotFound(raw) => Page::NotFound(raw.clone()),
    }
}

/// A copy of an entry.
pub fn clone_entry(e: &SearchEntry) -> (r: SearchEntry)
    ensures
        entry_view(r) == entry_view(*e),
{
    SearchEntry {
        label: e.label.clone(),
        sublabel: e.sublabel.clone(),
        kind: e.kind,
        page: clone_page(&e.page),
    }
}

/// The breadcrumb separator.
pub open spec fn crumb_sep() -> Seq<char> {
    " › "@
}

/// The first lesson under `es` (depth-first), as its full path below `prefix`.
pub open spec fn first_under(es: Seq<BookEntryDto>, prefix: Seq<Seq<char>>) -> Option<Seq<Seq<char>>>
    decreases es,
{
    if es.len() == 0 {
        None
    } else {
        match first_at(es[0], prefix) {
            Some(p) => Some(p),
            None => first_under(es.subrange(1, es.len() as int), prefix),
        }
    }
}

pub open spec fn first_at(e: BookEntryDto, prefix: Seq<Seq<char>>) -> Option<Seq<Seq<char>>>
    decreases e,
{
    match e {
        BookEntryDto::Lesson(l) => Some(prefix.push(l.slug@)),
        BookEntryDto::Chapter(c) => first_under(c.entries@, prefix.push(c.slug@)),
    }
}

/// The lesson entries under `es`: titled by the lesson, breadcrumbed by `crumb`, leading to
/// the lesson's full path below `prefix`.
pub open spec fn lesson_entries(es: Seq<BookEntryDto>, crumb: Seq<Seq<char>>, prefix: Seq<Seq<char>>) -> Seq<
    (Seq<char>, Seq<char>, Kind, PageView),
>
    decreases es,
{
    if es.len() == 0 {
        Seq::empty()
    } else {
        lesson_entries(es.drop_last(), crumb, prefix) + lesson_entries_at(es.last(), crumb, prefix)
    }
}

pub open spec fn lesson_entries_at(e: BookEntryDto, crumb: Seq<Seq<char>>, prefix: Seq<Seq<char>>) -> Seq<
    (Seq<char>, Seq<char>, Kind, PageView),
>
    decreases e,
{
    match e {
        BookEntryDto::Chapter(c) => lesson_entries(
            c.entries@,
            crumb.push(c.title@),
            prefix.push(c.slug@),
        ),
        BookEntryDto::Lesson(l) => seq![
            (l.title@, join(crumb, crumb_sep()), Kind::Lesson, PageView::Lesson(prefix.push(l.slug@))),
        ],
    }
}

/// A book's entries: the book itself (when it has a lesson to lead to), then its lessons.
pub open spec fn book_entries(b: BookDto, crumb: Seq<Seq<char>>) -> Seq<(Seq<char>, Seq<char>, Kind, PageView)> {
    let prefix = string_views(b.category_path@).push(b.slug@);
    let own = match first_under(b.entries@, prefix) {
        Some(first) => seq![
            (b.title@, join(crumb.push("Book"@), crumb_sep()), Kind::Book, PageView::Lesson(first)),
        ],
        None => Seq::empty(),
    };
    own + lesson_entries(b.entries@, crumb.push(b.title@), prefix)
}

/// The entries of a catalog tree, categories adding their titles to the breadcrumb.
pub open spec fn catalog_entries(es: Seq<CatalogEntryDto>, crumb: Seq<Seq<char>>) -> Seq<
    (Seq<char>, Seq<char>, Kind, PageView),
>
    decreases es,
{
    if es.len() == 0 {
        Seq::empty()
    } else {
        catalog_entries(es.drop_last(), crumb) + catalog_entries_at(es.last(), crumb)
    }
}

pub open spec fn catalog_entries_at(e: CatalogEntryDto, crumb: Seq<Seq<char>>) -> Seq<
    (Seq<char>, Seq<char>, Kind, PageView),
>
    decreases e,
{
    match e {
        CatalogEntryDto::Category(c) => catalog_entries(c.entries@, crumb.push(c.title@)),
        CatalogEntryDto::Book(b) => book_entries(b, crumb),
    }
}

/// Flattening goes entry by entry and keeps the order: the catalog's entries are those of each
/// of its entries (a category's under its title, a book's own), concatenated in the list's order.
pub proof fn lemma_catalog_entries_each(es: Seq<CatalogEntryDto>, crumb: Seq<Seq<char>>)
    ensures
        catalog_entries(es, crumb) == es.map_values(|e: CatalogEntryDto| catalog_entries_at(e, crumb)).flatten(),
    decreases es.len(),
{
    let parts = es.map_values(|e: CatalogEntryDto| catalog_entries_at(e, crumb));
    if es.len() > 0 {
        lemma_catalog_entries_each(es.drop_last(), crumb);
        assert(parts.drop_last() =~= es.drop_last().map_values(
            |e: CatalogEntryDto| catalog_entries_at(e, crumb),
        ));
        parts.drop_last().lemma_flatten_and_flatten_alt_are_equivalent();
        assert(parts.last() == catalog_entries_at(es.last(), crumb));
    }
    parts.lemma_flatten_and_flatten_alt_are_equivalent();
}

/// A book's lessons are listed entry by entry, in the book's order: those under each entry,
/// concatenated.
pub proof fn lemma_lesson_entries_each(es: Seq<BookEntryDto>, crumb: Seq<Seq<char>>, prefix: Seq<Seq<char>>)
    ensures
        lesson_entries(es, crumb, prefix) == es.map_values(
            |e: BookEntryDto| lesson_entries_at(e, crumb, prefix),
        ).flatten(),
    decreases es.len(),
{
    let parts = es.map_values(|e: BookEntryDto| lesson_entries_at(e, crumb, prefix));
    if es.len() > 0 {
        lemma_lesson_entries_each(es.drop_last(), crumb, prefix);
        assert(parts.drop_last() =~= es.drop_last().map_values(
            |e: BookEntryDto| lesson_entries_at(e, crumb, prefix),
        ));
        parts.drop_last().lemma_flatten_and_flatten_alt_are_equivalent();
        assert(parts.last() == lesson_entries_at(es.last(), crumb, prefix));
    }
    parts.lemma_flatten_and_flatten_alt_are_equivalent();
}

/// A book's first lesson is the first that any of its entries holds, in the book's order; there
/// is none exactly when no entry holds a lesson.
pub proof fn lemma_first_under_first(es: Seq<BookEntryDto>, prefix: Seq<Seq<char>>)
    ensures
        forall|k: int|
            0 <= k < es.len() && (#[trigger] first_at(es[k], prefix)) is Some && (forall|j: int|
                0 <= j < k ==> first_at(es[j], prefix) is None) ==> first_under(es, prefix) == first_at(
                es[k],
                prefix,
            ),
        first_under(es, prefix) is None <==> forall|k: int|
            0 <= k < es.len() ==> (#[trigger] first_at(es[k], prefix)) is None,
    decreases es.len(),
{
    if es.len() > 0 {
        let rest = es.subrange(1, es.len() as int);
        lemma_first_under_first(rest, prefix);
        if first_at(es[0], prefix) is None {
            assert forall|k: int|
                0 <= k < es.len() && (#[trigger] first_at(es[k], prefix)) is Some && (forall|j: int|
                    0 <= j < k ==> first_at(es[j], prefix) is None) implies first_under(es, prefix)
                == first_at(es[k], prefix) by {
                assert(k >= 1);
                assert(rest[k - 1] == es[k]);
                assert forall|j: int| 0 <= j < k - 1 implies first_at(rest[j], prefix) is None by {
                    assert(rest[j] == es[j + 1]);
                }
            }
            if first_under(es, prefix) is None {
                assert forall|k: int| 0 <= k < es.len() implies (#[trigger] first_at(es[k], prefix)) is None by {
                    if k > 0 {
                        assert(rest[k - 1] == es[k]);
                    }
                }
            }
            if forall|k: int| 0 <= k < es.len() ==> (#[trigger] first_at(es[k], prefix)) is None {
                assert forall|k: int| 0 <= k < rest.len() implies (#[trigger] first_at(rest[k], prefix)) is None by {
                    assert(rest[k] == es[k + 1]);
                }
            }
        }
    }
}

/// A blog post's entry.
pub open spec fn post_entry(p: BlogSummaryDto) -> (Seq<char>, Seq<char>, Kind, PageView) {
    (p.title@, "Blog"@, Kind::Blog, PageView::BlogPost(p.slug@))
}

/// The whole library, flattened: the catalog's entries, then one per blog post.
pub open spec fn spec_entries(index: SynapseIndexDto, blog: Seq<BlogSummaryDto>) -> Seq<
    (Seq<char>, Seq<char>, Kind, PageView),
> {
    catalog_entries(index.entries@, Seq::empty()) + blog.map_values(|p: BlogSummaryDto| post_entry(p))
}

fn pushed(v: &Vec<String>, s: &String) -> (r: Vec<String>)
    ensures
        string_views(r@) == string_views(v@).push(s@),
{
    let mut r = clone_strings(v);
    let ghost prev = r@;
    let x = s.clone();
    r.push(x);
    proof {
        lemma_string_views_push(prev, x);
    }
    r
}

fn joined(v: &Vec<String>, sep: &str) -> (r: String)
    ensures
        r@ == join(string_views(v@), sep@),
{
    string_of(&join_with(&chars_of_strings(v), &lit(sep)))
}

fn first_lesson(es: &Vec<BookEntryDto>, prefix: &Vec<String>) -> (r: Option<Vec<String>>)
    ensures
        match r {
            Some(p) => first_under(es@, string_views(prefix@)) == Some(string_views(p@)),
            None => first_under(es@, string_views(prefix@)) is None,
        },
    decreases es@,
{
    let ghost pv = string_views(prefix@);
    assert(es@.subrange(0, es@.len() as int) =~= es@);
    let mut i: usize = 0;
    while i < es.len()
        invariant
            i <= es@.len(),
            pv == string_views(prefix@),
            first_under(es@, pv) == first_under(es@.subrange(i as int, es@.len() as int), pv),
        decreases es.len() - i,
    {
        let ghost rest = es@.subrange(i as int, es@.len() as int);
        assert(rest[0] == es@[i as int]);
        assert(rest.subrange(1, rest.len() as int) =~= es@.subrange(i + 1, es@.len() as int));
        match &es[i] {
            BookEntryDto::Lesson(lesson) => {
                let r = pushed(prefix, &lesson.slug);
                assert(first_at(es@[i as int], pv) == Some(pv.push(lesson.slug@)));
                return Some(r);
            },
            BookEntryDto::Chapter(chapter) => {
                assert(decreases_to!(es@ => es@[i as int]));
                let deeper = pushed(prefix, &chapter.slug);
                let found = first_lesson(&chapter.entries, &deeper);
                assert(first_at(es@[i as int], pv) == first_under(chapter.entries@, pv.push(chapter.slug@)));
                if found.is_some() {
                    return found;
                }
            },
        }
        i = i + 1;
    }
    None
}

fn flatten_entries(
    es: &Vec<BookEntryDto>,
    crumb: &Vec<String>,
    prefix: &Vec<String>,
    out: &mut Vec<SearchEntry>,
)
    ensures
        entry_views(final(out)@) == entry_views(old(out)@) + lesson_entries(
            es@,
            string_views(crumb@),
            string_views(prefix@),
        ),
    decreases es@,
{
    let ghost cv = string_views(crumb@);
    let ghost pv = string_views(prefix@);
    let ghost start = entry_views(out@);
    let mut i: usize = 0;
    while i < es.len()
        invariant
            i <= es@.len(),
            cv == string_views(crumb@),
            pv == string_views(prefix@),
            entry_views(out@) == start + lesson_entries(es@.take(i as int), cv, pv),
        decreases es.len() - i,
    {
        assert(es@.take(i + 1).drop_last() =~= es@.take(i as int));
        assert(lesson_entries(es@.take(i + 1), cv, pv) == lesson_entries(es@.take(i as int), cv, pv)
            + lesson_entries_at(es@[i as int], cv, pv));
        match &es[i] {
            BookEntryDto::Chapter(chapter) => {
                assert(decreases_to!(es@ => es@[i as int]));
                let deeper_crumb = pushed(crumb, &chapter.title);
                let deeper_prefix = pushed(prefix, &chapter.slug);
                flatten_entries(&chapter.entries, &deeper_crumb, &deeper_prefix, out);
            },
            BookEntryDto::Lesson(lesson) => {
                let path = pushed(prefix, &lesson.slug);
                let e = SearchEntry {
                    label: lesson.title.clone(),
                    sublabel: joined(crumb, " › "),
                    kind: Kind::Lesson,
                    page: Page::Lesson(path),
                };
                let ghost prev = out@;
                out.push(e);
                proof {
                    lemma_entry_views_push(prev, e);
                }
            },
        }
        i = i + 1;
    }
    assert(es@.take(es@.len() as int) =~= es@);
}

fn flatten_book(book: &BookDto, crumb: &Vec<String>, out: &mut Vec<SearchEntry>)
    ensures
        entry_views(final(out)@) == entry_views(old(out)@) + book_entries(*book, string_views(crumb@)),
{
    let ghost cv = string_views(crumb@);
    let prefix = pushed(&book.category_path, &book.slug);
    let ghost start = entry_views(out@);
    match first_lesson(&book.entries, &prefix) {
        Some(first) => {
            let label_crumb = pushed(crumb, &string_of(&lit("Book")));
            let e = SearchEntry {
                label: book.title.clone(),
                sublabel: joined(&label_crumb, " › "),
                kind: Kind::Book,
                page: Page::Lesson(first),
            };
            let ghost prev = out@;
            out.push(e);
            proof {
                lemma_entry_views_push(prev, e);
            }
        },
        None => {},
    }
    let ghost mid = entry_views(out@);
    let deeper = pushed(crumb, &book.title);
    flatten_entries(&book.entries, &deeper, &prefix, out);
}

fn flatten_catalog(es: &Vec<CatalogEntryDto>, crumb: &Vec<String>, out: &mut Vec<SearchEntry>)
    ensures
        entry_views(final(out)@) == entry_views(old(out)@) + catalog_entries(es@, string_views(crumb@)),
    decreases es@,
{
    let ghost cv = string_views(crumb@);
    let ghost start = entry_views(out@);
    let mut i: usize = 0;
    while i < es.len()
        invariant
            i <= es@.len(),
            cv == string_views(crumb@),
            entry_views(out@) == start + catalog_entries(es@.take(i as int), cv),
        decreases es.len() - i,
    {
        assert(es@.take(i + 1).drop_last() =~= es@.take(i as int));
        assert(catalog_entries(es@.take(i + 1), cv) == catalog_entries(es@.take(i as int), cv)
            + catalog_entries_at(es@[i as int], cv));
        match &es[i] {
            CatalogEntryDto::Category(category) => {
                assert(decreases_to!(es@ => es@[i as int]));
                let deeper = pushed(crumb, &category.title);
                flatten_catalog(&category.entries, &deeper, out);
            },
            CatalogEntryDto::Book(book) => {
                flatten_book(book, crumb, out);
            },
        }
        i = i + 1;
    }
    assert(es@.take(es@.len() as int) =~= es@);
}

/// Flatten the whole library into searchable entries.
pub fn entries(index: &SynapseIndexDto, blog: &[BlogSummaryDto]) -> (all: Vec<SearchEntry>)
    ensures
        entry_views(all@) == spec_entries(*index, blog@),
{
    let mut all: Vec<SearchEntry> = Vec::new();
    let root: Vec<String> = Vec::new();
    flatten_catalog(&index.entries, &root, &mut all);
    assert(string_views(root@) =~= Seq::<Seq<char>>::empty());
    let ghost cat = entry_views(all@);
    let ghost posts = blog@.map_values(|p: BlogSummaryDto| post_entry(p));
    let mut i: usize = 0;
    while i < blog.len()
        invariant
            i <= blog@.len(),
            posts == blog@.map_values(|p: BlogSummaryDto| post_entry(p)),
            entry_views(all@) == cat + posts.take(i as int),
        decreases blog.len() - i,
    {
        let post = &blog[i];
        let e = SearchEntry {
            label: post.title.clone(),
            sublabel: string_of(&lit("Blog")),
            kind: Kind::Blog,
            page: Page::BlogPost(post.slug.clone()),
        };
        let ghost prev = all@;
        all.push(e);
        proof {
            lemma_entry_views_push(prev, e);
        }
        assert(posts.take(i + 1) =~= posts.take(i as int).push(posts[i as int]));
        i = i + 1;
    }
    assert(posts.take(blog@.len() as int) =~= posts);
    all
}

} // verus!

//! The reader sidebar's remembered face, and which category branch holds the open book.

use vstd::prelude::*;

use crate::text::{str_eq};
use crate::wire::{CatalogEntryDto, CategoryDto};

verus! {

/// The storage key the sidebar face lives under.
pub const MODE_KEY: &'static str = "reader-sidebar";

/// The sidebar's three faces.
#[derive(Debug, Clone, Copy, PartialEq, Eq, Structural)]
pub enum SidebarMode {
    Expanded,
    Compact,
    Hidden,
}

impl SidebarMode {
    pub open spec fn spec_token(self) -> Seq<char> {
        match self {
            SidebarMode::Expanded => "expanded"@,
            SidebarMode::Compact => "compact"@,
            SidebarMode::Hidden => "hidden"@,
        }
    }

    /// A stored token read back: `compact`, `hidden` (or the older `collapsed`); anything else
    /// is the expanded face.
    pub open spec fn spec_parse(token: Seq<char>) -> SidebarMode {
        if token == "compact"@ {
            SidebarMode::Compact
        } else if token == "hidden"@ || token == "collapsed"@ {
            SidebarMode::Hidden
        } else {
            SidebarMode::Expanded
        }
    }

    /// The stored token of a face.
    pub fn token(self) -> (t: &'static str)
        ensures
            t@ == self.spec_token(),
    {
        match self {
            SidebarMode::Expanded => "expanded",
            SidebarMode::Compact => "compact",
            SidebarMode::Hidden => "hidden",
        }
    }

    /// The face a stored token names.
    pub fn parse(token: &str) -> (m: SidebarMode)
        ensures
            m == SidebarMode::spec_parse(token@),
    {
        if str_eq(token, "compact") {
            SidebarMode::Compact
        } else if str_eq(token, "hidden") || str_eq(token, "collapsed") {
            SidebarMode::Hidden
        } else {
            SidebarMode::Expanded
        }
    }

    /// The face to open with, given what storage holds under [`MODE_KEY`].
    pub fn load(stored: Option<&str>) -> (m: SidebarMode)
        ensures
            m == match stored {
                Some(t) => SidebarMode::spec_parse(t@),
                None => SidebarMode::Expanded,
            },
    {
        match stored {
            Some(t) => SidebarMode::parse(t),
            None => SidebarMode::Expanded,
        }
    }
}

/// Whether a book with this slug sits anywhere under the entries.
pub open spec fn holds_book(es: Seq<CatalogEntryDto>, slug: Seq<char>) -> bool
    decreases es,
{
    if es.len() == 0 {
        false
    } else {
        holds_book(es.drop_last(), slug) || holds_book_at(es.last(), slug)
    }
}

pub open spec fn holds_book_at(e: CatalogEntryDto, slug: Seq<char>) -> bool
    decreases e,
{
    match e {
        CatalogEntryDto::Book(b) => b.slug@ == slug,
        CatalogEntryDto::Category(c) => holds_book(c.entries@, slug),
    }
}

fn entries_hold_book(es: &Vec<CatalogEntryDto>, slug: &str) -> (b: bool)
    ensures
        b == holds_book(es@, slug@),
    decreases es@,
{
    let mut found = false;
    let mut i: usize = 0;
    while i < es.len()
        invariant
            i <= es@.len(),
            found == holds_book(es@.take(i as int), slug@),
        decreases es.len() - i,
    {
        assert(es@.take(i + 1).drop_last() =~= es@.take(i as int));
        assert(holds_book(es@.take(i + 1), slug@) == (holds_book(es@.take(i as int), slug@)
            || holds_book_at(es@[i as int], slug@)));
        let here = match &es[i] {
            CatalogEntryDto::Book(book) => str_eq(book.slug.as_str(), slug),
            CatalogEntryDto::Category(inner) => {
                assert(decreases_to!(es@ => es@[i as int]));
                entries_hold_book(&inner.entries, slug)
            },
        };
        found = found || here;
        i = i + 1;
    }
    assert(es@.take(es@.len() as int) =~= es@);
    found
}

/// Whether the category's branch holds the book with this slug (the branch to open).
pub fn category_has_book(category: &CategoryDto, slug: &str) -> (b: bool)
    ensures
        b == holds_book(category.entries@, slug@),
{
    entries_hold_book(&category.entries, slug)
}


/// A list holds the book exactly when one of its entries does, wherever that entry stands: the
/// book itself, or a category holding it at any depth.
pub proof fn lemma_holds_book_any(es: Seq<CatalogEntryDto>, slug: Seq<char>)
    ensures
        holds_book(es, slug) <==> exists|k: int| 0 <= k < es.len() && #[trigger] holds_book_at(es[k], slug),
    decreases es.len(),
{
    if es.len() > 0 {
        let dl = es.drop_last();
        lemma_holds_book_any(dl, slug);
        if holds_book(dl, slug) {
            let k = choose|k: int| 0 <= k < dl.len() && #[trigger] holds_book_at(dl[k], slug);
            assert(es[k] == dl[k]);
        }
        if holds_book_at(es.last(), slug) {
            assert(holds_book_at(es[es.len() - 1], slug));
        }
        if exists|k: int| 0 <= k < es.len() && #[trigger] holds_book_at(es[k], slug) {
            let k = choose|k: int| 0 <= k < es.len() && #[trigger] holds_book_at(es[k], slug);
            if k < es.len() - 1 {
                assert(dl[k] == es[k]);
            }
        }
    }
}

} // verus!

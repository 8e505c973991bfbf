//! The wire shapes the client reads: the catalog index (categories → books → chapters →
//! lessons), blog summaries, and a workbench's authored test spec. Plain values only; decoding
//! them from JSON happens outside the library.

use vstd::prelude::*;

use crate::catalog::progress::lex_lt;

verus! {

/// A lesson leaf of a book.
#[derive(Debug, PartialEq, Eq)]
pub struct LessonDto {
    pub slug: String,
    pub title: String,
    pub order: Option<u32>,
    pub essential: bool,
}

/// A chapter: a titled directory of further entries.
#[derive(Debug, PartialEq, Eq)]
pub struct ChapterDto {
    pub slug: String,
    pub title: String,
    pub order: Option<u32>,
    pub entries: Vec<BookEntryDto>,
}

/// One entry of a book's tree.
#[derive(Debug, PartialEq, Eq)]
pub enum BookEntryDto {
    Lesson(LessonDto),
    Chapter(ChapterDto),
}

/// A book: its place in the catalog (`category_path`) and its entry tree.
#[derive(Debug, PartialEq, Eq)]
pub struct BookDto {
    pub slug: String,
    pub title: String,
    pub description: String,
    pub tags: Vec<String>,
    pub estimated_reading_minutes: Option<u32>,
    pub order: Option<u32>,
    pub category_path: Vec<String>,
    pub entries: Vec<BookEntryDto>,
}

/// A catalog category: a titled directory of books and further categories.
#[derive(Debug, PartialEq, Eq)]
pub struct CategoryDto {
    pub slug: String,
    pub title: String,
    pub description: Option<String>,
    pub icon: Option<String>,
    pub order: Option<u32>,
    pub entries: Vec<CatalogEntryDto>,
}

#[derive(Debug, PartialEq, Eq)]
pub enum CatalogEntryDto {
    Category(CategoryDto),
    Book(BookDto),
}

/// The whole catalog.
#[derive(Debug, PartialEq, Eq)]
pub struct SynapseIndexDto {
    pub entries: Vec<CatalogEntryDto>,
}

/// One blog post in the listing.
#[derive(Debug, PartialEq, Eq)]
pub struct BlogSummaryDto {
    pub slug: String,
    pub title: String,
    pub summary: Option<String>,
    pub published_at: String,
    pub tags: Vec<String>,
    pub read_minutes: Option<u32>,
    pub eyebrow: Option<String>,
}

/// One declared argument of a workbench's tests.
#[derive(Debug, PartialEq, Eq)]
pub struct ArgSpec {
    pub id: String,
    pub label: String,
    pub kind: String,
}

/// One authored case: argument values by id (in key order), and the expected stdout.
#[derive(Debug, PartialEq, Eq)]
pub struct TestCase {
    pub args: Vec<(String, String)>,
    pub expected: Option<String>,
}

/// Whether argument pairs form a map in key order: ids strictly increasing, so each id occurs
/// once (what a decoded case always is).
pub open spec fn keys_ordered(args: Seq<(Seq<char>, Seq<char>)>) -> bool {
    forall|i: int, j: int| 0 <= i < j < args.len() ==> lex_lt(#[trigger] args[i].0, #[trigger] args[j].0)
}

/// A workbench's authored tests.
#[derive(Debug, PartialEq, Eq)]
pub struct TestSpec {
    pub args: Vec<ArgSpec>,
    pub cases: Vec<TestCase>,
}

} // verus!

//! The document title the client sets on navigation: `Book · Lesson — Synapse`, the book
//! leading because the left of a title is what survives truncation in a tab strip.

use vstd::prelude::*;

use crate::text::{append, chars_of, lit, string_of};

verus! {

/// The site name, and the fallback title for any page without one of its own.
pub const SITE_NAME: &'static str = "Synapse";

/// The title of a lesson page, with or without its book.
pub open spec fn spec_title_for_lesson(book: Option<Seq<char>>, lesson: Seq<char>) -> Seq<char> {
    match book {
        Some(b) => b + " · "@ + lesson + " — "@ + SITE_NAME@,
        None => lesson + " — "@ + SITE_NAME@,
    }
}

/// `Book · Lesson — Synapse`; a lesson whose book is unknown still gets `Lesson — Synapse`.
pub fn title_for_lesson(book_title: Option<&str>, lesson_title: &str) -> (out: String)
    ensures
        out@ == spec_title_for_lesson(
            match book_title {
                Some(b) => Some(b@),
                None => None,
            },
            lesson_title@,
        ),
{
    let mut out: Vec<char> = Vec::new();
    match book_title {
        Some(book) => {
            append(&mut out, &chars_of(book));
            append(&mut out, &lit(" · "));
        },
        None => {},
    }
    append(&mut out, &chars_of(lesson_title));
    append(&mut out, &lit(" — "));
    append(&mut out, &lit(SITE_NAME));
    string_of(&out)
}

} // verus!

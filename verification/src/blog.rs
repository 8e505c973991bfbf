//! The blog's small text decisions.

use vstd::prelude::*;

use crate::text::{capitalize, capitalized, chars_of, string_of};

verus! {

/// A slug's dashes and underscores as spaces.
pub open spec fn spaced(slug: Seq<char>) -> Seq<char> {
    slug.map_values(|c: char| if c == '-' || c == '_' { ' ' } else { c })
}

/// `rebuilding-cortex` → `Rebuilding cortex`: a neighbouring post's slug made readable for
/// the pager card.
pub fn humanize(slug: &str) -> (out: String)
    ensures
        out@ == capitalize(spaced(slug@)),
{
    let s = chars_of(slug);
    let mut w: Vec<char> = Vec::new();
    let mut i: usize = 0;
    while i < s.len()
        invariant
            i <= s@.len(),
            w@ == spaced(s@.take(i as int)),
        decreases s.len() - i,
    {
        let c = s[i];
        w.push(if c == '-' || c == '_' { ' ' } else { c });
        i = i + 1;
        assert(w@ =~= spaced(s@.take(i as int)));
    }
    assert(s@.take(s@.len() as int) =~= s@);
    string_of(&capitalized(&w))
}

} // verus!

//! The reader's remembered workbench language. Read when a block mounts, written only on an
//! explicit choice; what is stored is always the CANONICAL token, so `py` and `python3` both
//! come back as `python` and match whatever a later page spells its fence.

use vstd::prelude::*;

use crate::execution::blocks::Variant;
use crate::execution::language::{
    canonical_lang, preferred_index, spec_canonical_lang, spec_preferred_index, variant_langs,
};

verus! {

/// The storage key the preference lives under.
pub const LANG_KEY: &'static str = "wb-language";

/// Which variant a block opens on, given what storage holds under [`LANG_KEY`]. Falls back to
/// 0 whenever the preference cannot be honoured, and is always in bounds for a non-empty
/// block, so callers may index `variants` with it directly.
pub fn index_for(variants: &[Variant], stored: Option<&str>) -> (i: usize)
    ensures
        i as int == spec_preferred_index(
            variant_langs(variants@),
            match stored {
                Some(p) => Some(p@),
                None => None,
            },
        ),
        variants@.len() > 0 ==> i < variants@.len(),
{
    preferred_index(variants, stored)
}

/// What remembering `alias` writes: `(LANG_KEY, canonical token)`, or nothing at all when the
/// alias names no runnable language (a blank or unknown alias never clobbers the preference).
pub fn store(alias: &str) -> (w: Option<(&'static str, &'static str)>)
    ensures
        match w {
            Some((k, v)) => k@ == LANG_KEY@ && spec_canonical_lang(alias@) == Some(v@),
            None => spec_canonical_lang(alias@) is None,
        },
{
    match canonical_lang(alias) {
        Some(canonical) => Some((LANG_KEY, canonical)),
        None => None,
    }
}

} // verus!

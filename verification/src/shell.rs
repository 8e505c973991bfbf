//! The page shell's small decisions: the light/dark theme and how the footer shows the build.

use vstd::prelude::*;

use crate::text::{chars_of, copy_chars, slice, string_of};

verus! {

/// The colour scheme.
#[derive(Debug, Clone, Copy, PartialEq, Eq, Structural)]
pub enum Mode {
    Light,
    Dark,
}

/// The storage key the theme choice lives under.
pub const THEME_KEY: &'static str = "theme";

/// The other scheme: what the toggle switches to.
pub fn toggled(mode: Mode) -> (next: Mode)
    ensures
        next != mode,
{
    match mode {
        Mode::Dark => Mode::Light,
        Mode::Light => Mode::Dark,
    }
}

/// The stored token of a scheme.
pub fn theme_token(mode: Mode) -> (t: &'static str)
    ensures
        t@ == match mode {
            Mode::Dark => "dark"@,
            Mode::Light => "light"@,
        },
{
    match mode {
        Mode::Dark => "dark",
        Mode::Light => "light",
    }
}

pub open spec fn is_hex_digit(c: char) -> bool {
    ('0' <= c && c <= '9') || ('a' <= c && c <= 'f') || ('A' <= c && c <= 'F')
}

/// How the footer shows a build version: a commit hash longer than seven hex digits is cut
/// to its first seven (the git convention); anything else, such as `dev`, passes through.
pub open spec fn spec_short(version: Seq<char>) -> Seq<char> {
    if version.len() > 7 && (forall|i: int| 0 <= i < version.len() ==> is_hex_digit(#[trigger] version[i])) {
        version.take(7)
    } else {
        version
    }
}

/// The footer's form of a build version.
pub fn short(version: &str) -> (out: String)
    ensures
        out@ == spec_short(version@),
{
    let v = chars_of(version);
    let mut all_hex = true;
    let mut i: usize = 0;
    while i < v.len()
        invariant
            i <= v@.len(),
            all_hex == (forall|k: int| 0 <= k < i ==> is_hex_digit(#[trigger] v@[k])),
        decreases v.len() - i,
    {
        let c = v[i];
        if !(('0' <= c && c <= '9') || ('a' <= c && c <= 'f') || ('A' <= c && c <= 'F')) {
            all_hex = false;
        }
        i = i + 1;
    }
    if v.len() > 7 && all_hex {
        let cut = slice(&v, 0, 7);
        assert(cut@ =~= v@.take(7));
        string_of(&cut)
    } else {
        string_of(&copy_chars(&v))
    }
}

} // verus!

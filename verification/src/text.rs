//! Character-level text primitives shared by every parser in the crate. Strings are handled
//! as sequences of `char`; each primitive states its result over `Seq<char>`.

use vstd::prelude::*;

verus! {

// ─────────────────────────────────────────────────────────────────────────────
// Conversions between `str`/`String` and character vectors
// ─────────────────────────────────────────────────────────────────────────────

/// Copy the characters of a string slice into a vector.
pub fn chars_of(s: &str) -> (out: Vec<char>)
    ensures
        out@ == s@,
{
    let mut out: Vec<char> = Vec::new();
    for c in it: s.chars()
        invariant
            out@ == it.seq().take(it.index() as int),
            it.seq() == s@,
    {
        out.push(c);
    }
    out
}

/// `String::push`: appends one character at the end of the string.
#[verifier::external_body]
fn push_char(s: &mut String, c: char)
    ensures
        final(s)@ == old(s)@.push(c),
{
    s.push(c);
}

/// Build an owned string from a character vector.
pub fn string_of(v: &Vec<char>) -> (out: String)
    ensures
        out@ == v@,
{
    let mut out = String::new();
    let mut i: usize = 0;
    while i < v.len()
        invariant
            i <= v.len(),
            out@ == v@.take(i as int),
        decreases v.len() - i,
    {
        push_char(&mut out, v[i]);
        i = i + 1;
        assert(v@.take(i as int) =~= v@.take((i - 1) as int).push(v@[i - 1]));
    }
    assert(v@.take(v.len() as int) =~= v@);
    out
}

/// A vector holding the characters of a string literal or slice.
pub fn chars_of_string(s: &String) -> (out: Vec<char>)
    ensures
        out@ == s@,
{
    chars_of(s.as_str())
}

// ─────────────────────────────────────────────────────────────────────────────
// Case mapping (Unicode; named, not restated)
// ─────────────────────────────────────────────────────────────────────────────

/// What `str::to_lowercase` returns for a string with these characters.
pub uninterp spec fn lowercase(s: Seq<char>) -> Seq<char>;

/// What `char::to_uppercase` yields for one character.
pub uninterp spec fn char_uppercase(c: char) -> Seq<char>;

/// ASCII lowercasing of one character: `A`..=`Z` to `a`..=`z`, anything else unchanged.
pub open spec fn ascii_lower(c: char) -> char {
    if 'A' <= c && c <= 'Z' {
        ((c as u32) + 32) as char
    } else {
        c
    }
}

/// Whether every character is ASCII.
pub open spec fn all_ascii(s: Seq<char>) -> bool {
    forall|i: int| 0 <= i < s.len() ==> '\u{80}' > #[trigger] s[i]
}

/// What `str::to_lowercase` returns: for ASCII text, each letter `A`..=`Z` lowered and every
/// other character kept (Unicode's mapping of the ASCII range); for other text, the result
/// named `lowercase`.
pub open spec fn lowercased(s: Seq<char>) -> Seq<char> {
    if all_ascii(s) {
        s.map_values(|c: char| ascii_lower(c))
    } else {
        lowercase(s)
    }
}

/// `str::to_lowercase` on the string made of `s`. For ASCII text the result is stated
/// character by character; otherwise it is named `lowercase(s@)`, Unicode's full lowercase
/// mapping, which this contract does not restate.
#[verifier::external_body]
pub(crate) fn to_lower(s: &Vec<char>) -> (out: Vec<char>)
    ensures
        all_ascii(s@) ==> out@ == s@.map_values(|c: char| ascii_lower(c)),
        !all_ascii(s@) ==> out@ == lowercase(s@),
{
    s.iter().collect::<String>().to_lowercase().chars().collect()
}

/// ASCII uppercasing of one character: `a`..=`z` to `A`..=`Z`, anything else unchanged.
pub open spec fn ascii_upper(c: char) -> char {
    if 'a' <= c && c <= 'z' {
        ((c as u32) - 32) as char
    } else {
        c
    }
}

/// What `char::to_uppercase` yields: for an ASCII character, the one character it becomes
/// (`a`..=`z` capitalised, any other kept); for another character, the result named
/// `char_uppercase`.
pub open spec fn uppercased(c: char) -> Seq<char> {
    if '\u{80}' > c {
        seq![ascii_upper(c)]
    } else {
        char_uppercase(c)
    }
}

/// `char::to_uppercase`, collected. For an ASCII character the result is stated (Unicode maps
/// `a`..=`z` to `A`..=`Z` and keeps every other ASCII character); otherwise it is named
/// `char_uppercase(c)`, which this contract does not restate.
#[verifier::external_body]
pub(crate) fn char_to_upper(c: char) -> (out: Vec<char>)
    ensures
        '\u{80}' > c ==> out@ == seq![ascii_upper(c)],
        !('\u{80}' > c) ==> out@ == char_uppercase(c),
{
    c.to_uppercase().collect()
}

// ─────────────────────────────────────────────────────────────────────────────
// Whitespace and trimming
// ─────────────────────────────────────────────────────────────────────────────

/// Unicode `White_Space`, the set `char::is_whitespace` tests.
pub open spec fn is_ws(c: char) -> bool {
    ||| ('\u{9}' <= c && c <= '\u{D}')
    ||| c == ' '
    ||| c == '\u{85}'
    ||| c == '\u{A0}'
    ||| c == '\u{1680}'
    ||| ('\u{2000}' <= c && c <= '\u{200A}')
    ||| c == '\u{2028}'
    ||| c == '\u{2029}'
    ||| c == '\u{202F}'
    ||| c == '\u{205F}'
    ||| c == '\u{3000}'
}

pub fn is_whitespace(c: char) -> (b: bool)
    ensures
        b == is_ws(c),
{
    ('\u{9}' <= c && c <= '\u{D}') || c == ' ' || c == '\u{85}' || c == '\u{A0}' || c
        == '\u{1680}' || ('\u{2000}' <= c && c <= '\u{200A}') || c == '\u{2028}' || c
        == '\u{2029}' || c == '\u{202F}' || c == '\u{205F}' || c == '\u{3000}'
}

pub open spec fn trim_start(s: Seq<char>) -> Seq<char>
    decreases s.len(),
{
    if s.len() > 0 && is_ws(s[0]) {
        trim_start(s.drop_first())
    } else {
        s
    }
}

pub open spec fn trim_end(s: Seq<char>) -> Seq<char>
    decreases s.len(),
{
    if s.len() > 0 && is_ws(s.last()) {
        trim_end(s.drop_last())
    } else {
        s
    }
}

/// `str::trim`: leading and trailing whitespace removed.
pub open spec fn trim(s: Seq<char>) -> Seq<char> {
    trim_end(trim_start(s))
}

/// The characters `s[from..to]`.
pub fn slice(s: &Vec<char>, from: usize, to: usize) -> (out: Vec<char>)
    requires
        from <= to <= s.len(),
    ensures
        out@ == s@.subrange(from as int, to as int),
{
    let mut out: Vec<char> = Vec::new();
    let mut i = from;
    while i < to
        invariant
            from <= i <= to <= s.len(),
            out@ == s@.subrange(from as int, i as int),
        decreases to - i,
    {
        out.push(s[i]);
        i = i + 1;
        assert(s@.subrange(from as int, i as int) =~= s@.subrange(from as int, (i - 1) as int).push(
            s@[i - 1],
        ));
    }
    out
}

/// Index of the first non-whitespace character at or after `from` (or `s.len()`).
fn skip_ws(s: &Vec<char>, from: usize) -> (i: usize)
    requires
        from <= s.len(),
    ensures
        from <= i <= s.len(),
        trim_start(s@.subrange(from as int, s.len() as int)) == s@.subrange(
            i as int,
            s.len() as int,
        ),
        i < s.len() ==> !is_ws(s@[i as int]),
{
    let mut i = from;
    while i < s.len() && is_whitespace(s[i])
        invariant
            from <= i <= s.len(),
            trim_start(s@.subrange(from as int, s.len() as int)) == trim_start(
                s@.subrange(i as int, s.len() as int),
            ),
        decreases s.len() - i,
    {
        assert(s@.subrange(i as int, s.len() as int).drop_first() =~= s@.subrange(
            i + 1,
            s.len() as int,
        ));
        i = i + 1;
    }
    i
}

/// End of `s[from..to]` once trailing whitespace is dropped.
fn back_ws(s: &Vec<char>, from: usize, to: usize) -> (j: usize)
    requires
        from <= to <= s.len(),
    ensures
        from <= j <= to,
        trim_end(s@.subrange(from as int, to as int)) == s@.subrange(from as int, j as int),
{
    let mut j = to;
    while j > from && is_whitespace(s[j - 1])
        invariant
            from <= j <= to <= s.len(),
            trim_end(s@.subrange(from as int, to as int)) == trim_end(
                s@.subrange(from as int, j as int),
            ),
        decreases j,
    {
        assert(s@.subrange(from as int, j as int).drop_last() =~= s@.subrange(
            from as int,
            j - 1,
        ));
        j = j - 1;
    }
    j
}

/// `str::trim`.
pub fn trimmed(s: &Vec<char>) -> (out: Vec<char>)
    ensures
        out@ == trim(s@),
{
    let i = skip_ws(s, 0);
    assert(s@.subrange(0, s.len() as int) =~= s@);
    let j = back_ws(s, i, s.len());
    slice(s, i, j)
}

/// `str::trim_start`.
pub fn trimmed_start(s: &Vec<char>) -> (out: Vec<char>)
    ensures
        out@ == trim_start(s@),
{
    let i = skip_ws(s, 0);
    assert(s@.subrange(0, s.len() as int) =~= s@);
    slice(s, i, s.len())
}

/// `str::trim_end`.
pub fn trimmed_end(s: &Vec<char>) -> (out: Vec<char>)
    ensures
        out@ == trim_end(s@),
{
    let j = back_ws(s, 0, s.len());
    assert(s@.subrange(0, s.len() as int) =~= s@);
    slice(s, 0, j)
}

pub proof fn lemma_trim_start_suffix(s: Seq<char>)
    ensures
        exists|k: int|
            0 <= k <= s.len() && trim_start(s) == s.subrange(k, s.len() as int) && (forall|m: int|
                0 <= m < k ==> is_ws(#[trigger] s[m])),
        trim_start(s).len() > 0 ==> !is_ws(trim_start(s)[0]),
    decreases s.len(),
{
    if s.len() > 0 && is_ws(s[0]) {
        lemma_trim_start_suffix(s.drop_first());
        let k = choose|k: int|
            0 <= k <= s.drop_first().len() && trim_start(s.drop_first()) == s.drop_first().subrange(
                k,
                s.drop_first().len() as int,
            ) && (forall|m: int| 0 <= m < k ==> is_ws(#[trigger] s.drop_first()[m]));
        assert(s.drop_first().subrange(k, s.drop_first().len() as int) =~= s.subrange(
            k + 1,
            s.len() as int,
        ));
        assert forall|m: int| 0 <= m < k + 1 implies is_ws(#[trigger] s[m]) by {
            if m > 0 {
                assert(s[m] == s.drop_first()[m - 1]);
            }
        }
    } else {
        assert(s.subrange(0, s.len() as int) =~= s);
    }
}

pub proof fn lemma_trim_end_prefix(s: Seq<char>)
    ensures
        exists|k: int|
            0 <= k <= s.len() && trim_end(s) == s.subrange(0, k) && (forall|m: int|
                k <= m < s.len() ==> is_ws(#[trigger] s[m])),
        trim_end(s).len() > 0 ==> !is_ws(trim_end(s).last()),
    decreases s.len(),
{
    if s.len() > 0 && is_ws(s.last()) {
        lemma_trim_end_prefix(s.drop_last());
        let k = choose|k: int|
            0 <= k <= s.drop_last().len() && trim_end(s.drop_last()) == s.drop_last().subrange(0, k)
                && (forall|m: int| k <= m < s.drop_last().len() ==> is_ws(#[trigger] s.drop_last()[m]));
        assert(s.drop_last().subrange(0, k) =~= s.subrange(0, k));
        assert forall|m: int| k <= m < s.len() implies is_ws(#[trigger] s[m]) by {
            if m < s.len() - 1 {
                assert(s[m] == s.drop_last()[m]);
            }
        }
    } else {
        assert(s.subrange(0, s.len() as int) =~= s);
    }
}

/// Trimming is idempotent.
pub proof fn lemma_trim_idempotent(s: Seq<char>)
    ensures
        trim(trim(s)) == trim(s),
{
    lemma_trim_start_suffix(s);
    let t = trim_start(s);
    lemma_trim_end_prefix(t);
    let u = trim_end(t);
    // u is a prefix of t, so it starts with a non-whitespace character (if non-empty)
    if u.len() > 0 {
        let k = choose|k: int|
            0 <= k <= t.len() && trim_end(t) == t.subrange(0, k) && (forall|m: int|
                k <= m < t.len() ==> is_ws(#[trigger] t[m]));
        assert(u[0] == t[0]);
        assert(!is_ws(u[0]));
        assert(trim_start(u) == u);
        assert(!is_ws(u.last()));
        assert(trim_end(u) == u);
    } else {
        assert(trim_start(u) == u);
        assert(trim_end(u) == u);
    }
}

// ─────────────────────────────────────────────────────────────────────────────
// Splitting and joining
// ─────────────────────────────────────────────────────────────────────────────

/// The views of a vector of character vectors.
pub open spec fn seqs(v: Seq<Vec<char>>) -> Seq<Seq<char>> {
    v.map_values(|x: Vec<char>| x@)
}

/// `str::split(sep)` for a single-character separator: never empty.
pub open spec fn split_char(s: Seq<char>, sep: char) -> Seq<Seq<char>>
    decreases s.len(),
{
    if s.len() == 0 {
        seq![Seq::<char>::empty()]
    } else {
        let p = split_char(s.drop_last(), sep);
        if s.last() == sep {
            p.push(Seq::<char>::empty())
        } else {
            p.update(p.len() - 1, p.last().push(s.last()))
        }
    }
}

pub proof fn lemma_split_char_nonempty(s: Seq<char>, sep: char)
    ensures
        split_char(s, sep).len() >= 1,
    decreases s.len(),
{
    if s.len() > 0 {
        lemma_split_char_nonempty(s.drop_last(), sep);
    }
}

/// A line without its `\r` when it ended in `\r\n`.
pub open spec fn strip_cr(l: Seq<char>) -> Seq<char> {
    if l.len() > 0 && l.last() == '\r' {
        l.drop_last()
    } else {
        l
    }
}

/// `str::lines`: split at `\n`, a final empty piece dropped, and a `\r` removed where it
/// stands right before a `\n` (a last line with no `\n` after it keeps its `\r`).
pub open spec fn lines(s: Seq<char>) -> Seq<Seq<char>> {
    let p = split_char(s, '\n');
    let ended = p.drop_last().map_values(|l: Seq<char>| strip_cr(l));
    if p.last().len() == 0 {
        ended
    } else {
        ended.push(p.last())
    }
}

/// `str::split(sep)` with a single-character separator.
pub fn split_on(s: &Vec<char>, sep: char) -> (out: Vec<Vec<char>>)
    ensures
        seqs(out@) == split_char(s@, sep),
{
    let mut parts: Vec<Vec<char>> = Vec::new();
    let mut cur: Vec<char> = Vec::new();
    let mut i: usize = 0;
    while i < s.len()
        invariant
            i <= s.len(),
            seqs(parts@).push(cur@) == split_char(s@.take(i as int), sep),
        decreases s.len() - i,
    {
        let c = s[i];
        let ghost before = s@.take(i as int);
        assert(s@.take(i + 1).drop_last() =~= before);
        proof {
            lemma_split_char_nonempty(before, sep);
        }
        if c == sep {
            parts.push(cur);
            cur = Vec::new();
            assert(seqs(parts@).push(cur@) =~= split_char(before, sep).push(Seq::<char>::empty()));
        } else {
            let ghost old_cur = cur@;
            cur.push(c);
            assert(seqs(parts@).push(cur@) =~= split_char(before, sep).update(
                split_char(before, sep).len() - 1,
                old_cur.push(c),
            ));
        }
        i = i + 1;
    }
    assert(s@.take(s.len() as int) =~= s@);
    parts.push(cur);
    assert(seqs(parts@) =~= seqs(parts@).drop_last().push(cur@));
    parts
}

/// `str::lines`.
pub fn lines_of(s: &Vec<char>) -> (out: Vec<Vec<char>>)
    ensures
        seqs(out@) == lines(s@),
{
    let parts = split_on(s, '\n');
    proof {
        lemma_split_char_nonempty(s@, '\n');
    }
    let n = parts.len();
    let ghost p = seqs(parts@);
    let mut out: Vec<Vec<char>> = Vec::new();
    let mut i: usize = 0;
    while i < n - 1
        invariant
            n == parts@.len(),
            n >= 1,
            p == seqs(parts@),
            i <= n - 1,
            seqs(out@) == p.take(i as int).map_values(|l: Seq<char>| strip_cr(l)),
        decreases n - 1 - i,
    {
        let line = &parts[i];
        let k = line.len();
        let stripped = if k > 0 && line[k - 1] == '\r' {
            slice(line, 0, k - 1)
        } else {
            slice(line, 0, k)
        };
        assert(line@.subrange(0, k as int) =~= line@);
        assert(k > 0 ==> line@.subrange(0, k - 1) =~= line@.drop_last());
        assert(stripped@ == strip_cr(line@));
        assert(p[i as int] == line@);
        let ghost prev = seqs(out@);
        out.push(stripped);
        assert(seqs(out@) =~= prev.push(strip_cr(p[i as int])));
        i = i + 1;
        assert(p.take(i as int) =~= p.take(i - 1).push(p[i - 1]));
        assert(seqs(out@) =~= p.take(i as int).map_values(|l: Seq<char>| strip_cr(l)));
    }
    assert(p.take((n - 1) as int) =~= p.drop_last());
    assert(p.last() == parts@[n - 1]@);
    if parts[n - 1].len() > 0 {
        let last = slice(&parts[n - 1], 0, parts[n - 1].len());
        assert(last@ =~= p.last());
        let ghost prev = seqs(out@);
        out.push(last);
        assert(seqs(out@) =~= prev.push(p.last()));
    }
    out
}

/// `join(sep)`.
pub open spec fn join(parts: Seq<Seq<char>>, sep: Seq<char>) -> Seq<char>
    decreases parts.len(),
{
    if parts.len() == 0 {
        Seq::<char>::empty()
    } else if parts.len() == 1 {
        parts[0]
    } else {
        join(parts.drop_last(), sep) + sep + parts.last()
    }
}

/// `[T]::join(sep)` over character vectors.
pub fn join_with(parts: &Vec<Vec<char>>, sep: &Vec<char>) -> (out: Vec<char>)
    ensures
        out@ == join(seqs(parts@), sep@),
{
    let mut out: Vec<char> = Vec::new();
    let mut i: usize = 0;
    while i < parts.len()
        invariant
            i <= parts.len(),
            out@ == join(seqs(parts@).take(i as int), sep@),
        decreases parts.len() - i,
    {
        if i > 0 {
            append(&mut out, sep);
        }
        append(&mut out, &parts[i]);
        i = i + 1;
        assert(seqs(parts@).take(i as int).drop_last() =~= seqs(parts@).take(i - 1));
        assert(i == 1 ==> seqs(parts@).take(i as int) =~= seq![parts@[0]@]);
    }
    assert(seqs(parts@).take(parts.len() as int) =~= seqs(parts@));
    out
}

/// Append all of `b` to `a`.
pub fn append(a: &mut Vec<char>, b: &Vec<char>)
    ensures
        final(a)@ == old(a)@ + b@,
{
    let mut i: usize = 0;
    while i < b.len()
        invariant
            i <= b.len(),
            a@ == old(a)@ + b@.take(i as int),
        decreases b.len() - i,
    {
        a.push(b[i]);
        i = i + 1;
        assert(old(a)@ + b@.take(i as int) =~= old(a)@ + b@.take(i - 1) + seq![b@[i - 1]]);
    }
    assert(b@.take(b.len() as int) =~= b@);
}

// ─────────────────────────────────────────────────────────────────────────────
// Prefixes and searching
// ─────────────────────────────────────────────────────────────────────────────

pub open spec fn starts_with(s: Seq<char>, p: Seq<char>) -> bool {
    p.len() <= s.len() && s.subrange(0, p.len() as int) == p
}

pub open spec fn ends_with(s: Seq<char>, p: Seq<char>) -> bool {
    p.len() <= s.len() && s.subrange(s.len() - p.len(), s.len() as int) == p
}

/// `p` occurs in `s` at position `i`.
pub open spec fn matches_at(s: Seq<char>, p: Seq<char>, i: int) -> bool {
    0 <= i && i + p.len() <= s.len() && s.subrange(i, i + p.len()) == p
}

pub open spec fn find_from(s: Seq<char>, p: Seq<char>, i: int) -> Option<int>
    decreases s.len() - i,
{
    if i < 0 || i + p.len() > s.len() {
        None
    } else if matches_at(s, p, i) {
        Some(i)
    } else if i >= s.len() {
        None
    } else {
        find_from(s, p, i + 1)
    }
}

/// `str::find`: the first position at which `p` occurs.
pub open spec fn find(s: Seq<char>, p: Seq<char>) -> Option<int> {
    find_from(s, p, 0)
}

/// `str::contains`.
pub open spec fn contains(s: Seq<char>, p: Seq<char>) -> bool {
    find(s, p) is Some
}

/// Whether `p` occurs at position `i` of `s`.
pub fn is_at(s: &Vec<char>, p: &Vec<char>, i: usize) -> (b: bool)
    ensures
        b == matches_at(s@, p@, i as int),
{
    if i > s.len() || p.len() > s.len() - i {
        return false;
    }
    let mut k: usize = 0;
    while k < p.len()
        invariant
            i + p.len() <= s.len(),
            k <= p.len(),
            s@.subrange(i as int, i + k) == p@.take(k as int),
        decreases p.len() - k,
    {
        if s[i + k] != p[k] {
            assert(s@.subrange(i as int, i + p.len())[k as int] != p@[k as int]);
            return false;
        }
        k = k + 1;
        assert(s@.subrange(i as int, i + k) =~= p@.take(k as int));
    }
    assert(p@.take(p.len() as int) =~= p@);
    true
}

pub fn has_prefix(s: &Vec<char>, p: &Vec<char>) -> (b: bool)
    ensures
        b == starts_with(s@, p@),
{
    is_at(s, p, 0)
}

pub fn has_suffix(s: &Vec<char>, p: &Vec<char>) -> (b: bool)
    ensures
        b == ends_with(s@, p@),
{
    if p.len() > s.len() {
        false
    } else {
        is_at(s, p, s.len() - p.len())
    }
}

/// `str::find` from position `from`.
pub fn find_at(s: &Vec<char>, p: &Vec<char>, from: usize) -> (r: Option<usize>)
    requires
        from <= s.len(),
    ensures
        r matches Some(i) ==> find_from(s@, p@, from as int) == Some(i as int),
        r is None ==> find_from(s@, p@, from as int) is None,
{
    let mut i = from;
    while i <= s.len()
        invariant
            from <= i,
            i <= s.len() + 1,
            find_from(s@, p@, from as int) == find_from(s@, p@, i as int),
        decreases s.len() + 1 - i,
    {
        if p.len() > s.len() - i {
            return None;
        }
        if is_at(s, p, i) {
            return Some(i);
        }
        if i == s.len() {
            return None;
        }
        i = i + 1;
    }
    None
}

pub fn find_in(s: &Vec<char>, p: &Vec<char>) -> (r: Option<usize>)
    ensures
        r matches Some(i) ==> find(s@, p@) == Some(i as int),
        r is None ==> find(s@, p@) is None,
{
    find_at(s, p, 0)
}

pub proof fn lemma_find_from_found(s: Seq<char>, p: Seq<char>, i: int)
    requires
        0 <= i,
    ensures
        find_from(s, p, i) matches Some(k) ==> i <= k && matches_at(s, p, k) && (forall|m: int|
            i <= m < k ==> !#[trigger] matches_at(s, p, m)),
        find_from(s, p, i) is None ==> forall|m: int| i <= m ==> !#[trigger] matches_at(s, p, m),
    decreases s.len() - i,
{
    if i < 0 || i + p.len() > s.len() {
    } else if matches_at(s, p, i) {
    } else if i >= s.len() {
    } else {
        lemma_find_from_found(s, p, i + 1);
    }
}

/// Equality of two character vectors.
pub fn same(a: &Vec<char>, b: &Vec<char>) -> (r: bool)
    ensures
        r == (a@ == b@),
{
    if a.len() != b.len() {
        return false;
    }
    let r = is_at(a, b, 0);
    proof {
        if r {
            assert(a@.subrange(0, b.len() as int) =~= a@);
        } else {
            assert(a@.subrange(0, b.len() as int) =~= a@);
        }
    }
    r
}

/// Whether two strings hold the same characters.
pub fn str_eq(a: &str, b: &str) -> (r: bool)
    ensures
        r == (a@ == b@),
{
    same(&chars_of(a), &chars_of(b))
}

/// The ASCII-lowercased code of a character: `A`..=`Z` fold onto `a`..=`z`, everything else
/// stands for itself.
pub open spec fn ascii_fold(c: char) -> u32 {
    if 'A' <= c && c <= 'Z' {
        (c as u32 + 32) as u32
    } else {
        c as u32
    }
}

/// `str::eq_ignore_ascii_case`: same length, equal after ASCII lowercasing.
pub open spec fn eq_ascii_nocase(a: Seq<char>, b: Seq<char>) -> bool {
    a.len() == b.len() && forall|i: int| 0 <= i < a.len() ==> ascii_fold(#[trigger] a[i]) == ascii_fold(b[i])
}

fn fold_code(c: char) -> (r: u32)
    ensures
        r == ascii_fold(c),
{
    if 'A' <= c && c <= 'Z' {
        (c as u32) + 32
    } else {
        c as u32
    }
}

/// Equality up to ASCII case.
pub fn same_ascii_nocase(a: &Vec<char>, b: &Vec<char>) -> (r: bool)
    ensures
        r == eq_ascii_nocase(a@, b@),
{
    if a.len() != b.len() {
        return false;
    }
    let mut i: usize = 0;
    while i < a.len()
        invariant
            a@.len() == b@.len(),
            i <= a@.len(),
            forall|k: int| 0 <= k < i ==> ascii_fold(#[trigger] a@[k]) == ascii_fold(b@[k]),
        decreases a.len() - i,
    {
        if fold_code(a[i]) != fold_code(b[i]) {
            return false;
        }
        i = i + 1;
    }
    true
}

/// Whether `p` occurs anywhere in `s`.
pub fn contains_in(s: &Vec<char>, p: &Vec<char>) -> (b: bool)
    ensures
        b == contains(s@, p@),
{
    find_in(s, p).is_some()
}

/// A word with its first character uppercased (the empty word stays empty).
pub open spec fn capitalize(w: Seq<char>) -> Seq<char> {
    if w.len() == 0 {
        w
    } else {
        uppercased(w[0]) + w.skip(1)
    }
}

pub fn capitalized(w: &Vec<char>) -> (out: Vec<char>)
    ensures
        out@ == capitalize(w@),
{
    if w.len() == 0 {
        return Vec::new();
    }
    let mut out = char_to_upper(w[0]);
    let rest = slice(w, 1, w.len());
    assert(rest@ =~= w@.skip(1));
    append(&mut out, &rest);
    out
}

/// A string literal's characters as a vector.
pub fn lit(s: &str) -> (out: Vec<char>)
    ensures
        out@ == s@,
{
    chars_of(s)
}

// ─────────────────────────────────────────────────────────────────────────────
// Whitespace-separated words
// ─────────────────────────────────────────────────────────────────────────────

/// `str::split(char::is_whitespace)`: never empty.
pub open spec fn split_ws(s: Seq<char>) -> Seq<Seq<char>>
    decreases s.len(),
{
    if s.len() == 0 {
        seq![Seq::<char>::empty()]
    } else {
        let p = split_ws(s.drop_last());
        if is_ws(s.last()) {
            p.push(Seq::<char>::empty())
        } else {
            p.update(p.len() - 1, p.last().push(s.last()))
        }
    }
}

pub proof fn lemma_split_ws_nonempty(s: Seq<char>)
    ensures
        split_ws(s).len() >= 1,
    decreases s.len(),
{
    if s.len() > 0 {
        lemma_split_ws_nonempty(s.drop_last());
    }
}

/// The non-empty pieces, in order.
pub open spec fn drop_empty(p: Seq<Seq<char>>) -> Seq<Seq<char>>
    decreases p.len(),
{
    if p.len() == 0 {
        p
    } else {
        let r = drop_empty(p.drop_last());
        if p.last().len() > 0 {
            r.push(p.last())
        } else {
            r
        }
    }
}

/// `str::split_whitespace`.
pub open spec fn words(s: Seq<char>) -> Seq<Seq<char>> {
    drop_empty(split_ws(s))
}

pub proof fn lemma_drop_empty_push(p: Seq<Seq<char>>, x: Seq<char>)
    ensures
        drop_empty(p.push(x)) == if x.len() > 0 {
            drop_empty(p).push(x)
        } else {
            drop_empty(p)
        },
{
    assert(p.push(x).drop_last() =~= p);
}

/// `str::split_whitespace`, collected.
pub fn words_of(s: &Vec<char>) -> (out: Vec<Vec<char>>)
    ensures
        seqs(out@) == words(s@),
{
    let mut ws: Vec<Vec<char>> = Vec::new();
    let mut cur: Vec<char> = Vec::new();
    let ghost mut done: Seq<Seq<char>> = Seq::empty();
    let mut i: usize = 0;
    while i < s.len()
        invariant
            i <= s.len(),
            split_ws(s@.take(i as int)) == done.push(cur@),
            drop_empty(done) == seqs(ws@),
        decreases s.len() - i,
    {
        let c = s[i];
        let ghost before = s@.take(i as int);
        assert(s@.take(i + 1).drop_last() =~= before);
        proof {
            lemma_split_ws_nonempty(before);
        }
        if is_whitespace(c) {
            proof {
                lemma_drop_empty_push(done, cur@);
                done = done.push(cur@);
            }
            if cur.len() > 0 {
                ws.push(cur);
                assert(seqs(ws@) =~= drop_empty(done));
            }
            cur = Vec::new();
            assert(split_ws(s@.take(i + 1)) =~= done.push(cur@));
        } else {
            let ghost old_cur = cur@;
            cur.push(c);
            assert(split_ws(s@.take(i + 1)) =~= done.push(cur@));
        }
        i = i + 1;
    }
    assert(s@.take(s.len() as int) =~= s@);
    proof {
        lemma_drop_empty_push(done, cur@);
    }
    if cur.len() > 0 {
        ws.push(cur);
    }
    assert(seqs(ws@) =~= words(s@));
    ws
}

/// Total number of characters across the pieces.
pub open spec fn sum_lens(p: Seq<Seq<char>>) -> nat
    decreases p.len(),
{
    if p.len() == 0 {
        0
    } else {
        sum_lens(p.drop_last()) + p.last().len()
    }
}

pub proof fn lemma_sum_lens_take(p: Seq<Seq<char>>, j: int)
    requires
        0 <= j <= p.len(),
    ensures
        sum_lens(p.take(j)) <= sum_lens(p),
    decreases p.len() - j,
{
    if j < p.len() {
        lemma_sum_lens_take(p, j + 1);
        assert(p.take(j + 1).drop_last() =~= p.take(j));
    } else {
        assert(p.take(j) =~= p);
    }
}

proof fn lemma_split_ws_total(s: Seq<char>)
    ensures
        sum_lens(split_ws(s)) <= s.len(),
    decreases s.len(),
{
    if s.len() > 0 {
        lemma_split_ws_total(s.drop_last());
        lemma_split_ws_nonempty(s.drop_last());
        let p = split_ws(s.drop_last());
        if is_ws(s.last()) {
            assert(p.push(Seq::<char>::empty()).drop_last() =~= p);
            assert(sum_lens(split_ws(s)) == sum_lens(p));
        } else {
            let q = p.update(p.len() - 1, p.last().push(s.last()));
            assert(q.drop_last() =~= p.drop_last());
            assert(sum_lens(q) == sum_lens(p.drop_last()) + p.last().len() + 1);
            assert(sum_lens(split_ws(s)) == sum_lens(q));
        }
    } else {
        let e = seq![Seq::<char>::empty()];
        assert(e.drop_last() =~= Seq::<Seq<char>>::empty());
        assert(e.last().len() == 0);
        assert(sum_lens(Seq::<Seq<char>>::empty()) == 0);
        assert(sum_lens(e) == 0);
    }
}

proof fn lemma_drop_empty_total(p: Seq<Seq<char>>)
    ensures
        sum_lens(drop_empty(p)) == sum_lens(p),
    decreases p.len(),
{
    if p.len() > 0 {
        lemma_drop_empty_total(p.drop_last());
        let r = drop_empty(p.drop_last());
        assert(r.push(p.last()).drop_last() =~= r);
    }
}

/// The words of a string hold no more characters than the string.
pub proof fn lemma_words_total(s: Seq<char>)
    ensures
        sum_lens(words(s)) <= s.len(),
{
    lemma_split_ws_total(s);
    lemma_drop_empty_total(split_ws(s));
}

/// A non-empty string has at least one line.
pub proof fn lemma_lines_nonempty(s: Seq<char>)
    requires
        s.len() > 0,
    ensures
        lines(s).len() > 0,
{
    lemma_split_char_nonempty(s.drop_last(), '\n');
    lemma_split_char_nonempty(s, '\n');
}

/// `str::trim_start_matches(c)` for one character.
pub open spec fn strip_leading(s: Seq<char>, c: char) -> Seq<char>
    decreases s.len(),
{
    if s.len() > 0 && s[0] == c {
        strip_leading(s.drop_first(), c)
    } else {
        s
    }
}

pub fn strip_leading_char(s: &Vec<char>, c: char) -> (out: Vec<char>)
    ensures
        out@ == strip_leading(s@, c),
{
    let mut i: usize = 0;
    assert(s@.subrange(0, s.len() as int) =~= s@);
    while i < s.len() && s[i] == c
        invariant
            i <= s.len(),
            strip_leading(s@, c) == strip_leading(s@.subrange(i as int, s.len() as int), c),
        decreases s.len() - i,
    {
        assert(s@.subrange(i as int, s.len() as int).drop_first() =~= s@.subrange(
            i + 1,
            s.len() as int,
        ));
        i = i + 1;
    }
    slice(s, i, s.len())
}

// ─────────────────────────────────────────────────────────────────────────────
// Decimal numbers
// ─────────────────────────────────────────────────────────────────────────────

pub open spec fn digit_char(d: nat) -> char {
    if d == 0 {
        '0'
    } else if d == 1 {
        '1'
    } else if d == 2 {
        '2'
    } else if d == 3 {
        '3'
    } else if d == 4 {
        '4'
    } else if d == 5 {
        '5'
    } else if d == 6 {
        '6'
    } else if d == 7 {
        '7'
    } else if d == 8 {
        '8'
    } else {
        '9'
    }
}

/// The decimal digits of `n`, as `Display` writes an unsigned integer.
pub open spec fn decimal(n: nat) -> Seq<char>
    decreases n,
{
    if n < 10 {
        seq![digit_char(n)]
    } else {
        decimal(n / 10) + seq![digit_char(n % 10)]
    }
}

fn digit_of(d: usize) -> (c: char)
    requires
        d < 10,
    ensures
        c == digit_char(d as nat),
{
    if d == 0 {
        '0'
    } else if d == 1 {
        '1'
    } else if d == 2 {
        '2'
    } else if d == 3 {
        '3'
    } else if d == 4 {
        '4'
    } else if d == 5 {
        '5'
    } else if d == 6 {
        '6'
    } else if d == 7 {
        '7'
    } else if d == 8 {
        '8'
    } else {
        '9'
    }
}

/// `n.to_string()`.
pub fn decimal_of(n: usize) -> (out: Vec<char>)
    ensures
        out@ == decimal(n as nat),
    decreases n,
{
    if n < 10 {
        let mut out: Vec<char> = Vec::new();
        out.push(digit_of(n));
        assert(out@ =~= seq![digit_char(n as nat)]);
        out
    } else {
        let mut out = decimal_of(n / 10);
        out.push(digit_of(n % 10));
        out
    }
}

/// `n.to_string()` for a 64-bit count.
pub fn decimal_of_u64(n: u64) -> (out: Vec<char>)
    ensures
        out@ == decimal(n as nat),
    decreases n,
{
    if n < 10 {
        let mut out: Vec<char> = Vec::new();
        out.push(digit_of(n as usize));
        assert(out@ =~= seq![digit_char(n as nat)]);
        out
    } else {
        let mut out = decimal_of_u64(n / 10);
        out.push(digit_of((n % 10) as usize));
        out
    }
}


// ─────────────────────────────────────────────────────────────────────────────
// Splitting what was joined
// ─────────────────────────────────────────────────────────────────────────────

/// Whether `sep` occurs nowhere in `s`.
pub open spec fn free_of(s: Seq<char>, sep: char) -> bool {
    forall|k: int| 0 <= k < s.len() ==> s[k] != sep
}

/// A piece with no separator in it splits into itself.
pub proof fn lemma_split_free(t: Seq<char>, sep: char)
    requires
        free_of(t, sep),
    ensures
        split_char(t, sep) == seq![t],
    decreases t.len(),
{
    if t.len() > 0 {
        let d = t.drop_last();
        assert forall|k: int| 0 <= k < d.len() implies d[k] != sep by {
            assert(d[k] == t[k]);
        }
        lemma_split_free(d, sep);
        assert(t[t.len() - 1] != sep);
        assert(d.push(t.last()) =~= t);
        assert(split_char(t, sep) =~= seq![t]);
    } else {
        assert(t =~= Seq::<char>::empty());
    }
}

/// Joining the pieces of a split with the separator gives the text back.
pub proof fn lemma_join_split(s: Seq<char>, sep: char)
    ensures
        join(split_char(s, sep), seq![sep]) == s,
    decreases s.len(),
{
    if s.len() == 0 {
        assert(join(seq![Seq::<char>::empty()], seq![sep]) == Seq::<char>::empty());
        assert(s =~= Seq::<char>::empty());
    } else {
        let d = s.drop_last();
        let p = split_char(d, sep);
        lemma_join_split(d, sep);
        lemma_split_char_nonempty(d, sep);
        if s.last() == sep {
            let q = p.push(Seq::<char>::empty());
            assert(q.drop_last() =~= p);
            assert(join(q, seq![sep]) == join(p, seq![sep]) + seq![sep] + Seq::<char>::empty());
            assert(d + seq![sep] + Seq::<char>::empty() =~= s);
        } else {
            let n = p.len();
            let q = p.update(n - 1, p.last().push(s.last()));
            if n == 1 {
                assert(join(p, seq![sep]) == p[0]);
                assert(join(q, seq![sep]) == q[0]);
                assert(q[0] =~= s);
            } else {
                assert(q.drop_last() =~= p.drop_last());
                assert(join(p, seq![sep]) == join(p.drop_last(), seq![sep]) + seq![sep] + p.last());
                assert(join(q, seq![sep]) == join(q.drop_last(), seq![sep]) + seq![sep] + q.last());
                assert(q.last() == p.last().push(s.last()));
                assert(join(q, seq![sep]) =~= join(p, seq![sep]).push(s.last()));
                assert(d.push(s.last()) =~= s);
            }
        }
    }
}

/// Splitting at one separator splits each side independently.
pub proof fn lemma_split_concat(s: Seq<char>, t: Seq<char>, sep: char)
    ensures
        split_char(s + seq![sep] + t, sep) == split_char(s, sep) + split_char(t, sep),
    decreases t.len(),
{
    let u = s + seq![sep] + t;
    if t.len() == 0 {
        assert(u =~= s.push(sep));
        assert(u.drop_last() =~= s);
        assert(split_char(s, sep).push(Seq::<char>::empty()) =~= split_char(s, sep) + split_char(
            t,
            sep,
        ));
    } else {
        assert(u.drop_last() =~= s + seq![sep] + t.drop_last());
        lemma_split_concat(s, t.drop_last(), sep);
        lemma_split_char_nonempty(t.drop_last(), sep);
        lemma_split_char_nonempty(s, sep);
        let a = split_char(s, sep);
        let b = split_char(t.drop_last(), sep);
        if t.last() == sep {
            assert((a + b).push(Seq::<char>::empty()) =~= a + b.push(Seq::<char>::empty()));
        } else {
            assert((a + b).update((a + b).len() - 1, (a + b).last().push(t.last())) =~= a
                + b.update(b.len() - 1, b.last().push(t.last())));
        }
    }
}

/// Joining separator-free pieces and splitting again gives the pieces back.
pub proof fn lemma_split_join(parts: Seq<Seq<char>>, sep: char)
    requires
        parts.len() >= 1,
        forall|i: int| 0 <= i < parts.len() ==> free_of(#[trigger] parts[i], sep),
    ensures
        split_char(join(parts, seq![sep]), sep) == parts,
    decreases parts.len(),
{
    if parts.len() == 1 {
        lemma_split_free(parts[0], sep);
        assert(seq![parts[0]] =~= parts);
    } else {
        let dl = parts.drop_last();
        assert forall|i: int| 0 <= i < dl.len() implies free_of(#[trigger] dl[i], sep) by {
            assert(dl[i] == parts[i]);
        }
        lemma_split_join(dl, sep);
        lemma_split_concat(join(dl, seq![sep]), parts.last(), sep);
        lemma_split_free(parts.last(), sep);
        assert(dl + seq![parts.last()] =~= parts);
    }
}

/// `drop_empty` distributes over concatenation.
pub proof fn lemma_drop_empty_concat(a: Seq<Seq<char>>, b: Seq<Seq<char>>)
    ensures
        drop_empty(a + b) == drop_empty(a) + drop_empty(b),
    decreases b.len(),
{
    if b.len() == 0 {
        assert(a + b =~= a);
        assert(drop_empty(a) + drop_empty(b) =~= drop_empty(a));
    } else {
        assert((a + b).drop_last() =~= a + b.drop_last());
        lemma_drop_empty_concat(a, b.drop_last());
        if b.last().len() > 0 {
            assert((drop_empty(a) + drop_empty(b.drop_last())).push(b.last()) =~= drop_empty(a)
                + drop_empty(b.drop_last()).push(b.last()));
        }
    }
}

/// A single piece survives `drop_empty` exactly when it is non-empty.
pub proof fn lemma_drop_empty_single(w: Seq<char>)
    ensures
        drop_empty(seq![w]) == if w.len() > 0 {
            seq![w]
        } else {
            Seq::<Seq<char>>::empty()
        },
{
    assert(seq![w].drop_last() =~= Seq::<Seq<char>>::empty());
    assert(drop_empty(Seq::<Seq<char>>::empty()) =~= Seq::<Seq<char>>::empty());
    assert(Seq::<Seq<char>>::empty().push(w) =~= seq![w]);
}

/// Pieces that are all non-empty survive `drop_empty` unchanged.
pub proof fn lemma_drop_empty_keeps(p: Seq<Seq<char>>)
    requires
        forall|i: int| 0 <= i < p.len() ==> (#[trigger] p[i]).len() > 0,
    ensures
        drop_empty(p) == p,
    decreases p.len(),
{
    if p.len() > 0 {
        let dl = p.drop_last();
        assert forall|i: int| 0 <= i < dl.len() implies (#[trigger] dl[i]).len() > 0 by {
            assert(dl[i] == p[i]);
        }
        lemma_drop_empty_keeps(dl);
        assert(dl.push(p.last()) =~= p);
    }
}

/// Every piece `drop_empty` keeps is non-empty.
pub proof fn lemma_drop_empty_nonempty(p: Seq<Seq<char>>)
    ensures
        forall|i: int| 0 <= i < drop_empty(p).len() ==> (#[trigger] drop_empty(p)[i]).len() > 0,
    decreases p.len(),
{
    if p.len() > 0 {
        let r = drop_empty(p.drop_last());
        lemma_drop_empty_nonempty(p.drop_last());
        if p.last().len() > 0 {
            assert forall|i: int| 0 <= i < r.push(p.last()).len() implies (#[trigger] r.push(
                p.last(),
            )[i]).len() > 0 by {
                if i < r.len() {
                    assert(r.push(p.last())[i] == r[i]);
                }
            }
        }
    }
}

/// The non-empty pieces of a vector of pieces.
pub fn drop_empty_of(p: &Vec<Vec<char>>) -> (out: Vec<Vec<char>>)
    ensures
        seqs(out@) == drop_empty(seqs(p@)),
{
    let mut out: Vec<Vec<char>> = Vec::new();
    let mut i: usize = 0;
    while i < p.len()
        invariant
            i <= p.len(),
            seqs(out@) == drop_empty(seqs(p@).take(i as int)),
        decreases p.len() - i,
    {
        let ghost before = seqs(p@).take(i as int);
        assert(seqs(p@).take(i + 1) =~= before.push(p@[i as int]@));
        proof {
            lemma_drop_empty_push(before, p@[i as int]@);
        }
        if p[i].len() > 0 {
            out.push(copy_chars(&p[i]));
            assert(seqs(out@) =~= drop_empty(before).push(p@[i as int]@));
        }
        i = i + 1;
    }
    assert(seqs(p@).take(p.len() as int) =~= seqs(p@));
    out
}

/// A copy of a character vector.
pub fn copy_chars(v: &Vec<char>) -> (out: Vec<char>)
    ensures
        out@ == v@,
{
    let mut out: Vec<char> = Vec::new();
    append(&mut out, v);
    out
}

/// The views of a vector of strings.
pub open spec fn string_views(v: Seq<String>) -> Seq<Seq<char>> {
    v.map_values(|x: String| x@)
}

pub proof fn lemma_seqs_push(v: Seq<Vec<char>>, x: Vec<char>)
    ensures
        seqs(v.push(x)) == seqs(v).push(x@),
{
    assert(seqs(v.push(x)) =~= seqs(v).push(x@));
}

pub proof fn lemma_string_views_push(v: Seq<String>, x: String)
    ensures
        string_views(v.push(x)) == string_views(v).push(x@),
{
    assert(string_views(v.push(x)) =~= string_views(v).push(x@));
}

/// Owned strings from character vectors.
pub fn strings_of(v: &Vec<Vec<char>>) -> (out: Vec<String>)
    ensures
        string_views(out@) == seqs(v@),
{
    let mut out: Vec<String> = Vec::new();
    let mut i: usize = 0;
    while i < v.len()
        invariant
            i <= v.len(),
            string_views(out@) == seqs(v@).take(i as int),
        decreases v.len() - i,
    {
        let x = string_of(&v[i]);
        let ghost prev = out@;
        out.push(x);
        proof {
            lemma_string_views_push(prev, x);
        }
        assert(seqs(v@).take(i + 1) =~= seqs(v@).take(i as int).push(v@[i as int]@));
        i = i + 1;
    }
    assert(seqs(v@).take(v.len() as int) =~= seqs(v@));
    out
}

/// Character vectors from strings.
pub fn chars_of_strings(v: &Vec<String>) -> (out: Vec<Vec<char>>)
    ensures
        seqs(out@) == string_views(v@),
{
    let mut out: Vec<Vec<char>> = Vec::new();
    let mut i: usize = 0;
    while i < v.len()
        invariant
            i <= v.len(),
            seqs(out@) == string_views(v@).take(i as int),
        decreases v.len() - i,
    {
        let x = chars_of_string(&v[i]);
        let ghost prev = out@;
        out.push(x);
        proof {
            lemma_seqs_push(prev, x);
        }
        assert(string_views(v@).take(i + 1) =~= string_views(v@).take(i as int).push(v@[i as int]@));
        i = i + 1;
    }
    assert(string_views(v@).take(v.len() as int) =~= string_views(v@));
    out
}

} // verus!

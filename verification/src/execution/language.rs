//! The client's fence-alias vocabulary: telling a runnable fence from a plaintext one, and
//! folding every spelling of a language onto ONE canonical token so a stored preference of
//! `python` still matches a block whose fence says `py` or `python3`.

use vstd::prelude::*;

use crate::execution::blocks::Variant;
use crate::text::{
    all_ascii, ascii_lower, chars_of, chars_of_string, lowercased, same, to_lower, trim, trim_end,
    trim_start, trimmed,
};

verus! {

/// The language table: `(canonical token, aliases)`, the canonical token leading its aliases.
pub open spec fn lang_table() -> Seq<(Seq<char>, Seq<Seq<char>>)> {
    seq![
        ("python"@, seq!["python"@, "py"@, "python3"@]),
        ("java"@, seq!["java"@]),
        ("scala"@, seq!["scala"@]),
        ("c"@, seq!["c"@]),
        ("cpp"@, seq!["cpp"@, "c++"@, "cxx"@]),
        ("go"@, seq!["go"@, "golang"@]),
        ("rust"@, seq!["rust"@, "rs"@]),
        ("kotlin"@, seq!["kotlin"@, "kt"@]),
        ("typescript"@, seq!["typescript"@, "ts"@]),
        ("javascript"@, seq!["javascript"@, "js"@, "node"@]),
        ("sql"@, seq!["sql"@, "sqlite"@]),
    ]
}

/// The canonical token of the first table entry listing `needle` among its aliases.
pub open spec fn owner_from(needle: Seq<char>, i: int) -> Option<Seq<char>>
    decreases lang_table().len() - i,
{
    if i < 0 || i >= lang_table().len() {
        None
    } else if lang_table()[i].1.contains(needle) {
        Some(lang_table()[i].0)
    } else {
        owner_from(needle, i + 1)
    }
}

/// Trimmed, case-insensitive; blank or unknown → `None`.
pub open spec fn spec_canonical_lang(alias: Seq<char>) -> Option<Seq<char>> {
    let needle = lowercased(trim(alias));
    if needle.len() == 0 {
        None
    } else {
        owner_from(needle, 0)
    }
}

/// One alias list of the table, tested against the needle.
fn listed(needle: &Vec<char>, aliases: &Vec<&'static str>) -> (b: bool)
    ensures
        b == aliases@.map_values(|a: &'static str| a@).contains(needle@),
{
    let ghost av = aliases@.map_values(|a: &'static str| a@);
    let mut k: usize = 0;
    while k < aliases.len()
        invariant
            k <= aliases.len(),
            av == aliases@.map_values(|a: &'static str| a@),
            forall|j: int| 0 <= j < k ==> av[j] != needle@,
        decreases aliases.len() - k,
    {
        if same(&chars_of(aliases[k]), needle) {
            assert(av[k as int] == needle@);
            return true;
        }
        k = k + 1;
    }
    false
}

/// The language table.
pub fn language_table() -> (t: Vec<(&'static str, Vec<&'static str>)>)
    ensures
        t@.len() == lang_table().len(),
        forall|i: int|
            0 <= i < t@.len() ==> (#[trigger] t@[i]).0@ == lang_table()[i].0 && t@[i].1@.map_values(
                |a: &'static str| a@,
            ) == lang_table()[i].1,
{
    let mut t: Vec<(&'static str, Vec<&'static str>)> = Vec::new();
    t.push(("python", vec!["python", "py", "python3"]));
    t.push(("java", vec!["java"]));
    t.push(("scala", vec!["scala"]));
    t.push(("c", vec!["c"]));
    t.push(("cpp", vec!["cpp", "c++", "cxx"]));
    t.push(("go", vec!["go", "golang"]));
    t.push(("rust", vec!["rust", "rs"]));
    t.push(("kotlin", vec!["kotlin", "kt"]));
    t.push(("typescript", vec!["typescript", "ts"]));
    t.push(("javascript", vec!["javascript", "js", "node"]));
    t.push(("sql", vec!["sql", "sqlite"]));
    assert forall|i: int| 0 <= i < t@.len() implies (#[trigger] t@[i]).0@ == lang_table()[i].0
        && t@[i].1@.map_values(|a: &'static str| a@) == lang_table()[i].1 by {
        assert(t@[i].1@.map_values(|a: &'static str| a@) =~= lang_table()[i].1);
    }
    t
}

fn canonical_chars(alias: &Vec<char>) -> (r: Option<&'static str>)
    ensures
        r matches Some(c) ==> spec_canonical_lang(alias@) == Some(c@),
        r is None ==> spec_canonical_lang(alias@) is None,
{
    let needle = to_lower(&trimmed(alias));
    if needle.len() == 0 {
        return None;
    }
    let table = language_table();
    let mut i: usize = 0;
    while i < table.len()
        invariant
            i <= table.len(),
            table@.len() == lang_table().len(),
            forall|j: int|
                0 <= j < table@.len() ==> (#[trigger] table@[j]).0@ == lang_table()[j].0
                    && table@[j].1@.map_values(|a: &'static str| a@) == lang_table()[j].1,
            needle@.len() > 0,
            needle@ == lowercased(trim(alias@)),
            owner_from(needle@, 0) == owner_from(needle@, i as int),
        decreases table.len() - i,
    {
        assert(table@[i as int].0@ == lang_table()[i as int].0);
        if listed(&needle, &table[i].1) {
            return Some(table[i].0);
        }
        i = i + 1;
    }
    None
}

/// Fold a fence alias onto its canonical token: trimmed, case-insensitive; blank or unknown →
/// `None` (which is also the "this fence is not runnable" answer).
pub fn canonical_lang(alias: &str) -> (r: Option<&'static str>)
    ensures
        r matches Some(c) ==> spec_canonical_lang(alias@) == Some(c@),
        r is None ==> spec_canonical_lang(alias@) is None,
{
    canonical_chars(&chars_of(alias))
}

/// The first variant whose language folds onto `wanted`.
pub open spec fn lang_position(langs: Seq<Seq<char>>, wanted: Seq<char>, i: int) -> Option<int>
    decreases langs.len() - i,
{
    if i < 0 || i >= langs.len() {
        None
    } else if spec_canonical_lang(langs[i]) == Some(wanted) {
        Some(i)
    } else {
        lang_position(langs, wanted, i + 1)
    }
}

pub open spec fn variant_langs(vs: Seq<Variant>) -> Seq<Seq<char>> {
    vs.map_values(|v: Variant| v.language@)
}

/// Which variant a block opens on: the first whose language folds onto the preference's
/// canonical token, else 0.
pub open spec fn spec_preferred_index(langs: Seq<Seq<char>>, preferred: Option<Seq<char>>) -> int {
    match preferred {
        None => 0,
        Some(p) => match spec_canonical_lang(p) {
            None => 0,
            Some(w) => match lang_position(langs, w, 0) {
                Some(i) => i,
                None => 0,
            },
        },
    }
}

pub proof fn lemma_lang_position_bounds(langs: Seq<Seq<char>>, wanted: Seq<char>, i: int)
    requires
        0 <= i,
    ensures
        lang_position(langs, wanted, i) matches Some(k) ==> i <= k < langs.len(),
    decreases langs.len() - i,
{
    if i < langs.len() && spec_canonical_lang(langs[i]) != Some(wanted) {
        lemma_lang_position_bounds(langs, wanted, i + 1);
    }
}

proof fn lemma_lang_position_first(langs: Seq<Seq<char>>, wanted: Seq<char>, i: int)
    requires
        0 <= i,
    ensures
        lang_position(langs, wanted, i) matches Some(k) ==> spec_canonical_lang(langs[k]) == Some(wanted)
            && forall|j: int| i <= j < k ==> spec_canonical_lang(#[trigger] langs[j]) != Some(wanted),
        lang_position(langs, wanted, i) is None ==> forall|j: int|
            i <= j < langs.len() ==> spec_canonical_lang(#[trigger] langs[j]) != Some(wanted),
    decreases langs.len() - i,
{
    if i < langs.len() && spec_canonical_lang(langs[i]) != Some(wanted) {
        lemma_lang_position_first(langs, wanted, i + 1);
    }
}

/// A block opens on the first variant, wherever it stands, whose language folds onto the same
/// canonical token as the remembered preference; with no preference, an unknown one, or no
/// such variant, on the first variant.
pub proof fn lemma_preferred_index_first(langs: Seq<Seq<char>>, preferred: Option<Seq<char>>)
    ensures
        ({
            let r = spec_preferred_index(langs, preferred);
            let honoured = preferred matches Some(p) && spec_canonical_lang(p) matches Some(w) && exists|k: int|
                0 <= k < langs.len() && spec_canonical_lang(#[trigger] langs[k]) == Some(w);
            &&& honoured ==> 0 <= r < langs.len() && spec_canonical_lang(langs[r]) == spec_canonical_lang(
                preferred->0,
            ) && forall|j: int|
                0 <= j < r ==> spec_canonical_lang(#[trigger] langs[j]) != spec_canonical_lang(preferred->0)
            &&& !honoured ==> r == 0
        }),
{
    if let Some(p) = preferred {
        if let Some(w) = spec_canonical_lang(p) {
            lemma_lang_position_first(langs, w, 0);
            lemma_lang_position_bounds(langs, w, 0);
        }
    }
}

/// Which variant a block should open on, given the reader's stored language preference.
/// Falls back to 0 whenever the preference cannot be honoured; always in bounds for a
/// non-empty block.
pub fn preferred_index(variants: &[Variant], preferred: Option<&str>) -> (i: usize)
    ensures
        i as int == spec_preferred_index(
            variant_langs(variants@),
            match preferred {
                Some(p) => Some(p@),
                None => None,
            },
        ),
        variants@.len() > 0 ==> i < variants@.len(),
        variants@.len() == 0 ==> i == 0,
{
    let wanted = match preferred {
        None => {
            return 0;
        },
        Some(p) => match canonical_lang(p) {
            None => {
                return 0;
            },
            Some(w) => w,
        },
    };
    let ghost langs = variant_langs(variants@);
    let mut i: usize = 0;
    while i < variants.len()
        invariant
            i <= variants@.len(),
            langs == variant_langs(variants@),
            preferred matches Some(p) && spec_canonical_lang(p@) == Some(wanted@),
            lang_position(langs, wanted@, 0) == lang_position(langs, wanted@, i as int),
        decreases variants.len() - i,
    {
        assert(langs[i as int] == variants@[i as int].language@);
        match canonical_chars(&chars_of_string(&variants[i].language)) {
            Some(c) => {
                if same(&chars_of(c), &chars_of(wanted)) {
                    return i;
                }
            },
            None => {},
        }
        i = i + 1;
    }
    proof {
        lemma_lang_position_bounds(langs, wanted@, 0);
    }
    0
}

/// A short list holds `x` only as one of its elements.
proof fn lemma_listed(s: Seq<Seq<char>>, x: Seq<char>)
    requires
        s.len() <= 3,
    ensures
        s.contains(x) <==> (s.len() > 0 && s[0] == x) || (s.len() > 1 && s[1] == x) || (s.len() > 2
            && s[2] == x),
{
    if s.contains(x) {
        let k = choose|k: int| 0 <= k < s.len() && s[k] == x;
        assert(k == 0 || k == 1 || k == 2);
    }
    if s.len() > 0 && s[0] == x {
        assert(s.contains(x));
    }
    if s.len() > 1 && s[1] == x {
        assert(s.contains(x));
    }
    if s.len() > 2 && s[2] == x {
        assert(s.contains(x));
    }
}

/// The canonical token leads its aliases, and every alias is claimed by its own language
/// first: no alias belongs to two languages, so a preference resolves the same whatever the
/// table's order.
pub proof fn lemma_aliases_unique()
    ensures
        forall|i: int|
            0 <= i < lang_table().len() ==> (#[trigger] lang_table()[i]).1[0] == lang_table()[i].0,
        forall|i: int, j: int|
            0 <= i < lang_table().len() && 0 <= j < lang_table()[i].1.len() ==> owner_from(
                #[trigger] lang_table()[i].1[j],
                0,
            ) == Some(lang_table()[i].0),
{
    reveal_strlit("c");
    reveal_strlit("c++");
    reveal_strlit("cpp");
    reveal_strlit("cxx");
    reveal_strlit("go");
    reveal_strlit("golang");
    reveal_strlit("java");
    reveal_strlit("javascript");
    reveal_strlit("js");
    reveal_strlit("kotlin");
    reveal_strlit("kt");
    reveal_strlit("node");
    reveal_strlit("py");
    reveal_strlit("python");
    reveal_strlit("python3");
    reveal_strlit("rs");
    reveal_strlit("rust");
    reveal_strlit("scala");
    reveal_strlit("sql");
    reveal_strlit("sqlite");
    reveal_strlit("ts");
    reveal_strlit("typescript");
    assert forall|x: Seq<char>|
        #[trigger] lang_table()[0].1.contains(x) <==> (x == "python"@ || x == "py"@ || x == "python3"@) by {
        lemma_listed(lang_table()[0].1, x);
    }
    assert forall|x: Seq<char>|
        #[trigger] lang_table()[1].1.contains(x) <==> (x == "java"@) by {
        lemma_listed(lang_table()[1].1, x);
    }
    assert forall|x: Seq<char>|
        #[trigger] lang_table()[2].1.contains(x) <==> (x == "scala"@) by {
        lemma_listed(lang_table()[2].1, x);
    }
    assert forall|x: Seq<char>|
        #[trigger] lang_table()[3].1.contains(x) <==> (x == "c"@) by {
        lemma_listed(lang_table()[3].1, x);
    }
    assert forall|x: Seq<char>|
        #[trigger] lang_table()[4].1.contains(x) <==> (x == "cpp"@ || x == "c++"@ || x == "cxx"@) by {
        lemma_listed(lang_table()[4].1, x);
    }
    assert forall|x: Seq<char>|
        #[trigger] lang_table()[5].1.contains(x) <==> (x == "go"@ || x == "golang"@) by {
        lemma_listed(lang_table()[5].1, x);
    }
    assert forall|x: Seq<char>|
        #[trigger] lang_table()[6].1.contains(x) <==> (x == "rust"@ || x == "rs"@) by {
        lemma_listed(lang_table()[6].1, x);
    }
    assert forall|x: Seq<char>|
        #[trigger] lang_table()[7].1.contains(x) <==> (x == "kotlin"@ || x == "kt"@) by {
        lemma_listed(lang_table()[7].1, x);
    }
    assert forall|x: Seq<char>|
        #[trigger] lang_table()[8].1.contains(x) <==> (x == "typescript"@ || x == "ts"@) by {
        lemma_listed(lang_table()[8].1, x);
    }
    assert forall|x: Seq<char>|
        #[trigger] lang_table()[9].1.contains(x) <==> (x == "javascript"@ || x == "js"@ || x == "node"@) by {
        lemma_listed(lang_table()[9].1, x);
    }
    assert forall|x: Seq<char>|
        #[trigger] lang_table()[10].1.contains(x) <==> (x == "sql"@ || x == "sqlite"@) by {
        lemma_listed(lang_table()[10].1, x);
    }
    // each literal's length and ends tell it apart from every other
    assert("c"@.len() == 1 && "c"@[0] == 'c');
    assert("c++"@.len() == 3 && "c++"@[0] == 'c' && "c++"@[2] == '+');
    assert("cpp"@.len() == 3 && "cpp"@[0] == 'c' && "cpp"@[2] == 'p');
    assert("cxx"@.len() == 3 && "cxx"@[0] == 'c' && "cxx"@[2] == 'x');
    assert("go"@.len() == 2 && "go"@[0] == 'g' && "go"@[1] == 'o');
    assert("golang"@.len() == 6 && "golang"@[0] == 'g' && "golang"@[5] == 'g');
    assert("java"@.len() == 4 && "java"@[0] == 'j' && "java"@[3] == 'a');
    assert("javascript"@.len() == 10 && "javascript"@[0] == 'j' && "javascript"@[9] == 't');
    assert("js"@.len() == 2 && "js"@[0] == 'j' && "js"@[1] == 's');
    assert("kotlin"@.len() == 6 && "kotlin"@[0] == 'k' && "kotlin"@[5] == 'n');
    assert("kt"@.len() == 2 && "kt"@[0] == 'k' && "kt"@[1] == 't');
    assert("node"@.len() == 4 && "node"@[0] == 'n' && "node"@[3] == 'e');
    assert("py"@.len() == 2 && "py"@[0] == 'p' && "py"@[1] == 'y');
    assert("python"@.len() == 6 && "python"@[0] == 'p' && "python"@[5] == 'n');
    assert("python3"@.len() == 7 && "python3"@[0] == 'p' && "python3"@[6] == '3');
    assert("rs"@.len() == 2 && "rs"@[0] == 'r' && "rs"@[1] == 's');
    assert("rust"@.len() == 4 && "rust"@[0] == 'r' && "rust"@[3] == 't');
    assert("scala"@.len() == 5 && "scala"@[0] == 's' && "scala"@[4] == 'a');
    assert("sql"@.len() == 3 && "sql"@[0] == 's' && "sql"@[2] == 'l');
    assert("sqlite"@.len() == 6 && "sqlite"@[0] == 's' && "sqlite"@[5] == 'e');
    assert("ts"@.len() == 2 && "ts"@[0] == 't' && "ts"@[1] == 's');
    assert("typescript"@.len() == 10 && "typescript"@[0] == 't' && "typescript"@[9] == 't');
    reveal_with_fuel(owner_from, 12);
    assert(owner_from("python"@, 0) == Some("python"@));
    assert(owner_from("py"@, 0) == Some("python"@));
    assert(owner_from("python3"@, 0) == Some("python"@));
    assert(owner_from("java"@, 0) == Some("java"@));
    assert(owner_from("scala"@, 0) == Some("scala"@));
    assert(owner_from("c"@, 0) == Some("c"@));
    assert(owner_from("cpp"@, 0) == Some("cpp"@));
    assert(owner_from("c++"@, 0) == Some("cpp"@));
    assert(owner_from("cxx"@, 0) == Some("cpp"@));
    assert(owner_from("go"@, 0) == Some("go"@));
    assert(owner_from("golang"@, 0) == Some("go"@));
    assert(owner_from("rust"@, 0) == Some("rust"@));
    assert(owner_from("rs"@, 0) == Some("rust"@));
    assert(owner_from("kotlin"@, 0) == Some("kotlin"@));
    assert(owner_from("kt"@, 0) == Some("kotlin"@));
    assert(owner_from("typescript"@, 0) == Some("typescript"@));
    assert(owner_from("ts"@, 0) == Some("typescript"@));
    assert(owner_from("javascript"@, 0) == Some("javascript"@));
    assert(owner_from("js"@, 0) == Some("javascript"@));
    assert(owner_from("node"@, 0) == Some("javascript"@));
    assert(owner_from("sql"@, 0) == Some("sql"@));
    assert(owner_from("sqlite"@, 0) == Some("sql"@));
    assert forall|i: int, j: int|
        0 <= i < lang_table().len() && 0 <= j < lang_table()[i].1.len() implies owner_from(
            #[trigger] lang_table()[i].1[j],
            0,
        ) == Some(lang_table()[i].0) by {
        if i == 0 {
            assert(lang_table()[0].1[0] == "python"@
                && lang_table()[0].1[1] == "py"@
                && lang_table()[0].1[2] == "python3"@);
        } else if i == 1 {
            assert(lang_table()[1].1[0] == "java"@);
        } else if i == 2 {
            assert(lang_table()[2].1[0] == "scala"@);
        } else if i == 3 {
            assert(lang_table()[3].1[0] == "c"@);
        } else if i == 4 {
            assert(lang_table()[4].1[0] == "cpp"@
                && lang_table()[4].1[1] == "c++"@
                && lang_table()[4].1[2] == "cxx"@);
        } else if i == 5 {
            assert(lang_table()[5].1[0] == "go"@
                && lang_table()[5].1[1] == "golang"@);
        } else if i == 6 {
            assert(lang_table()[6].1[0] == "rust"@
                && lang_table()[6].1[1] == "rs"@);
        } else if i == 7 {
            assert(lang_table()[7].1[0] == "kotlin"@
                && lang_table()[7].1[1] == "kt"@);
        } else if i == 8 {
            assert(lang_table()[8].1[0] == "typescript"@
                && lang_table()[8].1[1] == "ts"@);
        } else if i == 9 {
            assert(lang_table()[9].1[0] == "javascript"@
                && lang_table()[9].1[1] == "js"@
                && lang_table()[9].1[2] == "node"@);
        } else if i == 10 {
            assert(lang_table()[10].1[0] == "sql"@
                && lang_table()[10].1[1] == "sqlite"@);
        }
    }
}


/// A fence the runner can run: its language folds onto a canonical token.
pub fn runnable_fence(lang: &str) -> (b: bool)
    ensures
        b == spec_canonical_lang(lang@) is Some,
{
    canonical_lang(lang).is_some()
}

/// Where "copy to editor" lands a solution written in `lang`: the first variant whose language
/// folds onto the same canonical token, else the active one (an unknown language never matches).
pub open spec fn spec_copy_target(langs: Seq<Seq<char>>, lang: Seq<char>, active: int) -> int {
    match spec_canonical_lang(lang) {
        None => active,
        Some(w) => match lang_position(langs, w, 0) {
            Some(i) => i,
            None => active,
        },
    }
}

/// The variant a copied solution goes into.
pub fn copy_target(variants: &[Variant], lang: &str, active: usize) -> (i: usize)
    ensures
        i as int == spec_copy_target(variant_langs(variants@), lang@, active as int),
{
    let wanted = match canonical_lang(lang) {
        None => {
            return active;
        },
        Some(w) => w,
    };
    let ghost langs = variant_langs(variants@);
    let mut i: usize = 0;
    while i < variants.len()
        invariant
            i <= variants@.len(),
            langs == variant_langs(variants@),
            spec_canonical_lang(lang@) == Some(wanted@),
            lang_position(langs, wanted@, 0) == lang_position(langs, wanted@, i as int),
        decreases variants.len() - i,
    {
        assert(langs[i as int] == variants@[i as int].language@);
        match canonical_chars(&chars_of_string(&variants[i].language)) {
            Some(c) => {
                if same(&chars_of(c), &chars_of(wanted)) {
                    return i;
                }
            },
            None => {},
        }
        i = i + 1;
    }
    active
}

/// A lowercase ASCII word (letters, digits, `+`).
pub open spec fn plain_char(c: char) -> bool {
    ('a' <= c && c <= 'z') || ('0' <= c && c <= '9') || c == '+'
}

/// A token made of plain characters is its own trimmed, lowercased form.
proof fn lemma_plain_token(t: Seq<char>)
    requires
        t.len() > 0,
        forall|i: int| 0 <= i < t.len() ==> plain_char(#[trigger] t[i]),
    ensures
        trim(t) == t,
        lowercased(t) == t,
{
    assert(plain_char(t[0]) && plain_char(t[t.len() - 1]));
    assert(trim_start(t) == t);
    assert(trim_end(t) == t);
    assert(all_ascii(t));
    assert(t.map_values(|c: char| ascii_lower(c)) =~= t);
}

/// Every alias of the table, and so every canonical token (which leads its aliases), folds onto
/// its own language's token: a stored preference reads back as the language it names.
pub proof fn lemma_aliases_round_trip()
    ensures
        forall|i: int, j: int|
            0 <= i < lang_table().len() && 0 <= j < lang_table()[i].1.len() ==> spec_canonical_lang(
                #[trigger] lang_table()[i].1[j],
            ) == Some(lang_table()[i].0),
        forall|i: int|
            0 <= i < lang_table().len() ==> spec_canonical_lang(#[trigger] lang_table()[i].0) == Some(
                lang_table()[i].0,
            ),
{
    lemma_aliases_unique();
    reveal_strlit("c");
    assert("c"@ =~= seq!['c']);
    lemma_plain_token("c"@);
    reveal_strlit("c++");
    assert("c++"@ =~= seq!['c', '+', '+']);
    lemma_plain_token("c++"@);
    reveal_strlit("cpp");
    assert("cpp"@ =~= seq!['c', 'p', 'p']);
    lemma_plain_token("cpp"@);
    reveal_strlit("cxx");
    assert("cxx"@ =~= seq!['c', 'x', 'x']);
    lemma_plain_token("cxx"@);
    reveal_strlit("go");
    assert("go"@ =~= seq!['g', 'o']);
    lemma_plain_token("go"@);
    reveal_strlit("golang");
    assert("golang"@ =~= seq!['g', 'o', 'l', 'a', 'n', 'g']);
    lemma_plain_token("golang"@);
    reveal_strlit("java");
    assert("java"@ =~= seq!['j', 'a', 'v', 'a']);
    lemma_plain_token("java"@);
    reveal_strlit("javascript");
    assert("javascript"@ =~= seq!['j', 'a', 'v', 'a', 's', 'c', 'r', 'i', 'p', 't']);
    lemma_plain_token("javascript"@);
    reveal_strlit("js");
    assert("js"@ =~= seq!['j', 's']);
    lemma_plain_token("js"@);
    reveal_strlit("kotlin");
    assert("kotlin"@ =~= seq!['k', 'o', 't', 'l', 'i', 'n']);
    lemma_plain_token("kotlin"@);
    reveal_strlit("kt");
    assert("kt"@ =~= seq!['k', 't']);
    lemma_plain_token("kt"@);
    reveal_strlit("node");
    assert("node"@ =~= seq!['n', 'o', 'd', 'e']);
    lemma_plain_token("node"@);
    reveal_strlit("py");
    assert("py"@ =~= seq!['p', 'y']);
    lemma_plain_token("py"@);
    reveal_strlit("python");
    assert("python"@ =~= seq!['p', 'y', 't', 'h', 'o', 'n']);
    lemma_plain_token("python"@);
    reveal_strlit("python3");
    assert("python3"@ =~= seq!['p', 'y', 't', 'h', 'o', 'n', '3']);
    lemma_plain_token("python3"@);
    reveal_strlit("rs");
    assert("rs"@ =~= seq!['r', 's']);
    lemma_plain_token("rs"@);
    reveal_strlit("rust");
    assert("rust"@ =~= seq!['r', 'u', 's', 't']);
    lemma_plain_token("rust"@);
    reveal_strlit("scala");
    assert("scala"@ =~= seq!['s', 'c', 'a', 'l', 'a']);
    lemma_plain_token("scala"@);
    reveal_strlit("sql");
    assert("sql"@ =~= seq!['s', 'q', 'l']);
    lemma_plain_token("sql"@);
    reveal_strlit("sqlite");
    assert("sqlite"@ =~= seq!['s', 'q', 'l', 'i', 't', 'e']);
    lemma_plain_token("sqlite"@);
    reveal_strlit("ts");
    assert("ts"@ =~= seq!['t', 's']);
    lemma_plain_token("ts"@);
    reveal_strlit("typescript");
    assert("typescript"@ =~= seq!['t', 'y', 'p', 'e', 's', 'c', 'r', 'i', 'p', 't']);
    lemma_plain_token("typescript"@);
    assert forall|i: int, j: int|
        0 <= i < lang_table().len() && 0 <= j < lang_table()[i].1.len() implies spec_canonical_lang(
            #[trigger] lang_table()[i].1[j],
        ) == Some(lang_table()[i].0) by {
        assert(owner_from(lang_table()[i].1[j], 0) == Some(lang_table()[i].0));
        if i == 0 {
            assert(lang_table()[0].1 == seq!["python"@, "py"@, "python3"@]);
        } else if i == 1 {
            assert(lang_table()[1].1 == seq!["java"@]);
        } else if i == 2 {
            assert(lang_table()[2].1 == seq!["scala"@]);
        } else if i == 3 {
            assert(lang_table()[3].1 == seq!["c"@]);
        } else if i == 4 {
            assert(lang_table()[4].1 == seq!["cpp"@, "c++"@, "cxx"@]);
        } else if i == 5 {
            assert(lang_table()[5].1 == seq!["go"@, "golang"@]);
        } else if i == 6 {
            assert(lang_table()[6].1 == seq!["rust"@, "rs"@]);
        } else if i == 7 {
            assert(lang_table()[7].1 == seq!["kotlin"@, "kt"@]);
        } else if i == 8 {
            assert(lang_table()[8].1 == seq!["typescript"@, "ts"@]);
        } else if i == 9 {
            assert(lang_table()[9].1 == seq!["javascript"@, "js"@, "node"@]);
        } else if i == 10 {
            assert(lang_table()[10].1 == seq!["sql"@, "sqlite"@]);
        }
    }
    assert forall|i: int| 0 <= i < lang_table().len() implies spec_canonical_lang(
        #[trigger] lang_table()[i].0,
    ) == Some(lang_table()[i].0) by {
        assert(lang_table()[i].1[0] == lang_table()[i].0);
        assert(spec_canonical_lang(lang_table()[i].1[0]) == Some(lang_table()[i].0));
    }
}

} // verus!

//! Reading-preference tokens: four independent choices, each from a small allow-list,
//! persisted as one `|`-joined string. An unknown token degrades to that field's default only;
//! a string that is not exactly four fields is the default throughout (a bad stored value must
//! never break the reader).

use vstd::prelude::*;

use crate::text::{
    append, chars_of, free_of, join, lemma_split_join, lit, same, split_char, split_on, string_of,
};

verus! {

/// The storage key the reading preferences live under.
pub const PREFS_KEY: &'static str = "reader-prefs";

/// The reader's four choices, each one of its allow-list's tokens.
#[derive(Debug, Clone, Copy, PartialEq, Eq)]
pub struct Prefs {
    pub size: &'static str,
    pub leading: &'static str,
    pub family: &'static str,
    pub width: &'static str,
}

/// The four tokens, in the order they are stored.
pub open spec fn prefs_view(p: Prefs) -> Seq<Seq<char>> {
    seq![p.size@, p.leading@, p.family@, p.width@]
}

pub open spec fn size_tokens() -> Seq<Seq<char>> {
    seq!["sm"@, "md"@, "lg"@]
}

pub open spec fn leading_tokens() -> Seq<Seq<char>> {
    seq!["tight"@, "normal"@, "loose"@]
}

pub open spec fn family_tokens() -> Seq<Seq<char>> {
    seq!["serif"@, "sans"@, "mono"@]
}

pub open spec fn width_tokens() -> Seq<Seq<char>> {
    seq!["narrow"@, "standard"@, "wide"@]
}

/// The allow-lists, field by field.
pub open spec fn allow_lists() -> Seq<Seq<Seq<char>>> {
    seq![size_tokens(), leading_tokens(), family_tokens(), width_tokens()]
}

/// The defaults, field by field: medium, comfortable, sans, standard.
pub open spec fn default_tokens() -> Seq<Seq<char>> {
    seq!["md"@, "normal"@, "sans"@, "standard"@]
}

/// A token of the allow-list stands for itself; anything else is the default.
pub open spec fn spec_canonical(options: Seq<Seq<char>>, token: Seq<char>, default: Seq<char>) -> Seq<
    char,
> {
    if options.contains(token) {
        token
    } else {
        default
    }
}

/// What a stored string reads as.
pub open spec fn spec_parse(stored: Option<Seq<char>>) -> Seq<Seq<char>> {
    match stored {
        None => default_tokens(),
        Some(s) => {
            let parts = split_char(s, '|');
            if parts.len() != 4 {
                default_tokens()
            } else {
                Seq::new(4, |i: int| spec_canonical(allow_lists()[i], parts[i], default_tokens()[i]))
            }
        },
    }
}

/// The stored form: the four tokens joined by `|`.
pub open spec fn spec_serialize(p: Prefs) -> Seq<char> {
    join(prefs_view(p), "|"@)
}

/// Whether every field holds a token of its allow-list.
pub open spec fn is_valid(p: Prefs) -> bool {
    forall|i: int| 0 <= i < 4 ==> allow_lists()[i].contains(#[trigger] prefs_view(p)[i])
}

/// The defaults: medium size, comfortable leading, sans family, standard width.
pub fn default_prefs() -> (p: Prefs)
    ensures
        prefs_view(p) == default_tokens(),
{
    Prefs { size: "md", leading: "normal", family: "sans", width: "standard" }
}

/// `(token, label)` choices for the text size.
pub fn sizes() -> (r: Vec<(&'static str, &'static str)>)
    ensures
        r@.map_values(|o: (&'static str, &'static str)| o.0@) == size_tokens(),
{
    let r = vec![("sm", "Small"), ("md", "Medium"), ("lg", "Large")];
    assert(r@.map_values(|o: (&'static str, &'static str)| o.0@) =~= size_tokens());
    r
}

/// `(token, label)` choices for the line spacing.
pub fn leadings() -> (r: Vec<(&'static str, &'static str)>)
    ensures
        r@.map_values(|o: (&'static str, &'static str)| o.0@) == leading_tokens(),
{
    let r = vec![("tight", "Tight"), ("normal", "Comfortable"), ("loose", "Loose")];
    assert(r@.map_values(|o: (&'static str, &'static str)| o.0@) =~= leading_tokens());
    r
}

/// `(token, label)` choices for the font family.
pub fn families() -> (r: Vec<(&'static str, &'static str)>)
    ensures
        r@.map_values(|o: (&'static str, &'static str)| o.0@) == family_tokens(),
{
    let r = vec![("serif", "Serif"), ("sans", "Sans"), ("mono", "Mono")];
    assert(r@.map_values(|o: (&'static str, &'static str)| o.0@) =~= family_tokens());
    r
}

/// `(token, label)` choices for the column width.
pub fn widths() -> (r: Vec<(&'static str, &'static str)>)
    ensures
        r@.map_values(|o: (&'static str, &'static str)| o.0@) == width_tokens(),
{
    let r = vec![("narrow", "Narrow"), ("standard", "Standard"), ("wide", "Wide")];
    assert(r@.map_values(|o: (&'static str, &'static str)| o.0@) =~= width_tokens());
    r
}

/// The option whose token is `token`, or `default` when none is.
fn canonical(options: &Vec<(&'static str, &'static str)>, token: &Vec<char>, default: &'static str) -> (r:
    &'static str)
    ensures
        r@ == spec_canonical(
            options@.map_values(|o: (&'static str, &'static str)| o.0@),
            token@,
            default@,
        ),
{
    let ghost toks = options@.map_values(|o: (&'static str, &'static str)| o.0@);
    let mut i: usize = 0;
    while i < options.len()
        invariant
            i <= options@.len(),
            toks == options@.map_values(|o: (&'static str, &'static str)| o.0@),
            forall|k: int| 0 <= k < i ==> toks[k] != token@,
        decreases options.len() - i,
    {
        let (t, _) = options[i];
        assert(toks[i as int] == t@);
        if same(&chars_of(t), token) {
            assert(toks.contains(token@));
            return t;
        }
        i = i + 1;
    }
    assert(!toks.contains(token@));
    default
}

/// Parse a stored `size|leading|family|width` string; anything malformed degrades per field,
/// and anything that is not exactly four fields (or nothing at all) is the default.
pub fn parse(stored: Option<&str>) -> (p: Prefs)
    ensures
        prefs_view(p) == spec_parse(
            match stored {
                Some(s) => Some(s@),
                None => None,
            },
        ),
{
    let d = default_prefs();
    let s = match stored {
        None => {
            return d;
        },
        Some(s) => s,
    };
    let parts = split_on(&chars_of(s), '|');
    if parts.len() != 4 {
        return d;
    }
    let ghost ps = split_char(s@, '|');
    assert(ps[0] == parts@[0]@ && ps[1] == parts@[1]@ && ps[2] == parts@[2]@ && ps[3] == parts@[3]@);
    let p = Prefs {
        size: canonical(&sizes(), &parts[0], d.size),
        leading: canonical(&leadings(), &parts[1], d.leading),
        family: canonical(&families(), &parts[2], d.family),
        width: canonical(&widths(), &parts[3], d.width),
    };
    assert(prefs_view(p) =~= spec_parse(Some(s@)));
    p
}

/// The stored form: `size|leading|family|width`.
pub fn serialize(prefs: &Prefs) -> (out: String)
    ensures
        out@ == spec_serialize(*prefs),
{
    let mut out = chars_of(prefs.size);
    append(&mut out, &lit("|"));
    append(&mut out, &chars_of(prefs.leading));
    append(&mut out, &lit("|"));
    append(&mut out, &chars_of(prefs.family));
    append(&mut out, &lit("|"));
    append(&mut out, &chars_of(prefs.width));
    let ghost v = prefs_view(*prefs);
    let ghost sep = "|"@;
    assert(v.drop_last() =~= seq![v[0], v[1], v[2]]);
    assert(seq![v[0], v[1], v[2]].drop_last() =~= seq![v[0], v[1]]);
    assert(seq![v[0], v[1]].drop_last() =~= seq![v[0]]);
    assert(join(seq![v[0]], sep) == v[0]);
    assert(join(seq![v[0], v[1]], sep) == v[0] + sep + v[1]);
    assert(join(seq![v[0], v[1], v[2]], sep) == v[0] + sep + v[1] + sep + v[2]);
    assert(join(v, sep) == v[0] + sep + v[1] + sep + v[2] + sep + v[3]);
    string_of(&out)
}

/// Storing valid preferences and reading them back gives the same preferences.
pub proof fn lemma_prefs_round_trip(p: Prefs)
    requires
        is_valid(p),
    ensures
        spec_parse(Some(spec_serialize(p))) == prefs_view(p),
{
    reveal_strlit("|");
    reveal_strlit("sm");
    reveal_strlit("md");
    reveal_strlit("lg");
    reveal_strlit("tight");
    reveal_strlit("normal");
    reveal_strlit("loose");
    reveal_strlit("serif");
    reveal_strlit("sans");
    reveal_strlit("mono");
    reveal_strlit("narrow");
    reveal_strlit("standard");
    reveal_strlit("wide");
    let v = prefs_view(p);
    assert forall|i: int| 0 <= i < 4 implies free_of(#[trigger] v[i], '|') by {
        assert(allow_lists()[i].contains(v[i]));
        let l = allow_lists()[i];
        let k = choose|k: int| 0 <= k < l.len() && l[k] == v[i];
        assert(0 <= k < 3);
    }
    assert("|"@ =~= seq!['|']);
    lemma_split_join(v, '|');
    let parsed = spec_parse(Some(spec_serialize(p)));
    assert forall|i: int| 0 <= i < 4 implies parsed[i] == v[i] by {
        assert(allow_lists()[i].contains(v[i]));
    }
    assert(parsed =~= v);
}


/// A bad token costs only its own field: two stored values of four fields that agree on one
/// field read the same for that field, whatever the others hold.
pub proof fn lemma_prefs_per_field(a: Seq<char>, b: Seq<char>, i: int)
    requires
        split_char(a, '|').len() == 4,
        split_char(b, '|').len() == 4,
        0 <= i < 4,
        split_char(a, '|')[i] == split_char(b, '|')[i],
    ensures
        spec_parse(Some(a))[i] == spec_parse(Some(b))[i],
{
}

} // verus!

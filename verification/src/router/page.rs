//! Every page the client can show, parsed from already-split, already-decoded URL path
//! segments, and the canonical URL of each. Lessons use the directory-mirror form
//! `/synapse/<category…>/<book>/<chapter…>/<lesson>`.

use vstd::prelude::*;

use crate::text::{
    append, chars_of, chars_of_strings, copy_chars, drop_empty, drop_empty_of, free_of, join,
    join_with, lemma_drop_empty_concat, lemma_drop_empty_keeps, lemma_drop_empty_nonempty,
    lemma_drop_empty_single, lemma_seqs_push, lemma_split_concat, lemma_split_free,
    lemma_split_join, lit, same, seqs, split_char, split_on, string_of, string_views, strings_of,
};

verus! {

/// Every page the SPA can show.
#[derive(Debug, Clone, PartialEq, Eq)]
pub enum Page {
    Library,
    Lesson(Vec<String>),
    Blog,
    BlogPost(String),
    Account,
    Admin,
    NotFound(String),
}

/// A page as values: the same variants, strings as character sequences.
pub enum PageView {
    Library,
    Lesson(Seq<Seq<char>>),
    Blog,
    BlogPost(Seq<char>),
    Account,
    Admin,
    NotFound(Seq<char>),
}

impl View for Page {
    type V = PageView;

    open spec fn view(&self) -> PageView {
        match self {
            Page::Library => PageView::Library,
            Page::Lesson(path) => PageView::Lesson(string_views(path@)),
            Page::Blog => PageView::Blog,
            Page::BlogPost(slug) => PageView::BlogPost(slug@),
            Page::Account => PageView::Account,
            Page::Admin => PageView::Admin,
            Page::NotFound(raw) => PageView::NotFound(raw@),
        }
    }
}

/// The page named by URL path segments: empty segments are ignored; `synapse` needs at least
/// one more segment; blog posts are flat; anything else is not found, under its `/`-joined
/// remaining segments.
pub open spec fn spec_from_segments(segments: Seq<Seq<char>>) -> PageView {
    let s = drop_empty(segments);
    if s.len() == 0 {
        PageView::Library
    } else if s[0] == "synapse"@ && s.len() > 1 {
        PageView::Lesson(s.drop_first())
    } else if s[0] == "blog"@ && s.len() == 1 {
        PageView::Blog
    } else if s[0] == "blog"@ && s.len() == 2 {
        PageView::BlogPost(s[1])
    } else if s[0] == "account"@ && s.len() == 1 {
        PageView::Account
    } else if s[0] == "admin"@ && s.len() == 1 {
        PageView::Admin
    } else {
        PageView::NotFound(join(s, "/"@))
    }
}

/// The canonical URL of a page.
pub open spec fn spec_url(p: PageView) -> Seq<char> {
    match p {
        PageView::Library => "/"@,
        PageView::Lesson(path) => "/synapse/"@ + join(path, "/"@),
        PageView::Blog => "/blog"@,
        PageView::BlogPost(slug) => "/blog/"@ + slug,
        PageView::Account => "/account"@,
        PageView::Admin => "/admin"@,
        PageView::NotFound(raw) => "/"@ + raw,
    }
}

/// A directory-mirror path's segments, empty ones dropped.
pub open spec fn spec_segments_of(path: Seq<char>) -> Seq<Seq<char>> {
    drop_empty(split_char(path, '/'))
}

pub open spec fn str_views(v: Seq<&str>) -> Seq<Seq<char>> {
    v.map_values(|s: &str| s@)
}

/// A path segment as a URL can carry it: non-empty and without a `/`.
pub open spec fn is_segment(s: Seq<char>) -> bool {
    s.len() > 0 && free_of(s, '/')
}

/// The pages a URL names exactly (a not-found page keeps whatever was typed, which may well
/// spell a real page).
pub open spec fn is_addressable(p: PageView) -> bool {
    match p {
        PageView::Lesson(path) => path.len() >= 1 && forall|i: int|
            0 <= i < path.len() ==> is_segment(#[trigger] path[i]),
        PageView::BlogPost(slug) => is_segment(slug),
        PageView::NotFound(_) => false,
        _ => true,
    }
}

impl Page {
    /// Parse already-split, already-decoded URL path segments.
    pub fn from_segments(segments: &[&str]) -> (p: Self)
        ensures
            p@ == spec_from_segments(str_views(segments@)),
    {
        let ghost views = str_views(segments@);
        let mut all: Vec<Vec<char>> = Vec::new();
        let mut i: usize = 0;
        while i < segments.len()
            invariant
                i <= segments@.len(),
                views == str_views(segments@),
                seqs(all@) == views.take(i as int),
            decreases segments.len() - i,
        {
            let x = chars_of(segments[i]);
            let ghost prev = all@;
            all.push(x);
            proof {
                lemma_seqs_push(prev, x);
            }
            assert(views.take(i + 1) =~= views.take(i as int).push(views[i as int]));
            i = i + 1;
        }
        assert(views.take(segments@.len() as int) =~= views);
        let s = drop_empty_of(&all);
        let ghost sv = seqs(s@);
        assert(sv == drop_empty(views));
        let n = s.len();
        if n == 0 {
            return Page::Library;
        }
        let head = &s[0];
        assert(sv[0] == head@);
        if same(head, &lit("synapse")) && n > 1 {
            let mut rest: Vec<Vec<char>> = Vec::new();
            let mut k: usize = 1;
            while k < n
                invariant
                    1 <= k <= n,
                    n == s@.len(),
                    sv == seqs(s@),
                    seqs(rest@) == sv.subrange(1, k as int),
                decreases n - k,
            {
                let x = copy_chars(&s[k]);
                let ghost prev = rest@;
                rest.push(x);
                proof {
                    lemma_seqs_push(prev, x);
                }
                assert(sv.subrange(1, k + 1) =~= sv.subrange(1, k as int).push(sv[k as int]));
                k = k + 1;
            }
            assert(sv.subrange(1, n as int) =~= sv.drop_first());
            return Page::Lesson(strings_of(&rest));
        }
        if same(head, &lit("blog")) && n == 1 {
            return Page::Blog;
        }
        if same(head, &lit("blog")) && n == 2 {
            assert(sv[1] == s@[1]@);
            return Page::BlogPost(string_of(&s[1]));
        }
        if same(head, &lit("account")) && n == 1 {
            return Page::Account;
        }
        if same(head, &lit("admin")) && n == 1 {
            return Page::Admin;
        }
        Page::NotFound(string_of(&join_with(&s, &lit("/"))))
    }

    /// The canonical URL.
    pub fn url(&self) -> (out: String)
        ensures
            out@ == spec_url(self@),
    {
        match self {
            Page::Library => string_of(&lit("/")),
            Page::Lesson(path) => {
                let mut out = lit("/synapse/");
                append(&mut out, &join_with(&chars_of_strings(path), &lit("/")));
                string_of(&out)
            },
            Page::Blog => string_of(&lit("/blog")),
            Page::BlogPost(slug) => {
                let mut out = lit("/blog/");
                append(&mut out, &chars_of(slug.as_str()));
                string_of(&out)
            },
            Page::Account => string_of(&lit("/account")),
            Page::Admin => string_of(&lit("/admin")),
            Page::NotFound(raw) => {
                let mut out = lit("/");
                append(&mut out, &chars_of(raw.as_str()));
                string_of(&out)
            },
        }
    }

    /// A directory-mirror path string (`a/b/c`) → its segments, dropping empties.
    pub fn segments_of(path: &str) -> (out: Vec<String>)
        ensures
            string_views(out@) == spec_segments_of(path@),
    {
        strings_of(&drop_empty_of(&split_on(&chars_of(path), '/')))
    }
}

proof fn lemma_one_segment(w: Seq<char>)
    requires
        is_segment(w),
    ensures
        spec_segments_of(Seq::<char>::empty() + seq!['/'] + w) == seq![w],
        drop_empty(seq![w]) == seq![w],
{
    let e = Seq::<char>::empty();
    lemma_split_concat(e, w, '/');
    lemma_split_free(w, '/');
    lemma_split_free(e, '/');
    lemma_drop_empty_concat(seq![e], seq![w]);
    lemma_drop_empty_single(w);
    lemma_drop_empty_single(e);
    assert(Seq::<Seq<char>>::empty() + seq![w] =~= seq![w]);
}

/// Every page a URL can name exactly comes back from its own URL: split the URL into
/// segments, parse them, and the page is the one the URL was made from.
pub proof fn lemma_url_round_trip(p: PageView)
    requires
        is_addressable(p),
    ensures
        spec_from_segments(spec_segments_of(spec_url(p))) == p,
        spec_from_segments(split_char(spec_url(p), '/')) == p,
{
    lemma_empty_segments_ignored(split_char(spec_url(p), '/'));
    reveal_strlit("/");
    reveal_strlit("/synapse/");
    reveal_strlit("synapse");
    reveal_strlit("/blog");
    reveal_strlit("/blog/");
    reveal_strlit("blog");
    reveal_strlit("/account");
    reveal_strlit("account");
    reveal_strlit("/admin");
    reveal_strlit("admin");
    let e = Seq::<char>::empty();
    lemma_split_free(e, '/');
    lemma_drop_empty_single(e);
    assert(drop_empty(Seq::<Seq<char>>::empty()) =~= Seq::<Seq<char>>::empty());
    match p {
        PageView::Library => {
            assert(spec_url(p) =~= e + seq!['/'] + e);
            lemma_split_concat(e, e, '/');
            lemma_drop_empty_concat(seq![e], seq![e]);
            assert(spec_segments_of(spec_url(p)) =~= Seq::<Seq<char>>::empty());
        },
        PageView::Lesson(path) => {
            let w = "synapse"@;
            let j = join(path, "/"@);
            assert(spec_url(p) =~= e + seq!['/'] + (w + seq!['/'] + j));
            assert("/"@ =~= seq!['/']);
            assert forall|i: int| 0 <= i < path.len() implies free_of(#[trigger] path[i], '/') by {
                assert(is_segment(path[i]));
            }
            lemma_split_join(path, '/');
            lemma_split_concat(w, j, '/');
            lemma_split_free(w, '/');
            lemma_split_concat(e, w + seq!['/'] + j, '/');
            lemma_drop_empty_concat(seq![e], seq![w] + path);
            lemma_drop_empty_concat(seq![w], path);
            lemma_drop_empty_single(w);
            assert forall|i: int| 0 <= i < path.len() implies (#[trigger] path[i]).len() > 0 by {
                assert(is_segment(path[i]));
            }
            lemma_drop_empty_keeps(path);
            let segs = seq![w] + path;
            assert(drop_empty(split_char(spec_url(p), '/')) =~= segs);
            lemma_drop_empty_nonempty(split_char(spec_url(p), '/'));
            lemma_drop_empty_keeps(segs);
            assert(segs.drop_first() =~= path);
            assert(segs[0] == w);
        },
        PageView::BlogPost(slug) => {
            let w = "blog"@;
            assert(spec_url(p) =~= e + seq!['/'] + (w + seq!['/'] + slug));
            lemma_split_concat(w, slug, '/');
            lemma_split_free(w, '/');
            lemma_split_free(slug, '/');
            lemma_split_concat(e, w + seq!['/'] + slug, '/');
            lemma_drop_empty_concat(seq![e], seq![w, slug]);
            assert(seq![w] + seq![slug] =~= seq![w, slug]);
            lemma_drop_empty_keeps(seq![w, slug]);
            assert(drop_empty(split_char(spec_url(p), '/')) =~= seq![w, slug]);
        },
        PageView::Blog => {
            let w = "blog"@;
            assert(spec_url(p) =~= e + seq!['/'] + w);
            assert(forall|k: int| 0 <= k < w.len() ==> w[k] != '/');
            lemma_one_segment(w);
        },
        PageView::Account => {
            let w = "account"@;
            assert(spec_url(p) =~= e + seq!['/'] + w);
            assert(forall|k: int| 0 <= k < w.len() ==> w[k] != '/');
            lemma_one_segment(w);
        },
        PageView::Admin => {
            let w = "admin"@;
            assert(spec_url(p) =~= e + seq!['/'] + w);
            assert(forall|k: int| 0 <= k < w.len() ==> w[k] != '/');
            lemma_one_segment(w);
        },
        PageView::NotFound(_) => {},
    }
}


/// Empty segments never change the page: parsing the segments with the empty ones taken out
/// gives the same page.
pub proof fn lemma_empty_segments_ignored(segments: Seq<Seq<char>>)
    ensures
        spec_from_segments(drop_empty(segments)) == spec_from_segments(segments),
{
    lemma_drop_empty_nonempty(segments);
    lemma_drop_empty_keeps(drop_empty(segments));
}

} // verus!

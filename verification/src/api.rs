//! What the client knows of a request in flight, the endpoints it addresses, and how a
//! failed request reads to the reader.

use vstd::prelude::*;

use crate::text::{
    append, chars_of, chars_of_strings, decimal, decimal_of, join, join_with, lit, string_of,
    string_views,
};

verus! {

/// A fetch's reactive lifecycle: still loading, loaded with a value, or failed with the
/// message the server (or the transport) gave.
#[derive(Debug, Clone, PartialEq, Eq)]
pub enum AsyncResult<T> {
    Loading,
    Loaded(T),
    Failed(String),
}

/// `/api/synapse/<path>`: one lesson's payload, by its directory-mirror path.
pub fn lesson_endpoint(path: &[String]) -> (url: String)
    ensures
        url@ == "/api/synapse/"@ + join(string_views(path@), "/"@),
{
    let mut out = lit("/api/synapse/");
    let mut parts: Vec<String> = Vec::new();
    let mut i: usize = 0;
    while i < path.len()
        invariant
            i <= path@.len(),
            string_views(parts@) == string_views(path@).take(i as int),
        decreases path.len() - i,
    {
        let x = path[i].clone();
        let ghost prev = parts@;
        parts.push(x);
        assert(string_views(parts@) =~= string_views(prev).push(x@));
        assert(string_views(path@).take(i + 1) =~= string_views(path@).take(i as int).push(path@[i as int]@));
        i = i + 1;
    }
    assert(string_views(path@).take(path@.len() as int) =~= string_views(path@));
    append(&mut out, &join_with(&chars_of_strings(&parts), &lit("/")));
    string_of(&out)
}

/// `/api/synapse/c4-doc/<element>?lesson=<path>`: an architecture element's tutorial doc,
/// kept next to the lesson that shows it.
pub fn c4_doc_endpoint(element_id: &str, lesson: &[String]) -> (url: String)
    ensures
        url@ == "/api/synapse/c4-doc/"@ + element_id@ + "?lesson="@ + join(string_views(lesson@), "/"@),
{
    let mut out = lit("/api/synapse/c4-doc/");
    append(&mut out, &chars_of(element_id));
    append(&mut out, &lit("?lesson="));
    let mut parts: Vec<String> = Vec::new();
    let mut i: usize = 0;
    while i < lesson.len()
        invariant
            i <= lesson@.len(),
            string_views(parts@) == string_views(lesson@).take(i as int),
        decreases lesson.len() - i,
    {
        let x = lesson[i].clone();
        let ghost prev = parts@;
        parts.push(x);
        assert(string_views(parts@) =~= string_views(prev).push(x@));
        assert(string_views(lesson@).take(i + 1) =~= string_views(lesson@).take(i as int).push(
            lesson@[i as int]@,
        ));
        i = i + 1;
    }
    assert(string_views(lesson@).take(lesson@.len() as int) =~= string_views(lesson@));
    append(&mut out, &join_with(&chars_of_strings(&parts), &lit("/")));
    string_of(&out)
}

/// `<prefix><name>`: an endpoint naming one resource.
fn named(prefix: &str, name: &str) -> (url: String)
    ensures
        url@ == prefix@ + name@,
{
    let mut out = chars_of(prefix);
    append(&mut out, &chars_of(name));
    string_of(&out)
}

/// `/api/submissions/<id>`: one submission, polled until it is judged.
pub fn submission_endpoint(id: &str) -> (url: String)
    ensures
        url@ == "/api/submissions/"@ + id@,
{
    named("/api/submissions/", id)
}

/// `/api/blog/<slug>`: one post with its body and neighbours.
pub fn blog_post_endpoint(slug: &str) -> (url: String)
    ensures
        url@ == "/api/blog/"@ + slug@,
{
    named("/api/blog/", slug)
}

/// `/api/admin/allowlist/<username>`: one allowlist entry.
pub fn allowlist_entry_endpoint(username: &str) -> (url: String)
    ensures
        url@ == "/api/admin/allowlist/"@ + username@,
{
    named("/api/admin/allowlist/", username)
}

/// The `Authorization` header value for a bearer token.
pub fn bearer_header(token: &str) -> (h: String)
    ensures
        h@ == "Bearer "@ + token@,
{
    named("Bearer ", token)
}

/// A refused request as the reader sees it: the server's error, with its detail after a colon
/// when it sent one.
pub fn error_message(error: &str, detail: Option<&str>) -> (m: String)
    ensures
        m@ == match detail {
            Some(d) => error@ + ": "@ + d@,
            None => error@,
        },
{
    let mut out = chars_of(error);
    match detail {
        Some(d) => {
            append(&mut out, &lit(": "));
            append(&mut out, &chars_of(d));
        },
        None => {},
    }
    string_of(&out)
}

/// A refused request whose body was not the server's error envelope: `HTTP <status>`.
pub fn http_status_message(status: u16) -> (m: String)
    ensures
        m@ == "HTTP "@ + decimal(status as nat),
{
    let mut out = lit("HTTP ");
    append(&mut out, &decimal_of(status as usize));
    string_of(&out)
}

} // verus!

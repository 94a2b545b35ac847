//! What cloning decides before it touches the network or the disk: the
//! remote's URL without credentials, the token taken from it, and the
//! directory the repository is cloned into.

use vstd::prelude::*;
use crate::error::GikError;
use crate::external::{chars_to_string, str_to_chars};
use crate::text::{
    copy_chars, ends_with, find_char, find_from, find_seq, find_seq_from, lemma_find_from_bounds,
    lemma_find_seq_from, lemma_rfind_char, matches_at, occurs_at, rfind_char, rfind_in,
    starts_with, trim_end_char, trimmed_len,
};

verus! {

/// A URL split into the URL without credentials and the token it carried.
/// Only an `http://` or `https://` URL with a single "://" is looked into;
/// its credentials are what stands before the first '@' after the "://".
/// Any other URL is kept as it is, with no token.
pub open spec fn spec_parse_url(url: Seq<char>) -> (Seq<char>, Option<Seq<char>>) {
    let sep = "://"@;
    if !starts_with(url, "https://"@) && !starts_with(url, "http://"@) {
        (url, None)
    } else {
        let p = find_seq_from(url, sep, 0);
        let rest = url.subrange(p + sep.len(), url.len() as int);
        if find_seq_from(rest, sep, 0) != -1 {
            (url, None)
        } else {
            let a = find_from(rest, 0, '@');
            if a < rest.len() {
                (url.subrange(0, p) + sep + rest.subrange(a + 1, rest.len() as int), Some(rest.subrange(0, a)))
            } else {
                (url, None)
            }
        }
    }
}

/// Splits the credentials off a remote URL: gives the clean URL and the
/// token found before '@', if any.
pub fn parse_url(url: &str) -> (r: (String, Option<String>))
    ensures
        r.0@ == spec_parse_url(url@).0,
        match r.1 {
            Some(t) => spec_parse_url(url@).1 == Some(t@),
            None => spec_parse_url(url@).1 is None,
        },
{
    let u = str_to_chars(url);
    let https = str_to_chars("https://");
    let http = str_to_chars("http://");
    let sep = str_to_chars("://");
    if !matches_at(u.as_slice(), https.as_slice(), 0) && !matches_at(u.as_slice(), http.as_slice(), 0) {
        return (chars_to_string(u.as_slice()), None);
    }
    proof {
        reveal_strlit("https://");
        reveal_strlit("http://");
        reveal_strlit("://");
        let s = u@;
        if starts_with(s, "https://"@) {
            let h = s.subrange(0, 8);
            assert(h[5] == ':' && h[6] == '/' && h[7] == '/');
            assert(s.subrange(5, 8) =~= "://"@);
            assert(occurs_at(s, "://"@, 5));
        } else {
            let h = s.subrange(0, 7);
            assert(h[4] == ':' && h[5] == '/' && h[6] == '/');
            assert(s.subrange(4, 7) =~= "://"@);
            assert(occurs_at(s, "://"@, 4));
        }
        lemma_find_seq_from(s, "://"@, 0);
    }
    let p = match find_seq(u.as_slice(), sep.as_slice(), 0) {
        Some(p) => p,
        None => {
            assert(false);
            0
        },
    };
    proof {
        lemma_find_seq_from(u@, sep@, 0);
    }
    let rest = copy_chars(u.as_slice(), p + 3, u.len());
    if find_seq(rest.as_slice(), sep.as_slice(), 0).is_some() {
        return (chars_to_string(u.as_slice()), None);
    }
    proof {
        lemma_find_from_bounds(rest@, 0, '@');
    }
    let a = find_char(rest.as_slice(), 0, '@');
    if a < rest.len() {
        let mut clean = copy_chars(u.as_slice(), 0, p);
        let host_path = copy_chars(rest.as_slice(), a + 1, rest.len());
        crate::text::push_chars(&mut clean, sep.as_slice());
        crate::text::push_chars(&mut clean, host_path.as_slice());
        let token = copy_chars(rest.as_slice(), 0, a);
        (chars_to_string(clean.as_slice()), Some(chars_to_string(token.as_slice())))
    } else {
        (chars_to_string(u.as_slice()), None)
    }
}

/// The name of the repository at a URL: its last path segment, trailing
/// slashes ignored and a ".git" suffix removed; `None` when there is no
/// slash or the name comes out empty.
pub open spec fn spec_repo_name(url: Seq<char>) -> Option<Seq<char>> {
    let t = trim_end_char(url, '/');
    let k = rfind_char(t, '/');
    if k < 0 {
        None
    } else {
        let n0 = t.subrange(k + 1, t.len() as int);
        let n = if ends_with(n0, ".git"@) { n0.subrange(0, n0.len() - ".git"@.len()) } else { n0 };
        if n.len() > 0 { Some(n) } else { None }
    }
}

/// The message given when no repository name can be found in a URL.
pub open spec fn repo_name_error() -> Seq<char> {
    "Could not extract repository name from URL"@
}

/// The directory name a clone of `url` goes into by default.
pub fn extract_repo_name(url: &str) -> (r: Result<String, GikError>)
    ensures
        match r {
            Ok(n) => spec_repo_name(url@) == Some(n@),
            Err(e) => spec_repo_name(url@) is None && (e matches GikError::Branch(m) && m@ == repo_name_error()),
        },
{
    let u = str_to_chars(url);
    let n = trimmed_len(u.as_slice(), '/');
    let ghost t = u@.subrange(0, n as int);
    match rfind_in(u.as_slice(), n, '/') {
        Some(k) => {
            proof {
                lemma_rfind_char(t, '/');
                assert(u@.subrange(k + 1, n as int) =~= t.subrange(k + 1, t.len() as int));
            }
            let name = copy_chars(u.as_slice(), k + 1, n);
            let git = str_to_chars(".git");
            let mut end = name.len();
            if name.len() >= git.len() && matches_at(name.as_slice(), git.as_slice(), name.len() - git.len()) {
                end = name.len() - git.len();
            }
            if end > 0 {
                let stripped = copy_chars(name.as_slice(), 0, end);
                assert(name@.subrange(0, name@.len() as int) =~= name@);
                return Ok(chars_to_string(stripped.as_slice()));
            }
        },
        None => {},
    }
    Err(GikError::Branch("Could not extract repository name from URL".to_string()))
}

/// Where a clone goes: the URL without credentials, the token it carried,
/// and the directory (the one given, else the repository's name).
pub fn clone_target(url: &str, directory: Option<String>) -> (r: Result<(String, Option<String>, String), GikError>)
    ensures
        match r {
            Ok((clean, token, dir)) => {
                &&& clean@ == spec_parse_url(url@).0
                &&& (match token {
                    Some(t) => spec_parse_url(url@).1 == Some(t@),
                    None => spec_parse_url(url@).1 is None,
                })
                &&& match directory {
                    Some(d) => dir@ == d@,
                    None => spec_repo_name(spec_parse_url(url@).0) == Some(dir@),
                }
            },
            Err(e) => directory is None && spec_repo_name(spec_parse_url(url@).0) is None
                && (e matches GikError::Branch(m) && m@ == repo_name_error()),
        },
{
    let (clean, token) = parse_url(url);
    let dir = match directory {
        Some(d) => d,
        None => match extract_repo_name(clean.as_str()) {
            Ok(n) => n,
            Err(e) => return Err(e),
        },
    };
    Ok((clean, token, dir))
}

} // verus!

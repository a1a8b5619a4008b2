//! Resolving a short project token from a remote URL, with a directory-name
//! fallback, used to build disambiguating index aliases.

use vstd::prelude::*;
use crate::text::{
    has_prefix, last_segment, rfind_end, spec_last_segment, spec_strip_suffix, spec_trim, str_eq,
    strip_prefix, strip_suffix_or_keep, trim,
};

verus! {

/// The project token denoted by a remote URL: for the two known GitHub
/// shapes, the URL without its prefix, without a trailing `.git`, reduced to
/// its final `/`-separated segment; for any other shape, the final segment
/// without a trailing `.git`.
pub open spec fn spec_extract_project(raw: Seq<char>) -> Seq<char> {
    let url = spec_trim(raw);
    if has_prefix(url, "git@github.com:"@) {
        spec_last_segment(
            spec_strip_suffix(
                url.subrange("git@github.com:"@.len() as int, url.len() as int),
                ".git"@,
            ),
            '/',
        )
    } else if has_prefix(url, "https://github.com/"@) {
        spec_last_segment(
            spec_strip_suffix(
                url.subrange("https://github.com/"@.len() as int, url.len() as int),
                ".git"@,
            ),
            '/',
        )
    } else {
        spec_strip_suffix(spec_last_segment(url, '/'), ".git"@)
    }
}

/// Extract the project token from a remote URL; every URL yields one.
pub fn extract_project_from_remote(remote_url: &str) -> (r: Option<String>)
    ensures
        r matches Some(p) && p@ == spec_extract_project(remote_url@),
{
    let url = trim(remote_url);
    match strip_prefix(url, "git@github.com:") {
        Some(t) => {
            let u = strip_suffix_or_keep(t, ".git");
            return Some(last_segment(u, '/').to_owned());
        },
        None => {},
    }
    match strip_prefix(url, "https://github.com/") {
        Some(t) => {
            let u = strip_suffix_or_keep(t, ".git");
            return Some(last_segment(u, '/').to_owned());
        },
        None => {},
    }
    let l = last_segment(url, '/');
    Some(strip_suffix_or_keep(l, ".git").to_owned())
}

/// `s` without its trailing path separators.
pub open spec fn trim_trailing_slashes(s: Seq<char>) -> Seq<char>
    decreases s.len(),
{
    if s.len() > 0 && s.last() == '/' {
        trim_trailing_slashes(s.drop_last())
    } else {
        s
    }
}

/// When everything from `b` on is a separator and `s[b-1]` is not, trimming
/// trailing separators keeps exactly the part before `b`.
proof fn lemma_trim_trailing_slashes_at(s: Seq<char>, b: int)
    requires
        0 <= b <= s.len(),
        forall|j: int| b <= j < s.len() ==> s[j] == '/',
        b > 0 ==> s[b - 1] != '/',
    ensures
        trim_trailing_slashes(s) == s.subrange(0, b),
    decreases s.len() - b,
{
    if b == s.len() {
        assert(s.subrange(0, s.len() as int) =~= s);
    } else {
        let t = s.drop_last();
        assert(forall|j: int| 0 <= j < t.len() ==> t[j] == s[j]);
        lemma_trim_trailing_slashes_at(t, b);
    }
}

/// The project token taken from a directory path: its final component, or
/// the literal token `unknown` when the path has none to offer.
pub open spec fn spec_dir_fallback(path: Seq<char>) -> Seq<char> {
    let seg = spec_last_segment(trim_trailing_slashes(path), '/');
    if seg.len() == 0 || seg == ".."@ || seg == "."@ {
        "unknown"@
    } else {
        seg
    }
}

/// The final component of a directory path, `unknown` when there is none.
fn dir_name_fallback(path: &str) -> (r: String)
    ensures
        r@ == spec_dir_fallback(path@),
{
    let n = path.unicode_len();
    let mut b: usize = n;
    while b > 0 && path.get_char(b - 1) == '/'
        invariant
            b <= n,
            n == path@.len(),
            forall|j: int| b <= j < n ==> path@[j] == '/',
        decreases b,
    {
        b = b - 1;
    }
    proof {
        lemma_trim_trailing_slashes_at(path@, b as int);
    }
    let stem = path.substring_char(0, b);
    let seg = last_segment(stem, '/');
    if seg.unicode_len() == 0 || str_eq(seg, "..") || str_eq(seg, ".") {
        "unknown".to_owned()
    } else {
        seg.to_owned()
    }
}

/// The project token for a working tree: from its remote URL when the remote
/// query succeeded, from its directory name otherwise; never fails.
pub fn project_name(remote_url: Option<&str>, dir_path: &str) -> (r: String)
    ensures
        r@ == spec_project_token(
            match remote_url {
                Some(u) => Some(u@),
                None => None,
            },
            dir_path@,
        ),
{
    match remote_url {
        Some(u) => {
            match extract_project_from_remote(u) {
                Some(p) => p,
                None => dir_name_fallback(dir_path),
            }
        },
        None => dir_name_fallback(dir_path),
    }
}

/// The project token: what the remote URL denotes when one was obtained,
/// the directory fallback otherwise.
pub open spec fn spec_project_token(remote_url: Option<Seq<char>>, dir_path: Seq<char>) -> Seq<
    char,
> {
    match remote_url {
        Some(u) => spec_extract_project(u),
        None => spec_dir_fallback(dir_path),
    }
}

} // verus!

use vstd::prelude::*;
use vstd::string::{StrSliceExecFns, StringExecFns};

use super::error::DownloadError;

verus! {

/// The path of the URL that `reqwest::Url::parse` (the `url` crate) makes of
/// `url`, or `None` where parsing fails.
pub uninterp spec fn url_path(url: Seq<char>) -> Option<Seq<char>>;

/// Calls `reqwest::Url::parse` and reads the parsed URL's `path()`.
///
/// Trusted: the result is `url_path` of the argument; nothing more is claimed
/// about URL parsing.
#[verifier::external_body]
fn parsed_url_path(url: &str) -> (path: Option<String>)
    ensures
        match path {
            Some(p) => url_path(url@) == Some(p@),
            None => url_path(url@) is None,
        },
{
    reqwest::Url::parse(url).ok().map(|parsed| parsed.path().to_string())
}

/// The part of `s` after its last `/` (all of `s` when it has none).
pub open spec fn after_last_slash(s: Seq<char>) -> Seq<char>
    decreases s.len(),
{
    if s.len() == 0 {
        s
    } else if s.last() == '/' {
        Seq::empty()
    } else {
        after_last_slash(s.drop_last()).push(s.last())
    }
}

/// The part after the last `/` is the longest end of `s` that holds no `/`:
/// it is an end of `s`, holds no `/`, and is either all of `s` or comes
/// right after a `/`.
pub proof fn lemma_after_last_slash_is_last_piece(s: Seq<char>)
    ensures
        after_last_slash(s).len() <= s.len(),
        after_last_slash(s) == s.subrange(s.len() - after_last_slash(s).len(), s.len() as int),
        forall|i: int| 0 <= i < after_last_slash(s).len() ==> #[trigger] after_last_slash(s)[i] != '/',
        after_last_slash(s).len() < s.len() ==> s[s.len() - after_last_slash(s).len() - 1] == '/',
    decreases s.len(),
{
    if s.len() == 0 {
        assert(s.subrange(0, 0) =~= s);
    } else if s.last() == '/' {
        assert(s.subrange(s.len() as int, s.len() as int) =~= Seq::<char>::empty());
    } else {
        let init = s.drop_last();
        lemma_after_last_slash_is_last_piece(init);
        let r = after_last_slash(init);
        assert(after_last_slash(s) == r.push(s.last()));
        assert(r.push(s.last()) =~= s.subrange(s.len() - (r.len() + 1), s.len() as int)) by {
            assert(r =~= init.subrange(init.len() - r.len(), init.len() as int));
        }
        assert forall|i: int| 0 <= i < r.len() + 1 implies #[trigger] r.push(s.last())[i] != '/' by {
            if i < r.len() {
                assert(r.push(s.last())[i] == r[i]);
            }
        }
        if r.len() < init.len() {
            assert(init[init.len() - r.len() - 1] == s[s.len() - (r.len() + 1) - 1]);
        }
    }
}

/// Last of the `/`-separated path segments, following `Url::path_segments`:
/// there are segments only when the path starts with `/`, and they are the
/// pieces of the rest of the path between slashes.
pub open spec fn last_path_segment(path: Seq<char>) -> Option<Seq<char>> {
    if path.len() > 0 && path[0] == '/' {
        Some(after_last_slash(path.drop_first()))
    } else {
        None
    }
}

/// The filename a URL path gives: its last segment, when there is one and it
/// is not empty.
pub open spec fn filename_of_path(path: Option<Seq<char>>) -> Option<Seq<char>> {
    match path {
        Some(p) => match last_path_segment(p) {
            Some(seg) => if seg.len() > 0 {
                Some(seg)
            } else {
                None
            },
            None => None,
        },
        None => None,
    }
}

/// The characters of an optional string.
pub open spec fn view_of(s: Option<&str>) -> Option<Seq<char>> {
    match s {
        Some(t) => Some(t@),
        None => None,
    }
}

/// Index just past the last `/` of `s`, or 0 when `s` has none.
fn after_last_slash_index(s: &str) -> (idx: usize)
    ensures
        idx <= s@.len(),
        s@.subrange(idx as int, s@.len() as int) == after_last_slash(s@),
{
    let len = s.unicode_len();
    let mut j: usize = len;
    assert(s@.take(len as int) =~= s@);
    assert(after_last_slash(s@) + s@.subrange(len as int, len as int) =~= after_last_slash(s@));
    while j > 0 && s.get_char(j - 1) != '/'
        invariant
            len == s@.len(),
            j <= len,
            after_last_slash(s@) == after_last_slash(s@.take(j as int)) + s@.subrange(
                j as int,
                len as int,
            ),
        decreases j,
    {
        proof {
            let t = s@.take(j as int);
            assert(t.drop_last() =~= s@.take(j - 1));
            assert(t.last() == s@[j - 1]);
            assert(after_last_slash(s@.take(j - 1)).push(s@[j - 1]) + s@.subrange(j as int, len as int)
                =~= after_last_slash(s@.take(j - 1)) + s@.subrange(j - 1, len as int));
        }
        j = j - 1;
    }
    proof {
        if j > 0 {
            assert(s@.take(j as int).last() == '/');
        }
        assert(after_last_slash(s@.take(j as int)) =~= Seq::<char>::empty());
        assert(after_last_slash(s@) =~= s@.subrange(j as int, len as int));
    }
    j
}

/// The filename a parsed URL path gives (see [`url_to_filename`]).
pub fn filename_from_url_path(path: Option<&str>) -> (name: Result<String, DownloadError>)
    ensures
        match name {
            Ok(n) => filename_of_path(view_of(path)) == Some(n@),
            Err(e) => filename_of_path(view_of(path)) is None && e is NoFilename,
        },
{
    match path {
        None => Err(DownloadError::NoFilename),
        Some(p) => {
            let len = p.unicode_len();
            if len == 0 || p.get_char(0) != '/' {
                return Err(DownloadError::NoFilename);
            }
            let rest = p.substring_char(1, len);
            assert(rest@ =~= p@.drop_first());
            let idx = after_last_slash_index(rest);
            let rest_len = rest.unicode_len();
            if idx == rest_len {
                return Err(DownloadError::NoFilename);
            }
            let segment = rest.substring_char(idx, rest_len);
            Ok(String::from_str(segment))
        },
    }
}

/// Extract a usable filename from a URL: the last segment of its path.
///
/// Fails with [`DownloadError::NoFilename`] when the URL does not parse, its
/// path has no segments, or the last segment is empty.
pub fn url_to_filename(url: &str) -> (name: Result<String, DownloadError>)
    ensures
        match name {
            Ok(n) => filename_of_path(url_path(url@)) == Some(n@),
            Err(e) => filename_of_path(url_path(url@)) is None && e is NoFilename,
        },
{
    let path = parsed_url_path(url);
    match &path {
        Some(p) => filename_from_url_path(Some(p.as_str())),
        None => filename_from_url_path(None),
    }
}

} // verus!

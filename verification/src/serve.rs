//! Request handling of the development server: which file a URL names and
//! which content type a file extension has. A URL never names a file
//! outside the build directory: paths with `..` segments are refused.

use vstd::prelude::*;
use vstd::string::*;

use crate::site::{replace_all, replace_from};
use crate::text::{
    char_from, chars_of, find_char, lemma_char_from, str_eq, string_from, string_of_range, sub_chars,
    trim_start_char,
};

verus! {

/// Path named by a request URL, relative to the build directory: the part
/// before any query string, `%20` decoded to a space, leading slashes removed.
pub open spec fn url_path(url: Seq<char>) -> Seq<char> {
    let path = match char_from(url, '?', 0) {
        Some(k) => url.take(k),
        None => url,
    };
    trim_start_char(replace_from(path, "%20"@, " "@, 0), '/')
}

/// A `..` path segment starts at index `i` of `p`.
pub open spec fn parent_segment_at(p: Seq<char>, i: int) -> bool {
    &&& 0 <= i
    &&& i + 2 <= p.len()
    &&& (i == 0 || p[i - 1] == '/')
    &&& p[i] == '.'
    &&& p[i + 1] == '.'
    &&& (i + 2 == p.len() || p[i + 2] == '/')
}

/// The path has a `..` segment.
pub open spec fn has_parent_segment(p: Seq<char>) -> bool {
    exists|i: int| #[trigger] parent_segment_at(p, i)
}

/// The path a request URL names inside the build directory; none when it
/// has a `..` segment, which could lead out of it.
pub open spec fn request_path_of(url: Seq<char>) -> Option<Seq<char>> {
    let p = url_path(url);
    if has_parent_segment(p) {
        None
    } else {
        Some(p)
    }
}

proof fn lemma_trim_start_char_first(s: Seq<char>, c: char)
    ensures
        trim_start_char(s, c).len() > 0 ==> trim_start_char(s, c)[0] != c,
    decreases s.len(),
{
    if s.len() > 0 && s[0] == c {
        lemma_trim_start_char_first(s.drop_first(), c);
    }
}

/// Path named by a request URL, relative to the build directory; `None`
/// when it has a `..` segment. A path handed out stays inside the build
/// directory: it is relative and has no `..` segment.
pub fn request_path(url: &str) -> (r: Option<String>)
    ensures
        r matches Some(p) ==> request_path_of(url@) == Some(p@),
        r is None ==> request_path_of(url@) is None,
        r matches Some(p) ==> !has_parent_segment(p@) && (p@.len() > 0 ==> p@[0] != '/'),
{
    let cs = chars_of(url);
    proof {
        lemma_char_from(cs@, '?', 0);
    }
    let path = match find_char(cs.as_slice(), '?', 0) {
        Some(k) => {
            let p = string_of_range(cs.as_slice(), 0, k);
            assert(cs@.subrange(0, k as int) =~= cs@.take(k as int));
            p
        },
        None => string_from(cs.as_slice()),
    };
    let pct = "%20";
    proof {
        reveal_strlit("%20");
    }
    let decoded = replace_all(path.as_str(), pct, " ");
    let ds = chars_of(decoded.as_str());
    let mut a: usize = 0;
    assert(ds@.skip(0) =~= ds@);
    while a < ds.len() && ds[a] == '/'
        invariant
            a <= ds@.len(),
            trim_start_char(ds@, '/') == trim_start_char(ds@.skip(a as int), '/'),
        decreases ds@.len() - a,
    {
        assert(ds@.skip(a as int).drop_first() =~= ds@.skip(a + 1));
        a += 1;
    }
    let ps = sub_chars(ds.as_slice(), a, ds.len());
    assert(ds@.subrange(a as int, ds@.len() as int) =~= ds@.skip(a as int));
    proof {
        lemma_trim_start_char_first(ds@, '/');
    }
    let ghost p = ps@;
    assert(p == url_path(url@));
    let n = ps.len();
    let mut i: usize = 0;
    while i < n
        invariant
            n == ps@.len(),
            p == ps@,
            p == url_path(url@),
            i <= n,
            forall|j: int| 0 <= j < i ==> !#[trigger] parent_segment_at(p, j),
        decreases n - i,
    {
        if (i == 0 || ps[i - 1] == '/') && i + 1 < n && ps[i] == '.' && ps[i + 1] == '.' && (i + 2 == n || ps[i
            + 2] == '/') {
            assert(parent_segment_at(p, i as int));
            return None;
        }
        i += 1;
    }
    assert forall|j: int| !#[trigger] parent_segment_at(p, j) by {
        if 0 <= j < n {
        }
    }
    Some(string_from(ps.as_slice()))
}

/// Content type of a file extension.
pub open spec fn mime_of(ext: Seq<char>) -> Seq<char> {
    if ext == "html"@ {
        "text/html; charset=utf-8"@
    } else if ext == "css"@ {
        "text/css; charset=utf-8"@
    } else if ext == "js"@ {
        "application/javascript"@
    } else if ext == "png"@ {
        "image/png"@
    } else if ext == "svg"@ {
        "image/svg+xml"@
    } else if ext == "ico"@ {
        "image/x-icon"@
    } else if ext == "wasm"@ {
        "application/wasm"@
    } else if ext == "woff2"@ {
        "font/woff2"@
    } else if ext == "ttf"@ {
        "font/ttf"@
    } else {
        "application/octet-stream"@
    }
}

/// Content type of a file extension.
pub fn mime_type(ext: &str) -> (r: &'static str)
    ensures
        r@ == mime_of(ext@),
{
    if str_eq(ext, "html") {
        "text/html; charset=utf-8"
    } else if str_eq(ext, "css") {
        "text/css; charset=utf-8"
    } else if str_eq(ext, "js") {
        "application/javascript"
    } else if str_eq(ext, "png") {
        "image/png"
    } else if str_eq(ext, "svg") {
        "image/svg+xml"
    } else if str_eq(ext, "ico") {
        "image/x-icon"
    } else if str_eq(ext, "wasm") {
        "application/wasm"
    } else if str_eq(ext, "woff2") {
        "font/woff2"
    } else if str_eq(ext, "ttf") {
        "font/ttf"
    } else {
        "application/octet-stream"
    }
}

} // verus!

//! Where a downloaded enclosure is written: a file named after the last segment
//! of the URL's path.

use vstd::prelude::*;
use vstd::string::StrSliceExecFns;

verus! {

/// The file name used when the URL's path has no non-empty segment.
pub const DEFAULT_FILE_NAME: &'static str = "downloaded_file";

pub open spec fn default_file_name() -> Seq<char> {
    seq!['d', 'o', 'w', 'n', 'l', 'o', 'a', 'd', 'e', 'd', '_', 'f', 'i', 'l', 'e']
}

/// The first position at or after `i` where a query (`?`) or fragment (`#`)
/// begins, or the length of `u` when there is none.
pub open spec fn query_from(u: Seq<char>, i: int) -> int
    decreases u.len() - i,
{
    if i >= u.len() {
        u.len() as int
    } else if u[i] == '?' || u[i] == '#' {
        i
    } else {
        query_from(u, i + 1)
    }
}

/// `u` holds `://` at position `k`.
pub open spec fn is_scheme_sep(u: Seq<char>, k: int) -> bool {
    u[k] == ':' && u[k + 1] == '/' && u[k + 2] == '/'
}

/// The first position at or after `i` where `://` stands before `e`, or `e`.
pub open spec fn scheme_sep_from(u: Seq<char>, e: int, i: int) -> int
    decreases e - i,
{
    if e - i < 3 {
        e
    } else if is_scheme_sep(u, i) {
        i
    } else {
        scheme_sep_from(u, e, i + 1)
    }
}

/// The first position at or after `i` where `/` stands before `e`, or `e`.
pub open spec fn slash_from(u: Seq<char>, e: int, i: int) -> int
    decreases e - i,
{
    if i >= e {
        e
    } else if u[i] == '/' {
        i
    } else {
        slash_from(u, e, i + 1)
    }
}

/// Where the path of `u` begins: after `scheme://host`, at the first `/`; at the
/// start for a URL without a scheme.
pub open spec fn path_start(u: Seq<char>) -> int {
    let e = query_from(u, 0);
    let s = scheme_sep_from(u, e, 0);
    if s < e {
        slash_from(u, e, s + 3)
    } else {
        0
    }
}

/// The end of `u[lo..e]` once trailing slashes are dropped.
pub open spec fn trim_slashes(u: Seq<char>, lo: int, e: int) -> int
    decreases e - lo,
{
    if e > lo && u[e - 1] == '/' {
        trim_slashes(u, lo, e - 1)
    } else {
        e
    }
}

/// Where the segment of `u[lo..e]` that ends at `e` begins: just after the
/// last `/`, or at `lo`.
pub open spec fn segment_begin(u: Seq<char>, lo: int, e: int) -> int
    decreases e - lo,
{
    if e > lo && u[e - 1] != '/' {
        segment_begin(u, lo, e - 1)
    } else {
        e
    }
}

/// The last non-empty segment of the path of `u`, without query or fragment;
/// empty when the path has none.
pub open spec fn last_path_segment(u: Seq<char>) -> Seq<char> {
    let lo = path_start(u);
    let t = trim_slashes(u, lo, query_from(u, 0));
    u.subrange(segment_begin(u, lo, t), t)
}

/// The name of the file that the enclosure at `u` is saved as: the last segment
/// of its path, or the default name when the path has none.
pub open spec fn file_name_for(u: Seq<char>) -> Seq<char> {
    if last_path_segment(u).len() == 0 {
        default_file_name()
    } else {
        last_path_segment(u)
    }
}

/// The name of the file that the enclosure at `url` is saved as.
pub fn download_file_name(url: &str) -> (r: String)
    ensures
        r@ == file_name_for(url@),
{
    let ghost u = url@;
    let n = url.unicode_len();
    let mut e: usize = 0;
    while e < n && url.get_char(e) != '?' && url.get_char(e) != '#'
        invariant
            n == u.len(),
            u == url@,
            e <= n,
            query_from(u, e as int) == query_from(u, 0),
        decreases n - e,
    {
        e = e + 1;
    }
    let mut s: usize = 0;
    while s <= e && e - s >= 3 && !(url.get_char(s) == ':' && url.get_char(s + 1) == '/'
        && url.get_char(s + 2) == '/')
        invariant
            n == u.len(),
            u == url@,
            e <= n,
            e == query_from(u, 0),
            s <= e,
            scheme_sep_from(u, e as int, s as int) == scheme_sep_from(u, e as int, 0),
        decreases e - s,
    {
        s = s + 1;
    }
    let lo: usize = if e - s >= 3 {
        let mut p: usize = s + 3;
        while p < e && url.get_char(p) != '/'
            invariant
                n == u.len(),
                u == url@,
                e <= n,
                s + 3 <= p <= e,
                slash_from(u, e as int, p as int) == slash_from(u, e as int, s + 3),
            decreases e - p,
        {
            p = p + 1;
        }
        p
    } else {
        0
    };
    assert(lo == path_start(u));
    let mut t: usize = e;
    while t > lo && url.get_char(t - 1) == '/'
        invariant
            n == u.len(),
            u == url@,
            lo <= t <= e <= n,
            trim_slashes(u, lo as int, t as int) == trim_slashes(u, lo as int, e as int),
        decreases t,
    {
        t = t - 1;
    }
    let mut b: usize = t;
    while b > lo && url.get_char(b - 1) != '/'
        invariant
            n == u.len(),
            u == url@,
            lo <= b <= t <= n,
            segment_begin(u, lo as int, b as int) == segment_begin(u, lo as int, t as int),
        decreases b,
    {
        b = b - 1;
    }
    if b == t {
        proof {
            reveal_strlit("downloaded_file");
        }
        DEFAULT_FILE_NAME.to_owned()
    } else {
        url.substring_char(b, t).to_owned()
    }
}

} // verus!

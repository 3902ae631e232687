//! Rules for serving the embedded single-page UI: which asset a request
//! path names, and how long browsers may cache it.
use vstd::prelude::*;

use crate::fs_ops::{skip_char_from, without_leading_slashes};
use crate::handlers::content_type;
use crate::text::{chars_eq_str, chars_of, has_prefix, slice_to_vec, starts_with_str, string_of};

verus! {

/// The embedded asset a request path names: the path without its leading
/// slashes, `index.html` for the root.
pub open spec fn asset_name(path: Seq<char>) -> Seq<char> {
    let p = without_leading_slashes(path);
    if p.len() == 0 {
        "index.html"@
    } else {
        p
    }
}

pub fn asset_candidate(path: &str) -> (r: String)
    ensures
        r@ == asset_name(path@),
{
    let v = chars_of(path);
    let mut start: usize = 0;
    while start < v.len() && v[start] == '/'
        invariant
            0 <= start <= v@.len(),
            skip_char_from(v@, '/', start as int) == skip_char_from(v@, '/', 0),
        decreases v@.len() - start,
    {
        start = start + 1;
    }
    if start == v.len() {
        return string_of(chars_of("index.html").as_slice());
    }
    let p = slice_to_vec(v.as_slice(), start, v.len());
    proof {
        assert(p@ =~= without_leading_slashes(path@));
    }
    string_of(p.as_slice())
}

/// `Cache-Control` of an asset: `index.html` is never cached so deploys
/// flip atomically; hashed files under `assets/` are cached forever; the
/// rest for five minutes.
pub open spec fn cache_policy(name: Seq<char>) -> Seq<char> {
    if name == "index.html"@ {
        "no-cache, must-revalidate"@
    } else if has_prefix(name, "assets/"@) {
        "public, max-age=31536000, immutable"@
    } else {
        "public, max-age=300"@
    }
}

pub fn cache_control_for(name: &str) -> (r: String)
    ensures
        r@ == cache_policy(name@),
{
    let n = chars_of(name);
    let policy = if chars_eq_str(n.as_slice(), "index.html") {
        "no-cache, must-revalidate"
    } else if starts_with_str(n.as_slice(), "assets/") {
        "public, max-age=31536000, immutable"
    } else {
        "public, max-age=300"
    };
    string_of(chars_of(policy).as_slice())
}

/// Headers of an asset answer: its MIME type and its cache policy.
pub fn asset_headers(name: &str) -> (r: (String, String))
    ensures
        r.0@ == content_type(name@, false) || r.0@ == content_type(name@, true),
        r.1@ == cache_policy(name@),
{
    (crate::handlers::content_type_for(name), cache_control_for(name))
}

} // verus!

//! Decisions about how static assets are served.
use vstd::prelude::*;
use crate::text::{ascii_lower, ascii_lower_seq, chars_of, contains_text, has_infix, text_eq};

verus! {

/// `s` ends with `p`.
pub open spec fn ends_with(s: Seq<char>, p: Seq<char>) -> bool {
    p.len() <= s.len() && s.subrange(s.len() - p.len(), s.len() as int) == p
}

/// Paths worth compressing: text assets by extension, in any case, and the
/// root.
pub open spec fn gzip_compressible(path: Seq<char>) -> bool {
    let p = ascii_lower_seq(path);
    ||| ends_with(p, ".html"@)
    ||| ends_with(p, ".js"@)
    ||| ends_with(p, ".css"@)
    ||| ends_with(p, ".json"@)
    ||| ends_with(p, ".svg"@)
    ||| ends_with(p, ".txt"@)
    ||| ends_with(p, ".map"@)
    ||| p == "/"@
}

fn lowered(s: &str) -> (r: Vec<char>)
    ensures
        r@ == ascii_lower_seq(s@),
{
    let v = chars_of(s);
    let mut r: Vec<char> = Vec::new();
    let mut k: usize = 0;
    while k < v.len()
        invariant
            v@ == s@,
            k <= v@.len(),
            r@ == ascii_lower_seq(v@.subrange(0, k as int)),
        decreases v@.len() - k,
    {
        let c = v[k];
        let l = if 'A' <= c && c <= 'Z' {
            ((c as u8) + 32) as char
        } else {
            c
        };
        assert(l == ascii_lower(c));
        r.push(l);
        assert(r@ =~= ascii_lower_seq(v@.subrange(0, k + 1)));
        k = k + 1;
    }
    assert(v@.subrange(0, v@.len() as int) =~= v@);
    r
}

fn vec_ends_with(v: &Vec<char>, p: &str) -> (r: bool)
    ensures
        r == ends_with(v@, p@),
{
    let w = chars_of(p);
    if w.len() > v.len() {
        return false;
    }
    let off = v.len() - w.len();
    let mut k: usize = 0;
    while k < w.len()
        invariant
            w@ == p@,
            off + w@.len() == v@.len(),
            v@.len() <= usize::MAX,
            k <= w@.len(),
            forall|i: int| 0 <= i < k ==> v@[off + i] == w@[i],
        decreases w@.len() - k,
    {
        if v[off + k] != w[k] {
            assert(v@.subrange(off as int, v@.len() as int)[k as int] != w@[k as int]);
            return false;
        }
        k = k + 1;
    }
    assert(v@.subrange(off as int, v@.len() as int) =~= w@);
    true
}

/// Whether the asset at `request_path` is worth compressing.
pub fn path_is_gzip_compressible(request_path: &str) -> (r: bool)
    ensures
        r == gzip_compressible(request_path@),
{
    let p = lowered(request_path);
    let root = vec_ends_with(&p, "/") && p.len() == 1;
    proof {
        reveal_strlit("/");
        if p@.len() == 1 && ends_with(p@, "/"@) {
            assert(p@ =~= p@.subrange(0, 1));
            assert(p@ =~= "/"@);
        }
        if p@ == "/"@ {
            assert(p@.subrange(0, 1) =~= p@);
        }
    }
    vec_ends_with(&p, ".html") || vec_ends_with(&p, ".js") || vec_ends_with(&p, ".css")
        || vec_ends_with(&p, ".json") || vec_ends_with(&p, ".svg") || vec_ends_with(&p, ".txt")
        || vec_ends_with(&p, ".map") || root
}

/// `s` starts with `p`.
pub open spec fn starts_with(s: Seq<char>, p: Seq<char>) -> bool {
    p.len() <= s.len() && s.subrange(0, p.len() as int) == p
}

/// The `Cache-Control` policy of a served path: the SPA entry point (a
/// fallback, `/` or an `index.html`) is revalidated, hashed assets under
/// `/assets/` are immutable for a year, anything else is cached for an hour.
pub open spec fn cache_policy(path: Seq<char>, is_fallback: bool) -> Seq<char> {
    if is_fallback || path == "/"@ || ends_with(path, "/index.html"@) {
        "no-cache"@
    } else if starts_with(path, "/assets/"@) {
        "public, max-age=31536000, immutable"@
    } else {
        "public, max-age=3600"@
    }
}

fn vec_starts_with(v: &Vec<char>, p: &str) -> (r: bool)
    ensures
        r == starts_with(v@, p@),
{
    let w = chars_of(p);
    if w.len() > v.len() {
        return false;
    }
    let mut k: usize = 0;
    while k < w.len()
        invariant
            w@ == p@,
            w@.len() <= v@.len(),
            k <= w@.len(),
            forall|i: int| 0 <= i < k ==> v@[i] == w@[i],
        decreases w@.len() - k,
    {
        if v[k] != w[k] {
            assert(v@.subrange(0, w@.len() as int)[k as int] != w@[k as int]);
            return false;
        }
        k = k + 1;
    }
    assert(v@.subrange(0, w@.len() as int) =~= w@);
    true
}

/// The `Cache-Control` value for `request_path`.
pub fn cache_control_for(request_path: &str, is_fallback: bool) -> (r: String)
    ensures
        r@ == cache_policy(request_path@, is_fallback),
{
    let v = chars_of(request_path);
    if is_fallback || text_eq(request_path, "/") || vec_ends_with(&v, "/index.html") {
        "no-cache".to_owned()
    } else if vec_starts_with(&v, "/assets/") {
        "public, max-age=31536000, immutable".to_owned()
    } else {
        "public, max-age=3600".to_owned()
    }
}

/// Whether `request_path` names a WebAssembly module, served as
/// `application/wasm`.
pub fn is_wasm_path(request_path: &str) -> (r: bool)
    ensures
        r == ends_with(request_path@, ".wasm"@),
{
    let v = chars_of(request_path);
    vec_ends_with(&v, ".wasm")
}

/// Whether an `Accept-Encoding` header, when present, admits gzip.
pub fn accepts_gzip(accept_encoding: Option<&str>) -> (r: bool)
    ensures
        r == (accept_encoding matches Some(h) && has_infix(h@, "gzip"@)),
{
    match accept_encoding {
        Some(h) => contains_text(h, "gzip"),
        None => false,
    }
}

} // verus!

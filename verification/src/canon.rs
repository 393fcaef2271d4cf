//! The URL canonicalizer: turns an href found on a page into the single
//! canonical identity used for deduplication and traversal.
//!
//! Canonical form: an absolute URL serialization with the fragment removed
//! and every trailing `'/'` stripped. Fragment-only hrefs (`#section`) are
//! discarded outright; hrefs that parse neither on their own nor against
//! the base are reported as malformed and dropped by the caller.
//!
//! The actual RFC 3986 / WHATWG reference resolution is delegated to the
//! `url` crate behind the trusted wrappers below; the policy around it
//! (fragment discard, trailing-slash stripping, absolute-before-relative)
//! is verified.

use vstd::prelude::*;

use crate::strutil::lemma_strip_prefix;
use crate::strutil::strip_slashes_spec;
use crate::strutil::strip_trailing_slashes;

verus! {

// ------------------------------------------------------------------
// Scheme detection
// ------------------------------------------------------------------
/// ASCII alphabetic, the only characters that may start a URL scheme.
pub open spec fn is_alpha(c: char) -> bool {
    ('a' <= c && c <= 'z') || ('A' <= c && c <= 'Z')
}

/// Characters allowed in a URL scheme after the first one.
pub open spec fn is_scheme_char(c: char) -> bool {
    is_alpha(c) || ('0' <= c && c <= '9') || c == '+' || c == '-' || c == '.'
}

/// `s` starts with a URL scheme followed by `':'`: an ASCII letter and
/// then any run of scheme characters up to a colon.
pub open spec fn has_scheme_prefix(s: Seq<char>) -> bool {
    exists|i: int|
        #![trigger s[i]]
        1 <= i < s.len() && s[i] == ':' && is_alpha(s[0]) && (forall|j: int|
            1 <= j < i ==> is_scheme_char(#[trigger] s[j]))
}

/// A Windows drive path such as `c:\dir`, which looks like a scheme but
/// is not treated as an absolute URL.
pub open spec fn is_windows_drive_path(s: Seq<char>) -> bool {
    s.len() >= 3 && is_alpha(s[0]) && s[1] == ':' && s[2] == '\\'
}

/// An href with its own scheme, excluding Windows drive paths.
pub open spec fn is_absolute_spec(s: Seq<char>) -> bool {
    !is_windows_drive_path(s) && has_scheme_prefix(s)
}

/// A fragment-only reference: the href starts with `'#'`.
pub open spec fn is_fragment_href(h: Seq<char>) -> bool {
    h.len() > 0 && h[0] == '#'
}

fn char_is_alpha(c: char) -> (r: bool)
    ensures
        r == is_alpha(c),
{
    ('a' <= c && c <= 'z') || ('A' <= c && c <= 'Z')
}

fn char_is_scheme(c: char) -> (r: bool)
    ensures
        r == is_scheme_char(c),
{
    char_is_alpha(c) || ('0' <= c && c <= '9') || c == '+' || c == '-' || c == '.'
}

/// Whether `s` begins with `scheme:`.
pub fn has_scheme_prefix_str(s: &str) -> (r: bool)
    ensures
        r == has_scheme_prefix(s@),
{
    let n = s.unicode_len();
    if n == 0 {
        return false;
    }
    if !char_is_alpha(s.get_char(0)) {
        return false;
    }
    let mut j: usize = 1;
    while j < n
        invariant
            1 <= j <= n,
            n == s@.len(),
            is_alpha(s@[0]),
            forall|k: int| 1 <= k < j ==> is_scheme_char(#[trigger] s@[k]) && s@[k] != ':',
        decreases n - j,
    {
        let c = s.get_char(j);
        if c == ':' {
            assert(s@[j as int] == ':');
            return true;
        }
        if !char_is_scheme(c) {
            assert forall|i: int|
                #![trigger s@[i]]
                !(1 <= i < s@.len() && s@[i] == ':' && is_alpha(s@[0]) && (forall|k: int|
                    1 <= k < i ==> is_scheme_char(#[trigger] s@[k]))) by {
                if 1 <= i < s@.len() && s@[i] == ':' {
                    if i <= j {
                        assert(s@[i] != ':');
                    } else {
                        assert(!(forall|k: int| 1 <= k < i ==> is_scheme_char(#[trigger] s@[k])))
                            by {
                            assert(1 <= j < i && !is_scheme_char(s@[j as int]));
                        }
                    }
                }
            }
            return false;
        }
        j += 1;
    }
    assert forall|i: int|
        #![trigger s@[i]]
        !(1 <= i < s@.len() && s@[i] == ':' && is_alpha(s@[0]) && (forall|k: int|
            1 <= k < i ==> is_scheme_char(#[trigger] s@[k]))) by {
        if 1 <= i < s@.len() {
            assert(s@[i] != ':');
        }
    }
    false
}

/// Whether `s` is an absolute URL reference: it carries its own scheme
/// and is not a Windows drive path.
pub fn is_absolute_str(s: &str) -> (r: bool)
    ensures
        r == is_absolute_spec(s@),
{
    let n = s.unicode_len();
    if n >= 3 && char_is_alpha(s.get_char(0)) && s.get_char(1) == ':' && s.get_char(2) == '\\' {
        return false;
    }
    has_scheme_prefix_str(s)
}

// ------------------------------------------------------------------
// Trusted boundary: reference resolution by the `url` crate
// ------------------------------------------------------------------
/// What `url::Url::parse` produces for a string, after the fragment is
/// removed: the serialization of the parsed absolute URL, or `None` when
/// the string does not parse as an absolute URL.
pub uninterp spec fn parse_norm_of(s: Seq<char>) -> Option<Seq<char>>;

/// What resolving `href` against the URL parsed from `base` produces,
/// after the fragment is removed: the serialization of the joined URL, or
/// `None` when `base` does not parse or the join fails.
pub uninterp spec fn join_norm_of(base: Seq<char>, href: Seq<char>) -> Option<Seq<char>>;

/// The domain name under which a URL's host is serialized, or `None`
/// when the string does not parse or its host is absent or an IP address.
pub uninterp spec fn domain_of(s: Seq<char>) -> Option<Seq<char>>;

/// Relies on `url::Url::parse`, `Url::set_fragment(None)` and
/// `Url::as_str` of the `url` crate: the result is the fragment-free
/// serialization of the parsed absolute URL, `None` when parsing fails.
/// The crate's own invariant check (`Url::check_invariants`) states that
/// every serialization starts with an alphabetic scheme followed by `':'`
/// and re-parses to exactly the same serialization, which gives the last
/// two clauses.
#[verifier::external_body]
pub(crate) fn parse_defrag(s: &str) -> (r: Option<String>)
    ensures
        match r {
            Some(t) => parse_norm_of(s@) == Some(t@),
            None => parse_norm_of(s@) is None,
        },
        r matches Some(t) ==> has_scheme_prefix(t@),
        r matches Some(t) ==> parse_norm_of(t@) == Some(t@),
{
    match url::Url::parse(s) {
        Ok(mut u) => {
            u.set_fragment(None);
            Some(u.as_str().to_string())
        },
        Err(_) => None,
    }
}

/// Relies on `url::Url::parse` of the base followed by `Url::join` of the
/// `url` crate (WHATWG relative-reference resolution), then
/// `Url::set_fragment(None)` and `Url::as_str`, exactly as `parse_defrag`
/// does; the resulting serialization obeys the same crate invariants.
#[verifier::external_body]
fn join_defrag(base: &str, href: &str) -> (r: Option<String>)
    ensures
        match r {
            Some(t) => join_norm_of(base@, href@) == Some(t@),
            None => join_norm_of(base@, href@) is None,
        },
        r matches Some(t) ==> has_scheme_prefix(t@),
        r matches Some(t) ==> parse_norm_of(t@) == Some(t@),
{
    match url::Url::parse(base) {
        Ok(b) => match b.join(href) {
            Ok(mut u) => {
                u.set_fragment(None);
                Some(u.as_str().to_string())
            },
            Err(_) => None,
        },
        Err(_) => None,
    }
}

/// Relies on `url::Url::parse` and `Url::domain` of the `url` crate:
/// `domain` returns the host exactly when it is a domain name, as the
/// slice of the serialization that holds it.
#[verifier::external_body]
pub fn url_domain(s: &str) -> (r: Option<String>)
    ensures
        match r {
            Some(d) => domain_of(s@) == Some(d@),
            None => domain_of(s@) is None,
        },
{
    match url::Url::parse(s) {
        Ok(u) => u.domain().map(|d| d.to_string()),
        Err(_) => None,
    }
}

// ------------------------------------------------------------------
// Resolution policy: absolute hrefs parse as-is, others join the base
// ------------------------------------------------------------------
/// The fragment-free serialization an href resolves to: its own parse
/// when it is absolute, otherwise the join against `base`.
pub open spec fn resolve_spec(base: Seq<char>, href: Seq<char>) -> Option<Seq<char>> {
    if parse_norm_of(href) is Some {
        parse_norm_of(href)
    } else {
        join_norm_of(base, href)
    }
}

pub(crate) fn resolve(base: &str, href: &str) -> (r: Option<String>)
    ensures
        match r {
            Some(t) => resolve_spec(base@, href@) == Some(t@) && has_scheme_prefix(t@)
                && parse_norm_of(t@) == Some(t@),
            None => resolve_spec(base@, href@) is None,
        },
{
    match parse_defrag(href) {
        Some(t) => Some(t),
        None => join_defrag(base, href),
    }
}

// ------------------------------------------------------------------
// Canonicalization
// ------------------------------------------------------------------
/// The canonical URL an href denotes against a base, when it denotes one:
/// fragment-only hrefs denote none, unresolvable hrefs denote none, and
/// the rest resolve and then lose their trailing slashes.
pub open spec fn canon_of(base: Seq<char>, href: Seq<char>) -> Option<Seq<char>> {
    if is_fragment_href(href) {
        None
    } else {
        match resolve_spec(base, href) {
            Some(t) => Some(strip_slashes_spec(t)),
            None => None,
        }
    }
}

/// The three outcomes of canonicalizing one href.
#[derive(Debug)]
pub enum CanonOutcome {
    /// The href was a same-page fragment reference and is discarded.
    Fragment,
    /// The href parses neither alone nor against the base.
    Malformed,
    /// The canonical URL the href denotes.
    Url(String),
}

/// Stripping trailing slashes never destroys the scheme prefix.
pub proof fn lemma_strip_keeps_scheme(s: Seq<char>)
    requires
        has_scheme_prefix(s),
    ensures
        has_scheme_prefix(strip_slashes_spec(s)),
        strip_slashes_spec(s).len() >= 2,
{
    let i = choose|i: int|
        #![trigger s[i]]
        1 <= i < s.len() && s[i] == ':' && is_alpha(s[0]) && (forall|j: int|
            1 <= j < i ==> is_scheme_char(#[trigger] s[j]));
    lemma_strip_prefix(s);
    let t = strip_slashes_spec(s);
    if i >= t.len() {
        assert(s[i] == '/');
        assert(false);
    }
    assert(t[i] == ':');
    assert(t[0] == s[0]);
    assert forall|j: int| 1 <= j < i implies is_scheme_char(#[trigger] t[j]) by {
        assert(t[j] == s[j]);
    }
}

/// Canonicalize `href` against the page URL `base`: discard fragment-only
/// hrefs, resolve the rest, strip the fragment and trailing slashes.
pub fn canonicalize(base: &str, href: &str) -> (r: CanonOutcome)
    ensures
        (r is Fragment) <==> is_fragment_href(href@),
        (r is Malformed) <==> (!is_fragment_href(href@) && resolve_spec(base@, href@) is None),
        r matches CanonOutcome::Url(u) ==> canon_of(base@, href@) == Some(u@)
            && has_scheme_prefix(u@) && u@.len() >= 2 && strip_slashes_spec(u@) == u@,
        canon_of(base@, href@) matches Some(c) ==> (r matches CanonOutcome::Url(u) && u@ == c),
{
    let n = href.unicode_len();
    if n > 0 && href.get_char(0) == '#' {
        return CanonOutcome::Fragment;
    }
    match resolve(base, href) {
        Some(t) => {
            proof {
                lemma_strip_keeps_scheme(t@);
                crate::strutil::lemma_strip_idempotent(t@);
            }
            CanonOutcome::Url(strip_trailing_slashes(&t))
        },
        None => CanonOutcome::Malformed,
    }
}

// ------------------------------------------------------------------
// Origin
// ------------------------------------------------------------------
/// Position of the first `':'` in `s` at or after `i`.
pub open spec fn first_colon(s: Seq<char>, i: int) -> Option<int>
    decreases s.len() - i,
    when 0 <= i <= s.len()
{
    if i >= s.len() {
        None
    } else if s[i] == ':' {
        Some(i)
    } else {
        first_colon(s, i + 1)
    }
}

/// First position at or after `i` holding `'/'` or `'?'`, or the length.
pub open spec fn seg_end(s: Seq<char>, i: int) -> int
    decreases s.len() - i,
    when 0 <= i <= s.len()
{
    if i >= s.len() {
        s.len() as int
    } else if s[i] == '/' || s[i] == '?' {
        i
    } else {
        seg_end(s, i + 1)
    }
}

proof fn lemma_seg_end_bounds(s: Seq<char>, i: int)
    requires
        0 <= i <= s.len(),
    ensures
        i <= seg_end(s, i) <= s.len(),
    decreases s.len() - i,
{
    if i < s.len() && !(s[i] == '/' || s[i] == '?') {
        lemma_seg_end_bounds(s, i + 1);
    }
}

/// The origin of a URL serialization: scheme, `"://"` and the authority,
/// up to but excluding the first `'/'` or `'?'` after it. URLs without an
/// authority (`mailto:`...) have no origin.
pub open spec fn origin_of(u: Seq<char>) -> Option<Seq<char>> {
    match first_colon(u, 0) {
        Some(i) => if i + 3 <= u.len() && u[i + 1] == '/' && u[i + 2] == '/' {
            Some(u.subrange(0, seg_end(u, i + 3)))
        } else {
            None
        },
        None => None,
    }
}

/// Whether `u` lies on the origin `origin`.
pub open spec fn same_origin(u: Seq<char>, origin: Seq<char>) -> bool {
    origin_of(u) == Some(origin)
}

/// Extract the origin of a URL string, if it has one.
pub fn origin_str(u: &str) -> (r: Option<String>)
    ensures
        match r {
            Some(o) => origin_of(u@) == Some(o@),
            None => origin_of(u@) is None,
        },
{
    let n = u.unicode_len();
    let mut j: usize = 0;
    while j < n && u.get_char(j) != ':'
        invariant
            0 <= j <= n,
            n == u@.len(),
            first_colon(u@, 0) == first_colon(u@, j as int),
            forall|k: int| 0 <= k < j ==> u@[k] != ':',
        decreases n - j,
    {
        j += 1;
    }
    if j >= n {
        assert(first_colon(u@, 0) is None);
        return None;
    }
    assert(first_colon(u@, 0) == Some(j as int));
    if !(n - j >= 3 && u.get_char(j + 1) == '/' && u.get_char(j + 2) == '/') {
        return None;
    }
    let mut e: usize = j + 3;
    while e < n && u.get_char(e) != '/' && u.get_char(e) != '?'
        invariant
            j + 3 <= e <= n,
            n == u@.len(),
            seg_end(u@, j + 3) == seg_end(u@, e as int),
        decreases n - e,
    {
        e += 1;
    }
    assert(seg_end(u@, j + 3) == e as int);
    let o = u.substring_char(0, e);
    Some(o.to_owned())
}

/// Whether the URL `u` has origin `origin`, by extracting and comparing.
pub fn same_origin_check(u: &String, origin: &String) -> (r: bool)
    ensures
        r == same_origin(u@, origin@),
{
    match origin_str(u.as_str()) {
        Some(o) => o == *origin,
        None => false,
    }
}

// ------------------------------------------------------------------
// Idempotence
// ------------------------------------------------------------------
/// `u` is in canonical form: it has a scheme, it re-parses, and its
/// re-parsed serialization strips back to `u` itself.
pub open spec fn is_canonical(u: Seq<char>) -> bool {
    has_scheme_prefix(u) && match parse_norm_of(u) {
        Some(t) => strip_slashes_spec(t) == u,
        None => false,
    }
}

/// Canonicalization is idempotent: a URL already in canonical form
/// canonicalizes to itself, against any base whatsoever.
pub proof fn lemma_canonicalize_idempotent(base: Seq<char>, u: Seq<char>)
    requires
        is_canonical(u),
    ensures
        canon_of(base, u) == Some(u),
{
    let i = choose|i: int|
        #![trigger u[i]]
        1 <= i < u.len() && u[i] == ':' && is_alpha(u[0]) && (forall|j: int|
            1 <= j < i ==> is_scheme_char(#[trigger] u[j]));
    assert(u[0] != '#');
    assert(!is_fragment_href(u));
}

/// Runtime witness of canonical form: `u` has a scheme and re-parses to a
/// serialization that strips back to `u`.
pub fn is_canonical_url(u: &String) -> (r: bool)
    ensures
        r == is_canonical(u@),
{
    if !has_scheme_prefix_str(u.as_str()) {
        return false;
    }
    match parse_defrag(u.as_str()) {
        Some(t) => {
            let s = strip_trailing_slashes(&t);
            s == *u
        },
        None => false,
    }
}

/// Canonicalize a URL that is already canonical: checks canonical form at
/// run time and, when it holds, returns the canonicalization — which is
/// guaranteed to be `u` itself.
pub fn canonicalize_if_canonical(base: &str, u: &String) -> (r: Option<String>)
    ensures
        match r {
            Some(v) => is_canonical(u@) && v@ == u@ && canon_of(base@, u@) == Some(u@),
            None => !is_canonical(u@),
        },
{
    if is_canonical_url(u) {
        proof {
            lemma_canonicalize_idempotent(base@, u@);
        }
        match canonicalize(base, u.as_str()) {
            CanonOutcome::Url(v) => Some(v),
            CanonOutcome::Fragment => {
                proof {
                    assert(false);
                }
                None
            },
            CanonOutcome::Malformed => {
                proof {
                    assert(false);
                }
                None
            },
        }
    } else {
        None
    }
}

} // verus!

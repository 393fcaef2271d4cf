//! Small helpers around the traversal: where an artifact is saved, and
//! the domain name of a URL.

use vstd::prelude::*;

use crate::canon::domain_of;
use crate::canon::url_domain;

verus! {

/// The directory and full file path under which an artifact for `url`
/// with the given key and format is saved.
pub fn save_target(url: &str, key: &str, format: &str) -> (r: (String, String))
    ensures
        r.0@ == "./link-walker/data/urls/"@ + url@,
        r.1@ == "./link-walker/data/urls/"@ + url@ + "/"@ + url@ + "-"@ + key@ + "."@
            + format@,
{
    let mut dir = String::from_str("./link-walker/data/urls/");
    dir.append(url);
    let mut path = dir.clone();
    path.append("/");
    path.append(url);
    path.append("-");
    path.append(key);
    path.append(".");
    path.append(format);
    (dir, path)
}

/// The domain name of `url`, or a message naming the URL when it has
/// none (it does not parse, or its host is absent or an IP address).
pub fn get_domain_name(url: String) -> (r: String)
    ensures
        match domain_of(url@) {
            Some(d) => r@ == d,
            None => r@ == "Cannot resolve domain for "@ + url@,
        },
{
    match url_domain(url.as_str()) {
        Some(d) => d,
        None => {
            let mut m = String::from_str("Cannot resolve domain for ");
            m.append(url.as_str());
            m
        },
    }
}

} // verus!

use walker::canon::canonicalize;
use walker::canon::canonicalize_if_canonical;
use walker::canon::has_scheme_prefix_str;
use walker::canon::is_absolute_str;
use walker::canon::is_canonical_url;
use walker::canon::origin_str;
use walker::canon::same_origin_check;
use walker::canon::CanonOutcome;
use walker::utils::get_domain_name;
use walker::utils::save_target;
use walker::walker::Args;
use walker::walker::URLs;

fn fresh_args() -> Args {
    Args::new(
        "https://example.test/".to_string(),
        true,
        false,
        URLs::new(),
    )
}

fn canon_url(base: &str, href: &str) -> String {
    match canonicalize(base, href) {
        CanonOutcome::Url(u) => u,
        other => panic!("expected a canonical URL, got {:?}", other),
    }
}

#[test]
fn root_relative_href_resolves_against_base() {
    assert_eq!(
        canon_url("https://example.test/", "/docs"),
        "https://example.test/docs"
    );
}

#[test]
fn dot_relative_href_pops_directories() {
    assert_eq!(
        canon_url("https://example.test/a/c", "../b"),
        "https://example.test/b"
    );
    assert_eq!(
        canon_url("https://example.test/a/c/", "./d"),
        "https://example.test/a/c/d"
    );
}

#[test]
fn absolute_href_is_parsed_as_is() {
    assert_eq!(
        canon_url("https://example.test/deep/page", "https://other.test/x"),
        "https://other.test/x"
    );
}

#[test]
fn fragment_only_href_is_discarded() {
    assert!(matches!(
        canonicalize("https://example.test/", "#section"),
        CanonOutcome::Fragment
    ));
    assert!(matches!(
        canonicalize("https://example.test/", "#"),
        CanonOutcome::Fragment
    ));
}

#[test]
fn fragment_is_stripped_from_canonical_form() {
    assert_eq!(
        canon_url("https://example.test/", "/page#part"),
        "https://example.test/page"
    );
}

#[test]
fn trailing_slashes_are_stripped() {
    assert_eq!(
        canon_url("https://example.test/", "https://example.test/a/"),
        "https://example.test/a"
    );
    assert_eq!(
        canon_url("https://example.test/", "https://example.test/"),
        "https://example.test"
    );
}

#[test]
fn malformed_href_is_reported_not_fatal() {
    assert!(matches!(
        canonicalize("https://example.test/", "http://["),
        CanonOutcome::Malformed
    ));
    assert!(matches!(
        canonicalize("not a base", "also not a url"),
        CanonOutcome::Malformed
    ));
}

#[test]
fn canonicalization_is_idempotent() {
    let bases = ["https://example.test/", "http://elsewhere.test/sub/"];
    let hrefs = [
        "/docs",
        "../x/y",
        "https://other.test/a/?q=1",
        "https://example.test/",
        "page#frag",
    ];
    for base in bases {
        for href in hrefs {
            let once = canon_url(base, href);
            let twice = canon_url("https://unrelated.test/", &once);
            assert_eq!(once, twice, "canonicalizing {once} again changed it");
            assert!(is_canonical_url(&once));
            assert_eq!(
                canonicalize_if_canonical("https://unrelated.test/", &once),
                Some(once)
            );
        }
    }
}

#[test]
fn scheme_detection_matches_url_shape() {
    assert!(has_scheme_prefix_str("https://a"));
    assert!(has_scheme_prefix_str("mailto:a@b.com"));
    assert!(has_scheme_prefix_str("x+y-z.9:rest"));
    assert!(!has_scheme_prefix_str("/docs"));
    assert!(!has_scheme_prefix_str("./x"));
    assert!(!has_scheme_prefix_str("9http://a"));
    assert!(!has_scheme_prefix_str(""));
    assert!(!has_scheme_prefix_str("no colon here"));
}

#[test]
fn windows_drive_paths_are_not_absolute_urls() {
    assert!(!is_absolute_str("c:\\temp\\file"));
    assert!(is_absolute_str("c:/not-windows"));
    assert!(is_absolute_str("https://a"));
    assert!(!is_absolute_str("relative/path"));
}

#[test]
fn origin_is_scheme_and_authority() {
    assert_eq!(
        origin_str("https://example.test/a/b?q"),
        Some("https://example.test".to_string())
    );
    assert_eq!(
        origin_str("https://example.test:8080/a"),
        Some("https://example.test:8080".to_string())
    );
    assert_eq!(origin_str("mailto:a@b.com"), None);
    assert!(same_origin_check(
        &"https://example.test/deep/link".to_string(),
        &"https://example.test".to_string()
    ));
    assert!(!same_origin_check(
        &"https://other.test/deep/link".to_string(),
        &"https://example.test".to_string()
    ));
}

#[test]
fn remove_fragment_normalizes_and_defragments() {
    let args = fresh_args();
    assert_eq!(
        args.remove_fragment("https://example.test/p#x".to_string()),
        Some("https://example.test/p".to_string())
    );
    assert_eq!(args.remove_fragment("not a url".to_string()), None);
}

#[test]
fn get_effective_href_joins_against_seed() {
    let args = fresh_args();
    assert_eq!(
        args.get_effective_href("walker".to_string()),
        Some("https://example.test/walker".to_string())
    );
    assert_eq!(args.get_effective_href("http://[".to_string()), None);
}

#[test]
fn relative_url_classification() {
    let args = fresh_args();
    assert!(args.is_relative_url("/walker"));
    assert!(args.is_relative_url("../walker"));
    assert!(!args.is_relative_url("https://example.test/walker"));
    assert!(args.is_absolute_url("ftp://example.test"));
}

#[test]
fn base_url_clears_path_and_query() {
    let args = fresh_args();
    assert_eq!(
        args.base_url("https://example.test/a/b?q=1".to_string()),
        Ok("https://example.test/".to_string())
    );
    assert_eq!(
        args.base_url("mailto:x@y.test".to_string()),
        Err("Cannot base URL".to_string())
    );
    assert_eq!(
        args.base_url("###".to_string()),
        Err("Cannot base URL".to_string())
    );
}

#[test]
fn remove_trailing_slashes_strips_all() {
    let args = fresh_args();
    assert_eq!(
        args.remove_trailing_slashes("https://a.test///".to_string()),
        "https://a.test"
    );
    assert_eq!(args.remove_trailing_slashes("".to_string()), "");
    assert_eq!(args.remove_trailing_slashes("///".to_string()), "");
}

#[test]
fn domain_name_of_url() {
    assert_eq!(
        get_domain_name("https://sub.example.com/x".to_string()),
        "sub.example.com"
    );
    assert_eq!(
        get_domain_name("https://127.0.0.1/".to_string()),
        "Cannot resolve domain for https://127.0.0.1/"
    );
    assert_eq!(
        get_domain_name("not a url".to_string()),
        "Cannot resolve domain for not a url"
    );
}

#[test]
fn save_target_builds_artifact_paths() {
    let (dir, path) = save_target("example.test", "links", "json");
    assert_eq!(dir, "./link-walker/data/urls/example.test");
    assert_eq!(
        path,
        "./link-walker/data/urls/example.test/example.test-links.json"
    );
}

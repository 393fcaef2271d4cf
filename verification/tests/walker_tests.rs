use walker::walker::Args;
use walker::walker::Page;
use walker::walker::URLs;

fn page(url: &str, hrefs: &[&str]) -> Page {
    Page {
        url: url.to_string(),
        hrefs: hrefs.iter().map(|h| h.to_string()).collect(),
    }
}

fn engine(seed: &str, follow: bool) -> Args {
    let mut args = Args::new(seed.to_string(), follow, false, URLs::new());
    args.init().expect("seed should parse");
    args
}

fn assert_set(urls: &URLs, expected: &[&str]) {
    for e in expected {
        assert!(
            urls.contains(&e.to_string()),
            "expected {e} to be in the set"
        );
    }
    assert_eq!(urls.len(), expected.len());
}

/// Drive the engine by hand, returning the result set and the pages that
/// were fetched, in order.
fn drive(args: &mut Args, pages: &Vec<Page>) -> Vec<String> {
    let mut fetched = Vec::new();
    while let Some(u) = args.next_url() {
        let links = pages.iter().find(|p| p.url == u);
        match links {
            Some(p) => args.on_page(&u, &p.hrefs),
            None => args.on_page(&u, &Vec::new()),
        }
        fetched.push(u);
    }
    fetched
}

#[test]
fn seed_scenario_with_cycle_and_offsite_leaf() {
    // Seed page links to /docs; /docs links back to the seed (a cycle)
    // and to an off-site URL.
    let pages = vec![
        page("https://example.test", &["/docs"]),
        page(
            "https://example.test/docs",
            &["https://example.test/", "https://other.test/x"],
        ),
    ];
    let mut args = engine("https://example.test/", true);
    let results = args.walk_sync(&pages);
    assert_set(
        &results,
        &["https://example.test/docs", "https://other.test/x"],
    );
    assert_set(
        args.registry_urls(),
        &["https://example.test", "https://example.test/docs"],
    );
}

#[test]
fn extractor_runs_exactly_once_per_same_origin_page() {
    let pages = vec![
        page("https://example.test", &["/docs"]),
        page(
            "https://example.test/docs",
            &["https://example.test/", "https://other.test/x"],
        ),
        // A decoy page for the off-site URL: were the engine ever to
        // fetch it, its link would leak into the results.
        page("https://other.test/x", &["https://example.test/leaked"]),
    ];
    let mut args = engine("https://example.test/", true);
    let fetched = drive(&mut args, &pages);
    assert_eq!(
        fetched,
        vec![
            "https://example.test".to_string(),
            "https://example.test/docs".to_string()
        ]
    );
    let results = args.found_urls();
    assert!(!results.contains(&"https://example.test/leaked".to_string()));
    assert_set(
        results,
        &["https://example.test/docs", "https://other.test/x"],
    );
}

#[test]
fn cycle_between_two_pages_terminates() {
    let pages = vec![
        page("https://a.test", &["/b"]),
        page("https://a.test/b", &["https://a.test/"]),
    ];
    let mut args = engine("https://a.test/", true);
    let fetched = drive(&mut args, &pages);
    assert_eq!(fetched.len(), 2);
    assert_set(args.found_urls(), &["https://a.test/b"]);
}

#[test]
fn self_loop_fetches_once() {
    let pages = vec![page("https://a.test", &["https://a.test/", "/x"])];
    let mut args = engine("https://a.test/", true);
    let fetched = drive(&mut args, &pages);
    assert_eq!(fetched.len(), 2); // the seed and /x, each exactly once
    assert_set(args.found_urls(), &["https://a.test/x"]);
}

#[test]
fn differently_spelled_hrefs_deduplicate() {
    let pages = vec![page(
        "https://example.test",
        &["/a", "./a", "https://example.test/a/"],
    )];
    let mut args = engine("https://example.test/", true);
    let results = args.walk_sync(&pages);
    assert_set(&results, &["https://example.test/a"]);
}

#[test]
fn off_site_links_are_leaves() {
    let pages = vec![
        page("https://example.test", &["https://other.test/a"]),
        page("https://other.test/a", &["https://other.test/b"]),
    ];
    let mut args = engine("https://example.test/", true);
    let fetched = drive(&mut args, &pages);
    // Only the seed is same-origin, so only the seed is fetched.
    assert_eq!(fetched, vec!["https://example.test".to_string()]);
    assert_set(args.found_urls(), &["https://other.test/a"]);
}

#[test]
fn fragment_hrefs_never_reach_the_results() {
    let pages = vec![page("https://example.test", &["#top", "#section", "#"])];
    let mut args = engine("https://example.test/", true);
    let results = args.walk_sync(&pages);
    assert_eq!(results.len(), 0);
}

#[test]
fn mailto_and_fragment_page() {
    // The fragment href contributes nothing; the mailto link is recorded
    // as a leaf (it is never fetched) and is skipped by the probe plan.
    let pages = vec![page("https://example.test", &["mailto:a@b.com", "#top"])];
    let mut args = engine("https://example.test/", true);
    let fetched = drive(&mut args, &pages);
    assert_eq!(fetched, vec!["https://example.test".to_string()]);
    assert_set(args.found_urls(), &["mailto:a@b.com"]);
}

#[test]
fn breadth_one_mode_records_without_recursing() {
    let pages = vec![
        page("https://example.test", &["/a"]),
        page("https://example.test/a", &["/b"]),
    ];
    let mut args = engine("https://example.test/", false);
    let fetched = drive(&mut args, &pages);
    assert_eq!(fetched, vec!["https://example.test".to_string()]);
    assert_set(args.found_urls(), &["https://example.test/a"]);
}

#[test]
fn malformed_hrefs_are_absorbed_locally() {
    let pages = vec![page("https://example.test", &["http://[", "/ok"])];
    let mut args = engine("https://example.test/", true);
    let results = args.walk_sync(&pages);
    assert_set(&results, &["https://example.test/ok"]);
}

#[test]
fn unfetchable_same_origin_page_is_a_dead_end() {
    // /gone is enqueued but no page exists for it: the traversal
    // continues and completes.
    let pages = vec![page("https://example.test", &["/gone", "/here"])];
    let mut args = engine("https://example.test/", true);
    let fetched = drive(&mut args, &pages);
    assert_eq!(fetched.len(), 3);
    assert_set(
        args.found_urls(),
        &["https://example.test/gone", "https://example.test/here"],
    );
}

#[test]
fn bad_seed_is_fatal() {
    let mut args = Args::new("not a url".to_string(), true, false, URLs::new());
    assert!(args.init().is_err());
    let mut args = Args::new("mailto:a@b.com".to_string(), true, false, URLs::new());
    // No authority, hence no origin to bound the traversal.
    assert!(args.init().is_err());
}

#[test]
fn registry_set_deduplicates_and_strips() {
    let mut urls = URLs::new();
    urls.insert_and_remove_trailing_slashes("https://a.test/x/".to_string());
    urls.insert_and_remove_trailing_slashes("https://a.test/x".to_string());
    urls.insert_and_remove_trailing_slashes("https://a.test/x//".to_string());
    urls.insert_and_remove_trailing_slashes("".to_string());
    assert_eq!(urls.len(), 1);
    assert!(urls.contains(&"https://a.test/x".to_string()));
    assert!(!urls.contains(&"https://a.test/x/".to_string()));
}

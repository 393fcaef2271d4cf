use walker::json::urls_to_json_pretty;
use walker::liveness::merge_outcomes;
use walker::liveness::plan_probes;
use walker::liveness::is_probe_url;
use walker::liveness::LinkOutcome;
use walker::parse::parse;
use walker::parse::records_to_json;
use walker::parse::FinalStatus;
use walker::stats::Stats;
use walker::strutil::usize_to_string;
use walker::walker::URLs;

fn url_set(items: &[&str]) -> URLs {
    let mut urls = URLs::new();
    for i in items {
        urls.insert_and_remove_trailing_slashes(i.to_string());
    }
    urls
}

/// What serde_json would print for the same array of strings.
fn serde_pretty_strings(items: &[&str]) -> String {
    let values: Vec<serde_json::Value> = items
        .iter()
        .map(|s| serde_json::Value::String(s.to_string()))
        .collect();
    serde_json::to_string_pretty(&serde_json::Value::Array(values)).unwrap()
}

#[test]
fn url_array_matches_serde_json_pretty_output() {
    let urls = url_set(&["https://a.test/x", "https://b.test/y"]);
    assert_eq!(
        urls_to_json_pretty(&urls),
        serde_pretty_strings(&["https://a.test/x", "https://b.test/y"])
    );
}

#[test]
fn empty_url_array_serializes_as_empty_brackets() {
    assert_eq!(urls_to_json_pretty(&URLs::new()), "[]");
}

#[test]
fn json_escaping_matches_serde_json() {
    let tricky = "https://a.test/?q=\"x\\y\"\nplus\tcontrol\u{1}";
    let urls = url_set(&[tricky]);
    assert_eq!(urls_to_json_pretty(&urls), serde_pretty_strings(&[tricky]));
}

#[test]
fn parse_builds_status_records() {
    let report = "https://a.test/x: 200 OK\nERROR: operation timed out\n".to_string();
    assert_eq!(
        parse(report),
        "[\n  {\n    \"url\": \"https://a.test/x\",\n    \"status\": \"200 OK\"\n  },\n  {\n    \"url\": \"ERROR\",\n    \"status\": \"operation timed out\"\n  }\n]"
    );
}

#[test]
fn parse_skips_lines_without_two_fields() {
    assert_eq!(parse("".to_string()), "[]");
    assert_eq!(parse("just one field\n\n".to_string()), "[]");
    assert_eq!(
        parse("lonely\nhttps://a.test: 404 Not Found".to_string()),
        "[\n  {\n    \"url\": \"https://a.test\",\n    \"status\": \"404 Not Found\"\n  }\n]"
    );
}

#[test]
fn records_serialize_like_serde_json() {
    let v = vec![
        FinalStatus {
            url: "https://a.test".to_string(),
            status: "200 OK".to_string(),
        },
        FinalStatus {
            url: "https://b.test".to_string(),
            status: "500 Internal Server Error".to_string(),
        },
    ];
    assert_eq!(
        records_to_json(&v),
        "[\n  {\n    \"url\": \"https://a.test\",\n    \"status\": \"200 OK\"\n  },\n  {\n    \"url\": \"https://b.test\",\n    \"status\": \"500 Internal Server Error\"\n  }\n]"
    );
}

#[test]
fn stats_markdown_has_exact_shape() {
    let stats = Stats::new("3".to_string(), "11".to_string(), 42);
    assert_eq!(
        stats.to_markdown(),
        "## Stats \nTime to get 42 links: **3** seconds\n\nTime to verify 42 links: **11** seconds"
    );
}

#[test]
fn stats_text_has_exact_shape() {
    let stats = Stats::new("3".to_string(), "11".to_string(), 2);
    assert_eq!(
        stats.to_text(),
        "Stats:\nTime to get 2 links: 3 seconds\nTime to verify 2 links: 11 seconds"
    );
}

#[test]
fn decimal_rendering_matches_std_formatting() {
    for n in [0usize, 7, 10, 42, 999, 1000, 1234567, usize::MAX] {
        assert_eq!(usize_to_string(n), format!("{}", n));
    }
}

#[test]
fn probe_plan_skips_non_http_schemes() {
    let urls = url_set(&[
        "https://a.test/x",
        "mailto:a@b.com",
        "http://b.test",
        "file:///tmp/x",
        "ftp://c.test",
    ]);
    let plan = plan_probes(&urls);
    assert_eq!(
        plan.to_probe,
        vec!["https://a.test/x".to_string(), "http://b.test".to_string()]
    );
    assert_eq!(
        plan.skipped,
        vec![
            "mailto:a@b.com".to_string(),
            "file:///tmp/x".to_string(),
            "ftp://c.test".to_string()
        ]
    );
}

#[test]
fn probe_url_detection_is_exact() {
    assert!(is_probe_url(&"http://a".to_string()));
    assert!(is_probe_url(&"https://a".to_string()));
    assert!(!is_probe_url(&"http:/a".to_string()));
    assert!(!is_probe_url(&"httpx://a".to_string()));
    assert!(!is_probe_url(&"mailto:a@b.com".to_string()));
    assert!(!is_probe_url(&"".to_string()));
    assert!(!is_probe_url(&"http".to_string()));
}

#[test]
fn timed_out_probe_becomes_failure_record() {
    let probed = vec![(
        "https://slow.test/x".to_string(),
        Err::<u16, String>("operation timed out".to_string()),
    )];
    let skipped = vec!["mailto:a@b.com".to_string()];
    let report = merge_outcomes(&probed, &skipped);
    assert_eq!(report.len(), 2);
    assert_eq!(report[0].url, "https://slow.test/x");
    assert!(
        matches!(&report[0].outcome, LinkOutcome::Failed(m) if m == "operation timed out")
    );
    assert_eq!(report[1].url, "mailto:a@b.com");
    assert!(matches!(report[1].outcome, LinkOutcome::Skipped));
}

#[test]
fn successful_probe_becomes_status_record() {
    let probed = vec![
        ("https://a.test".to_string(), Ok::<u16, String>(200)),
        ("https://b.test".to_string(), Ok::<u16, String>(404)),
    ];
    let report = merge_outcomes(&probed, &Vec::new());
    assert_eq!(report.len(), 2);
    assert!(matches!(report[0].outcome, LinkOutcome::Status(200)));
    assert!(matches!(report[1].outcome, LinkOutcome::Status(404)));
}

use simple_crawler::errors::{CrawlError, FetchError};
use simple_crawler::frontier::Frontier;
use simple_crawler::page::Page;
use simple_crawler::utils::{check_base_url, normalise_url};
use simple_crawler::SimpleCrawler;

fn seeded(url: &str) -> SimpleCrawler {
    SimpleCrawler::new().url(url).expect("seed URL must be accepted")
}

#[test]
fn add_url_test() {
    let url = "https://test.com";
    let simple_crawler = seeded(url);
    assert_eq!(simple_crawler.base_url().as_str(), "https://test.com/");
    assert_eq!(simple_crawler.urls.len(), 1);
    let page = simple_crawler.urls.get(url).expect("seed must be present");
    assert_eq!(page.body().as_str(), "");
    assert!(!page.crawled());
}

#[test]
fn get_urls_test() {
    let url = "https://test.com";
    let mut simple_crawler = seeded(url);
    simple_crawler
        .urls
        .mark_fetched(url, "<a href=\"https://test.com/test_url\">aaa</a>");
    let simple_crawler = simple_crawler.get_urls();
    assert_eq!(simple_crawler.urls.len(), 2);
    let consumed = simple_crawler.urls.get(url).expect("seed must remain");
    assert!(consumed.crawled());
    assert_eq!(consumed.body().as_str(), "");
    let found = simple_crawler
        .urls
        .get("https://test.com/test_url")
        .expect("extracted link must be inserted");
    assert!(!found.crawled());
    assert_eq!(found.body().as_str(), "");
}

#[test]
fn url_rejects_invalid_base() {
    assert_eq!(
        SimpleCrawler::new().url("not a url").unwrap_err(),
        CrawlError::InvalidBaseUrl
    );
    assert!(check_base_url("no scheme here").is_err());
    assert_eq!(
        check_base_url("https://test.com").unwrap(),
        "https://test.com/"
    );
}

#[test]
fn url_filters_later_additions() {
    let crawler = seeded("https://test.com")
        .url("https://other.com/page")
        .expect("parseable URL is not an error")
        .url("https://test.com/kept")
        .expect("same-host URL is accepted");
    let mut keys = crawler.urls.keys();
    keys.sort();
    assert_eq!(
        keys,
        vec![
            "https://test.com".to_owned(),
            "https://test.com/kept".to_owned()
        ]
    );
}

#[test]
fn normalise_url_accepts_same_host() {
    assert_eq!(
        normalise_url("https://test.com/", "https://test.com/a"),
        Some("https://test.com/a".to_owned())
    );
}

#[test]
fn normalise_url_rejects_cross_host() {
    assert_eq!(normalise_url("https://test.com/", "https://other.com/a"), None);
}

#[test]
fn normalise_url_rejects_query_and_fragment() {
    assert_eq!(
        normalise_url("https://test.com/", "https://test.com/a?b=1"),
        None
    );
    assert_eq!(
        normalise_url("https://test.com/", "https://test.com/a#frag"),
        None
    );
    assert_eq!(normalise_url("https://test.com/", "/a?b=1"), None);
    assert_eq!(normalise_url("https://test.com/", "/a#frag"), None);
}

#[test]
fn normalise_url_synthesizes_relative() {
    assert_eq!(
        normalise_url("https://test.com/", "/about"),
        Some("https://test.com/about".to_owned())
    );
    assert_eq!(normalise_url("https://test.com/", "about"), None);
    assert_eq!(normalise_url("not a url", "/about"), None);
}

#[test]
fn normalise_url_is_idempotent_on_accepted_urls() {
    let base = "https://test.com/";
    let absolute = normalise_url(base, "https://test.com/a").unwrap();
    assert_eq!(normalise_url(base, absolute.as_str()), Some(absolute.clone()));
    let synthesized = normalise_url(base, "/x").unwrap();
    assert_eq!(
        normalise_url(base, synthesized.as_str()),
        Some(synthesized.clone())
    );
}

#[test]
fn insert_if_absent_is_idempotent() {
    let mut frontier = Frontier::new();
    assert!(frontier.insert_if_absent("https://test.com/a"));
    assert!(!frontier.insert_if_absent("https://test.com/a"));
    assert_eq!(frontier.len(), 1);
    assert!(frontier.insert_if_absent("https://test.com/b"));
    assert_eq!(frontier.len(), 2);
    let mut keys = frontier.keys();
    keys.sort();
    keys.dedup();
    assert_eq!(keys.len(), 2);
}

#[test]
fn frontier_tracks_pending_pages() {
    let mut frontier = Frontier::new();
    frontier.insert_if_absent("https://test.com/a");
    frontier.insert_if_absent("https://test.com/b");
    assert_eq!(frontier.pending_count(), 2);
    assert_eq!(
        frontier.pending_urls(),
        vec!["https://test.com/a".to_owned(), "https://test.com/b".to_owned()]
    );
    frontier.mark_fetched("https://test.com/a", "text");
    assert_eq!(frontier.pending_count(), 2);
    assert_eq!(frontier.get("https://test.com/a").unwrap().body().as_str(), "text");
    frontier.mark_crawled("https://test.com/a");
    assert_eq!(frontier.pending_count(), 1);
    assert!(frontier.get("https://test.com/a").unwrap().crawled());
    frontier.clear_body("https://test.com/a");
    assert_eq!(frontier.get("https://test.com/a").unwrap().body().as_str(), "");
    assert_eq!(frontier.pending_urls(), vec!["https://test.com/b".to_owned()]);
}

#[test]
fn page_constructors() {
    let fresh = Page::new();
    assert_eq!(fresh.body().as_str(), "");
    assert!(!fresh.crawled());
    let filled = Page::with_values("text", &true);
    assert_eq!(filled.body().as_str(), "text");
    assert!(filled.crawled());
}

#[test]
fn apply_fetch_results_ignores_completion_order() {
    let mut first = Frontier::new();
    first.insert_if_absent("https://test.com/a");
    first.insert_if_absent("https://test.com/b");
    let mut second = first.clone();
    let in_order = vec![
        ("https://test.com/a".to_owned(), "body a".to_owned()),
        ("https://test.com/b".to_owned(), "body b".to_owned()),
    ];
    let reversed = vec![
        ("https://test.com/b".to_owned(), "body b".to_owned()),
        ("https://test.com/a".to_owned(), "body a".to_owned()),
    ];
    first.apply_fetch_results(&in_order);
    second.apply_fetch_results(&reversed);
    assert_eq!(first, second);
    assert_eq!(first.get("https://test.com/a").unwrap().body().as_str(), "body a");
    assert_eq!(first.get("https://test.com/b").unwrap().body().as_str(), "body b");
}

fn anchors(base: &str, targets: &[&str]) -> String {
    let mut body = String::new();
    for t in targets {
        body.push_str(&format!("<a href=\"{}{}\">aaa</a>", base, t));
    }
    body
}

fn scenario_table(base: &str) -> Vec<(String, Result<String, String>)> {
    vec![
        (format!("{}/crawl", base), Ok(anchors(base, &["/crawl2", "/crawl3"]))),
        (format!("{}/crawl2", base), Ok(anchors(base, &["/crawl3", "/crawl4"]))),
        (format!("{}/crawl3", base), Ok(anchors(base, &["/crawl5", "/crawl6"]))),
        (format!("{}/crawl4", base), Ok(anchors(base, &["/crawl7", "/crawl8"]))),
        (format!("{}/crawl5", base), Ok(String::new())),
        (format!("{}/crawl6", base), Ok(String::new())),
        (format!("{}/crawl7", base), Ok(String::new())),
        (format!("{}/crawl8", base), Ok(String::new())),
    ]
}

fn expected_scenario_keys(base: &str) -> Vec<String> {
    let mut expected = vec![
        format!("{}/crawl", base),
        format!("{}/crawl2", base),
        format!("{}/crawl3", base),
        format!("{}/crawl4", base),
        format!("{}/crawl5", base),
        format!("{}/crawl6", base),
        format!("{}/crawl7", base),
        format!("{}/crawl8", base),
    ];
    expected.sort();
    expected
}

#[test]
fn crawl_scenario_reaches_fixed_point() {
    let base = "https://test.com";
    let table = scenario_table(base);
    let crawler = seeded(&format!("{}/crawl", base));
    let done = crawler.run_with_responses(&table).expect("crawl must succeed");
    let mut keys = done.urls.keys();
    keys.sort();
    assert_eq!(keys, expected_scenario_keys(base));
    for key in &keys {
        let page = done.urls.get(key).expect("key must be present");
        assert!(page.crawled());
        assert_eq!(page.body().as_str(), "");
    }
}

#[test]
fn crawl_scenario_is_stable_under_table_order() {
    let base = "https://test.com";
    let mut table = scenario_table(base);
    table.reverse();
    let done = seeded(&format!("{}/crawl", base))
        .run_with_responses(&table)
        .expect("crawl must succeed");
    let mut keys = done.urls.keys();
    keys.sort();
    assert_eq!(keys, expected_scenario_keys(base));
}

#[test]
fn crawl_aborts_on_fetch_error() {
    let base = "https://test.com";
    let mut table = scenario_table(base);
    table[2].1 = Err("network error".to_owned());
    let outcome = seeded(&format!("{}/crawl", base)).run_with_responses(&table);
    match outcome {
        Err(CrawlError::Aborted(FetchError { url, cause })) => {
            assert_eq!(url, format!("{}/crawl3", base));
            assert_eq!(cause, "network error");
        }
        other => panic!("expected an aborted crawl, got {:?}", other),
    }
}

#[test]
fn crawl_aborts_on_missing_response() {
    let base = "https://test.com";
    let mut table = scenario_table(base);
    table.remove(1);
    let outcome = seeded(&format!("{}/crawl", base)).run_with_responses(&table);
    match outcome {
        Err(CrawlError::Aborted(FetchError { url, .. })) => {
            assert_eq!(url, format!("{}/crawl2", base));
        }
        other => panic!("expected an aborted crawl, got {:?}", other),
    }
}

#[test]
fn run_with_no_pending_pages_succeeds_immediately() {
    let mut crawler = seeded("https://test.com");
    crawler.urls.mark_crawled("https://test.com");
    let table: Vec<(String, Result<String, String>)> = Vec::new();
    let done = crawler.run_with_responses(&table).expect("nothing was pending");
    assert_eq!(done.urls.len(), 1);
}

#[test]
fn url_with_query_sets_base_but_adds_nothing() {
    let crawler = SimpleCrawler::new()
        .url("https://test.com/a?b=1")
        .expect("an absolute URL with a query still parses");
    assert_eq!(crawler.base_url().as_str(), "https://test.com/a?b=1");
    assert_eq!(crawler.urls.len(), 0);
}

#[test]
fn url_accepts_relative_after_base() {
    let crawler = seeded("https://test.com")
        .url("/about")
        .expect("relative paths are accepted once a base is set");
    let mut keys = crawler.urls.keys();
    keys.sort();
    assert_eq!(
        keys,
        vec![
            "https://test.com".to_owned(),
            "https://test.com/about".to_owned()
        ]
    );
    let again = crawler.url("/about").expect("an existing key is a no-op");
    assert_eq!(again.urls.len(), 2);
    let dropped = again
        .url("not a url")
        .expect("later candidates never raise the base error");
    assert_eq!(dropped.urls.len(), 2);
}

#[test]
fn process_round_commits_or_aborts() {
    let crawler = seeded("https://test.com");
    let committed = crawler
        .clone()
        .process_round(vec![(
            "https://test.com".to_owned(),
            Ok("<a href=\"/next\">aaa</a>".to_owned()),
        )])
        .expect("an all-body round commits");
    let mut keys = committed.urls.keys();
    keys.sort();
    assert_eq!(
        keys,
        vec![
            "https://test.com".to_owned(),
            "https://test.com/next".to_owned()
        ]
    );
    assert!(committed.urls.get("https://test.com").unwrap().crawled());
    let aborted = crawler.process_round(vec![(
        "https://test.com".to_owned(),
        Err("network error".to_owned()),
    )]);
    match aborted {
        Err(CrawlError::Aborted(fe)) => {
            assert_eq!(fe.url, "https://test.com");
            assert_eq!(fe.cause, "network error");
        }
        other => panic!("expected an aborted round, got {:?}", other),
    }
}

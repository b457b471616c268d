use filter_engine::FilterEngine;
use filter_engine::MatchError;

#[test]
pub fn internal() {
    println!("\n\n----- Start of Tests -----");

    let engine = FilterEngine::new(vec!["/button_facebook.".to_string()]);

    assert_eq!(
        engine.check_network_urls_matched(
            "https://example.com/button_facebook.".to_string(),
            "".to_string(),
            "script".to_string(),
        ),
        true
    );

    assert_eq!(
        engine.check_network_urls_matched(
            "https://example.com/foo.html".to_string(),
            "".to_string(),
            "script".to_string()
        ),
        false
    );

    println!("Passed");
}

fn check(engine: &FilterEngine, url: &str, source: &str, rtype: &str) -> bool {
    engine.check_network_urls_matched(url.to_string(), source.to_string(), rtype.to_string())
}

#[test]
fn repeated_queries_are_deterministic() {
    let engine = FilterEngine::new(vec!["/ads.\n@@/ads.$domain=example.com".to_string()]);
    let first = check(&engine, "https://x.com/ads.js", "https://example.com", "script");
    for _ in 0..5 {
        assert_eq!(check(&engine, "https://x.com/ads.js", "https://example.com", "script"), first);
    }
}

#[test]
fn empty_list_never_blocks() {
    let engine = FilterEngine::new(vec![]);
    assert!(!check(&engine, "https://example.com/ads.js", "", "script"));
    let engine2 = FilterEngine::new(vec!["".to_string()]);
    assert!(!check(&engine2, "https://example.com/anything", "https://other.com", "image"));
}

#[test]
fn literal_substring_blocks() {
    let engine = FilterEngine::new(vec!["/banner_ad.".to_string()]);
    assert!(check(&engine, "https://cdn.site.com/banner_ad.png", "", "image"));
    assert!(!check(&engine, "https://cdn.site.com/banner.png", "", "image"));
}

#[test]
fn exception_flips_verdict() {
    let blocked = FilterEngine::new(vec!["/ads.".to_string()]);
    assert!(check(&blocked, "https://x.com/ads.js", "", "script"));
    let allowed = FilterEngine::new(vec!["/ads.\n@@/ads.".to_string()]);
    assert!(!check(&allowed, "https://x.com/ads.js", "", "script"));
}

#[test]
fn important_overrides_exception() {
    let engine = FilterEngine::new(vec!["/ads.$important\n@@/ads.".to_string()]);
    assert!(check(&engine, "https://x.com/ads.js", "", "script"));
}

#[test]
fn malformed_line_does_not_spoil_valid_lines() {
    let text = "! comment line\nfoo$notanoption\n/button_facebook.\n[Adblock Plus 2.0]";
    let engine = FilterEngine::new(vec![text.to_string()]);
    assert!(check(&engine, "https://example.com/button_facebook.", "", "script"));
    // the malformed line took no effect of its own
    assert!(!check(&engine, "https://example.com/foo", "", "script"));
}

#[test]
fn cosmetic_lines_are_skipped() {
    let engine = FilterEngine::new(vec!["example.com##.ad-banner\n/ads.".to_string()]);
    assert!(check(&engine, "https://x.com/ads.js", "", "script"));
    assert!(!check(&engine, "https://example.com/ad-banner", "", "script"));
}

#[test]
fn domain_option_scopes_exception() {
    let engine = FilterEngine::new(vec!["/ads.\n@@/ads.$domain=example.com".to_string()]);
    assert!(!check(&engine, "https://x.com/ads.js", "https://example.com", "script"));
    assert!(check(&engine, "https://x.com/ads.js", "https://other.com", "script"));
}

#[test]
fn domain_option_matches_parent_domain() {
    let engine = FilterEngine::new(vec!["/ads.$domain=example.com".to_string()]);
    assert!(check(&engine, "https://x.com/ads.js", "https://sub.example.com", "script"));
    assert!(!check(&engine, "https://x.com/ads.js", "https://unrelated.org", "script"));
}

#[test]
fn negated_domain_excludes_source() {
    let engine = FilterEngine::new(vec!["/ads.$domain=~example.com".to_string()]);
    assert!(!check(&engine, "https://x.com/ads.js", "https://example.com", "script"));
    assert!(check(&engine, "https://x.com/ads.js", "https://other.com", "script"));
}

#[test]
fn third_party_restriction() {
    let engine = FilterEngine::new(vec!["||example.com^$third-party".to_string()]);
    assert!(check(&engine, "https://example.com/x", "https://thirdparty.com", "script"));
    assert!(!check(&engine, "https://example.com/x", "https://example.com", "script"));
}

#[test]
fn first_party_restriction() {
    let engine = FilterEngine::new(vec!["||example.com^$~third-party".to_string()]);
    assert!(!check(&engine, "https://example.com/x", "https://thirdparty.com", "script"));
    assert!(check(&engine, "https://example.com/x", "https://example.com", "script"));
}

#[test]
fn hostname_anchor_covers_subdomains() {
    let engine = FilterEngine::new(vec!["||example.com^".to_string()]);
    assert!(check(&engine, "https://sub.example.com/page", "", "document"));
    assert!(check(&engine, "https://example.com/page", "", "document"));
    assert!(!check(&engine, "https://notexample.com/page", "", "document"));
}

#[test]
fn resource_type_option() {
    let engine = FilterEngine::new(vec!["/ads.$script".to_string()]);
    assert!(check(&engine, "https://x.com/ads.js", "", "script"));
    assert!(!check(&engine, "https://x.com/ads.js", "", "image"));
}

#[test]
fn negated_resource_type_option() {
    let engine = FilterEngine::new(vec!["/ads.$~script".to_string()]);
    assert!(!check(&engine, "https://x.com/ads.js", "", "script"));
    assert!(check(&engine, "https://x.com/ads.js", "", "image"));
}

#[test]
fn unknown_request_type_counts_as_other() {
    let engine = FilterEngine::new(vec!["/ads.$other".to_string()]);
    assert!(check(&engine, "https://x.com/ads.js", "", "somefuturetype"));
    assert!(!check(&engine, "https://x.com/ads.js", "", "script"));
}

#[test]
fn start_and_end_anchors() {
    let engine = FilterEngine::new(vec!["|https://start.com/x".to_string()]);
    assert!(check(&engine, "https://start.com/xyz", "", "script"));
    assert!(!check(&engine, "https://other.com/https://start.com/x", "", "script"));
    let engine2 = FilterEngine::new(vec!["/tail.js|".to_string()]);
    assert!(check(&engine2, "https://x.com/tail.js", "", "script"));
    assert!(!check(&engine2, "https://x.com/tail.js?y=1", "", "script"));
}

#[test]
fn wildcard_and_separator_placeholder() {
    let engine = FilterEngine::new(vec!["/ad*/banner^".to_string()]);
    assert!(check(&engine, "https://x.com/adserver/banner?x=1", "", "script"));
    assert!(check(&engine, "https://x.com/ad/banner", "", "script"));
    assert!(!check(&engine, "https://x.com/ad/bannerextra", "", "script"));
}

#[test]
fn regex_rule_matches_by_pattern() {
    let engine = FilterEngine::new(vec!["/ad[0-9]+banner/".to_string()]);
    assert!(check(&engine, "https://x.com/ad123banner.png", "", "image"));
    assert!(!check(&engine, "https://x.com/adXbanner.png", "", "image"));
}

#[test]
fn invalid_regex_never_matches() {
    let engine = FilterEngine::new(vec!["/ad[/".to_string()]);
    assert!(!check(&engine, "https://x.com/ad[", "", "script"));
}

#[test]
fn invalid_url_is_an_error() {
    let engine = FilterEngine::new(vec!["/ads.".to_string()]);
    let r = engine.check_network_request("not a url", "", "script");
    assert!(matches!(r, Err(MatchError::InvalidRequest)));
    let ok = engine.check_network_request("https://x.com/ads.js", "", "script");
    assert!(ok.is_ok());
}

#[test]
fn unparseable_source_means_no_context() {
    let engine = FilterEngine::new(vec!["/ads.$third-party".to_string()]);
    // with no usable source the third-party condition cannot be established
    assert!(!check(&engine, "https://x.com/ads.js", "not a url", "script"));
    assert!(!check(&engine, "https://x.com/ads.js", "", "script"));
}

#[test]
fn match_result_reports_deciding_rule() {
    let engine = FilterEngine::new(vec!["/ads.\n@@/ads.".to_string()]);
    let m = engine.check_network_request("https://x.com/ads.js", "", "script").unwrap();
    assert!(!m.matched);
    assert!(m.exception);
    assert!(m.filter.is_some());
    let engine2 = FilterEngine::new(vec!["/ads.".to_string()]);
    let m2 = engine2.check_network_request("https://x.com/ads.js", "", "script").unwrap();
    assert!(m2.matched);
    assert!(!m2.exception);
    assert!(m2.filter.is_some());
    let m3 = engine2.check_network_request("https://x.com/clean.js", "", "script").unwrap();
    assert!(!m3.matched);
    assert!(m3.filter.is_none());
}

#[test]
fn multiple_lists_merge() {
    let engine = FilterEngine::new(vec!["/ads.".to_string(), "/track.".to_string()]);
    assert!(check(&engine, "https://x.com/ads.js", "", "script"));
    assert!(check(&engine, "https://x.com/track.gif", "", "image"));
    assert!(!check(&engine, "https://x.com/clean.js", "", "script"));
}

#[test]
fn unknown_option_discards_whole_line() {
    let engine = FilterEngine::new(vec!["/ads.$bogusoption".to_string()]);
    assert!(!check(&engine, "https://x.com/ads.js", "", "script"));
}

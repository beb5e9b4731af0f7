use cwl::groups::{run_group_listing, GroupLister, GroupPage};
use cwl::pattern::{filter_groups, LogPattern};

#[test]
fn listing_walks_every_page() {
    let pages = vec![
        GroupPage {
            names: vec!["alpha".to_string(), "beta".to_string()],
            next_token: Some("t".to_string()),
        },
        GroupPage {
            names: vec!["gamma".to_string()],
            next_token: None,
        },
    ];
    let (names, requests) = run_group_listing(None, &pages);
    assert_eq!(names, vec!["alpha", "beta", "gamma"]);
    assert_eq!(requests, 2);
}

#[test]
fn lister_stops_after_missing_token() {
    let mut lister = GroupLister::new(Some("pre".to_string()));
    let req = lister.next_request().unwrap();
    assert_eq!(req.prefix, Some("pre".to_string()));
    assert_eq!(req.continuation, None);
    lister.ingest(GroupPage {
        names: vec!["a".to_string()],
        next_token: None,
    });
    assert!(lister.next_request().is_none());
    assert_eq!(lister.into_names(), vec!["a"]);
}

#[test]
fn filtering_keeps_matches_in_order() {
    let pattern = LogPattern::compile("prod").unwrap();
    let names = vec![
        "prod-api".to_string(),
        "dev-api".to_string(),
        "api-prod-2".to_string(),
    ];
    assert_eq!(filter_groups(names, &pattern), vec!["prod-api", "api-prod-2"]);
}

#[test]
fn regex_patterns_apply() {
    let pattern = LogPattern::compile("^a.*z$").unwrap();
    let names = vec!["abz".to_string(), "abc".to_string(), "az".to_string()];
    assert_eq!(filter_groups(names, &pattern), vec!["abz", "az"]);
    assert!(LogPattern::compile("[unclosed").is_none());
}

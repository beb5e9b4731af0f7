use cwl::events::{LogEvent, PageResponse};
use cwl::fetch::{run_bounded_fetch, BoundedFetcher};

fn ev(ts: i64, msg: &str) -> LogEvent {
    LogEvent {
        timestamp: Some(ts),
        stream_id: None,
        message: Some(msg.to_string()),
    }
}

fn msgs(events: &[LogEvent]) -> Vec<String> {
    events.iter().map(|e| e.message.clone().unwrap()).collect()
}

#[test]
fn limit_cuts_only_the_tail() {
    let pages = vec![
        PageResponse {
            events: vec![ev(1, "a"), ev(2, "b"), ev(3, "c")],
            next_token: Some("t1".to_string()),
        },
        PageResponse {
            events: vec![ev(4, "d"), ev(5, "e"), ev(6, "f")],
            next_token: None,
        },
    ];
    let (events, requests) = run_bounded_fetch(
        "g".to_string(),
        None,
        None,
        None,
        Some(4),
        &pages,
    );
    assert_eq!(msgs(&events), vec!["a", "b", "c", "d"]);
    assert_eq!(requests, 2);
}

#[test]
fn no_limit_fetches_everything() {
    let pages = vec![
        PageResponse {
            events: vec![ev(1, "a"), ev(2, "b")],
            next_token: Some("t1".to_string()),
        },
        PageResponse {
            events: vec![ev(3, "c")],
            next_token: None,
        },
    ];
    let (events, requests) = run_bounded_fetch("g".to_string(), None, None, None, None, &pages);
    assert_eq!(msgs(&events), vec!["a", "b", "c"]);
    assert_eq!(requests, 2);
}

#[test]
fn limit_zero_issues_no_request() {
    let pages = vec![PageResponse {
        events: vec![ev(1, "a")],
        next_token: None,
    }];
    let (events, requests) =
        run_bounded_fetch("g".to_string(), None, None, None, Some(0), &pages);
    assert_eq!(events.len(), 0);
    assert_eq!(requests, 0);
}

#[test]
fn stops_at_missing_token() {
    let pages = vec![PageResponse {
        events: vec![ev(1, "a"), ev(2, "b")],
        next_token: None,
    }];
    let (events, requests) = run_bounded_fetch("g".to_string(), None, None, None, None, &pages);
    assert_eq!(events.len(), 2);
    assert_eq!(requests, 1);
}

#[test]
fn limit_reached_stops_requests_early() {
    let pages = vec![
        PageResponse {
            events: vec![ev(1, "a"), ev(2, "b"), ev(3, "c")],
            next_token: Some("t1".to_string()),
        },
        PageResponse {
            events: vec![ev(4, "d")],
            next_token: None,
        },
    ];
    let (events, requests) =
        run_bounded_fetch("g".to_string(), None, None, None, Some(3), &pages);
    assert_eq!(msgs(&events), vec!["a", "b", "c"]);
    assert_eq!(requests, 1);
}

#[test]
fn requests_carry_window_and_capped_size() {
    let fetcher = BoundedFetcher::new(
        "group-a".to_string(),
        Some(100),
        Some(200),
        Some("err".to_string()),
        Some(5),
    );
    let req = fetcher.next_request().unwrap();
    assert_eq!(req.group, "group-a");
    assert_eq!(req.start, Some(100));
    assert_eq!(req.end, Some(200));
    assert_eq!(req.pattern, Some("err".to_string()));
    assert_eq!(req.page_size, 5);
    assert_eq!(req.continuation, None);

    let unbounded = BoundedFetcher::new("g".to_string(), None, None, None, None);
    assert_eq!(unbounded.next_request().unwrap().page_size, 10_000);
}

#[test]
fn ingest_tracks_token_and_count() {
    let mut fetcher = BoundedFetcher::new("g".to_string(), None, None, None, None);
    fetcher.ingest(PageResponse {
        events: vec![ev(1, "a")],
        next_token: Some("next".to_string()),
    });
    assert_eq!(fetcher.count(), 1);
    let req = fetcher.next_request().unwrap();
    assert_eq!(req.continuation, Some("next".to_string()));
    fetcher.ingest(PageResponse {
        events: vec![ev(2, "b")],
        next_token: None,
    });
    assert!(fetcher.next_request().is_none());
    assert_eq!(msgs(&fetcher.into_events()), vec!["a", "b"]);
}

use cwl::events::{LogEvent, PageResponse};
use cwl::tail::{LiveTailer, TAIL_IDLE_WAIT_MS, TAIL_LOOKBACK_MS};

fn ev(ts: Option<i64>, msg: &str) -> LogEvent {
    LogEvent {
        timestamp: ts,
        stream_id: None,
        message: Some(msg.to_string()),
    }
}

#[test]
fn first_poll_looks_back_one_minute() {
    let tailer = LiveTailer::new("g".to_string(), Some("pat".to_string()));
    let req = tailer.next_request(1_000_000_000);
    assert_eq!(req.start, Some(1_000_000_000 - TAIL_LOOKBACK_MS));
    assert_eq!(req.end, None);
    assert_eq!(req.group, "g");
    assert_eq!(req.pattern, Some("pat".to_string()));
    assert_eq!(req.continuation, None);
}

#[test]
fn watermark_moves_past_delivered_timestamps() {
    let mut tailer = LiveTailer::new("g".to_string(), None);
    let delivered = tailer.ingest(PageResponse {
        events: vec![ev(Some(5), "a"), ev(Some(7), "b")],
        next_token: Some("t".to_string()),
    });
    assert_eq!(delivered.len(), 2);
    assert!(!tailer.should_idle());
    let req = tailer.next_request(1_000_000_000);
    // The next window starts one past the last delivered timestamp, so a
    // passed timestamp is never fetched again.
    assert_eq!(req.start, Some(8));
    assert_eq!(req.continuation, Some("t".to_string()));
}

#[test]
fn untimestamped_events_leave_the_watermark() {
    let mut tailer = LiveTailer::new("g".to_string(), None);
    tailer.ingest(PageResponse {
        events: vec![ev(Some(5), "a")],
        next_token: Some("t".to_string()),
    });
    let delivered = tailer.ingest(PageResponse {
        events: vec![ev(None, "b")],
        next_token: None,
    });
    assert_eq!(delivered.len(), 1);
    assert_eq!(tailer.next_request(1_000_000_000).start, Some(6));
}

#[test]
fn idle_only_when_caught_up() {
    let mut tailer = LiveTailer::new("g".to_string(), None);
    tailer.ingest(PageResponse {
        events: vec![],
        next_token: Some("t".to_string()),
    });
    assert!(!tailer.should_idle());
    tailer.ingest(PageResponse {
        events: vec![],
        next_token: None,
    });
    assert!(tailer.should_idle());
    assert_eq!(TAIL_IDLE_WAIT_MS, 1000);
}

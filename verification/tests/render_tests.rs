use cwl::columns::{ColumnInfo, FormattedOutput};
use cwl::events::LogEvent;
use cwl::line::{build_log_line, format_json_field};
use cwl::render::render_table;

#[test]
fn dotted_fields_resolve_into_nested_objects() {
    let json = "{\"a\":{\"b\":\"deep\",\"n\":7},\"top\":true}";
    assert_eq!(format_json_field(json, "a.b"), Some("deep".to_string()));
    assert_eq!(format_json_field(json, "a.n"), Some("7".to_string()));
    assert_eq!(format_json_field(json, "top"), Some("true".to_string()));
    assert_eq!(format_json_field(json, "a"), Some("{\"b\":\"deep\",\"n\":7}".to_string()));
    assert_eq!(format_json_field(json, "a.missing"), None);
    assert_eq!(format_json_field("not json", "a"), None);
}

#[test]
fn table_lines_align_to_column_widths() {
    let out = FormattedOutput {
        columns: vec![
            ColumnInfo {
                name: "ab".to_string(),
                frequency: 1,
                max_width: 4,
            },
            ColumnInfo {
                name: "c".to_string(),
                frequency: 1,
                max_width: 2,
            },
        ],
        rows: vec![vec!["x".to_string(), "yy".to_string()], vec![
            "".to_string(),
            "z".to_string(),
        ]],
    };
    let lines = render_table(&out);
    assert_eq!(lines.len(), 4);
    assert_eq!(lines[0], "ab   │ c ");
    assert_eq!(lines[1], "─────┼───");
    assert_eq!(lines[2], "x    │ yy");
    // An empty value renders as blank space.
    assert_eq!(lines[3], "     │ z ");
}

#[test]
fn oversized_cells_are_not_cut_by_the_renderer() {
    let out = FormattedOutput {
        columns: vec![ColumnInfo {
            name: "n".to_string(),
            frequency: 1,
            max_width: 2,
        }],
        rows: vec![vec!["wide".to_string()]],
    };
    let lines = render_table(&out);
    assert_eq!(lines[2], "wide");
}

#[test]
fn log_lines_carry_timestamp_stream_and_body() {
    let e = LogEvent {
        timestamp: Some(1_704_067_200_000),
        stream_id: Some("s1".to_string()),
        message: Some("plain text".to_string()),
    };
    assert_eq!(
        build_log_line(&e).unwrap(),
        "[2024-01-01 00:00:00.000] [s1] plain text"
    );
}

#[test]
fn structured_messages_are_normalized() {
    let e = LogEvent {
        timestamp: None,
        stream_id: None,
        message: Some("{ \"a\" :  1 }".to_string()),
    };
    assert_eq!(build_log_line(&e).unwrap(), "[Unknown time] [] {\"a\":1}");
}

#[test]
fn messageless_events_yield_no_line() {
    let e = LogEvent {
        timestamp: Some(5),
        stream_id: None,
        message: None,
    };
    assert!(build_log_line(&e).is_none());
}

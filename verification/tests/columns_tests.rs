use cwl::columns::{analyze_json_logs, parse_log_line, truncate_string};

#[test]
fn two_structured_lines_make_a_ranked_schema() {
    let logs = vec![
        "[2024-01-01T00:00:00Z] [streamA] {\"level\":\"error\",\"code\":500}".to_string(),
        "[2024-01-01T00:00:01Z] [streamB] {\"level\":\"info\"}".to_string(),
    ];
    let out = analyze_json_logs(&logs);
    let names: Vec<&str> = out.columns.iter().map(|c| c.name.as_str()).collect();
    // level occurs in both rows, code in one, so level sorts first.
    assert_eq!(names, vec!["timestamp", "log_group", "level", "code"]);
    assert_eq!(out.columns[0].frequency, 2);
    assert_eq!(out.columns[1].frequency, 2);
    assert_eq!(out.columns[2].frequency, 2);
    assert_eq!(out.columns[3].frequency, 1);
    assert_eq!(out.rows.len(), 2);
    assert_eq!(
        out.rows[0],
        vec!["2024-01-01T00:00:00Z", "streamA", "error", "500"]
    );
    assert_eq!(out.rows[1], vec!["2024-01-01T00:00:01Z", "streamB", "info", ""]);
}

#[test]
fn fixed_columns_stand_first_whatever_the_input() {
    let out = analyze_json_logs(&vec!["no brackets at all".to_string()]);
    assert_eq!(out.columns[0].name, "timestamp");
    assert_eq!(out.columns[1].name, "log_group");
    assert_eq!(out.columns[0].frequency, 1);
    assert_eq!(out.columns[1].frequency, 1);
    assert_eq!(out.columns.len(), 2);
    assert_eq!(out.rows, vec![vec!["".to_string(), "".to_string()]]);

    let empty = analyze_json_logs(&Vec::new());
    assert_eq!(empty.columns[0].name, "timestamp");
    assert_eq!(empty.columns[1].name, "log_group");
    assert_eq!(empty.columns[0].frequency, 0);
    // The fixed columns never render narrower than nine characters.
    assert_eq!(empty.columns[0].max_width, 9);
    assert_eq!(empty.columns[1].max_width, 9);
    assert_eq!(empty.rows.len(), 0);
}

#[test]
fn equal_frequencies_sort_by_name() {
    let logs = vec!["[t] [s] {\"zeta\":1,\"alpha\":2}".to_string()];
    let out = analyze_json_logs(&logs);
    let names: Vec<&str> = out.columns.iter().map(|c| c.name.as_str()).collect();
    assert_eq!(names, vec!["timestamp", "log_group", "alpha", "zeta"]);
}

#[test]
fn column_width_tracks_values_and_name() {
    let logs = vec!["[ts] [s] {\"k\":\"abcdefgh\"}".to_string()];
    let out = analyze_json_logs(&logs);
    // timestamp and log_group keep the nine-character floor.
    assert_eq!(out.columns[0].max_width, 9);
    assert_eq!(out.columns[1].max_width, 9);
    // k is as wide as its widest value.
    assert_eq!(out.columns[2].name, "k");
    assert_eq!(out.columns[2].max_width, 8);
}

#[test]
fn unstructured_body_falls_back_to_fixed_columns() {
    let logs = vec!["[ts] [s] not json".to_string()];
    let out = analyze_json_logs(&logs);
    assert_eq!(out.columns.len(), 2);
    assert_eq!(out.rows[0], vec!["ts".to_string(), "s".to_string()]);
}

#[test]
fn body_fields_never_displace_the_fixed_cells() {
    let logs = vec![
        "[2024-01-01T00:00:00Z] [streamA] {\"timestamp\":\"999\",\"log_group\":\"other\",\"k\":1}"
            .to_string(),
    ];
    let out = analyze_json_logs(&logs);
    // The extracted values stand in the fixed cells whatever the body says.
    assert_eq!(out.rows[0][0], "2024-01-01T00:00:00Z");
    assert_eq!(out.rows[0][1], "streamA");
    // Body fields named like the fixed columns claim no column of their own.
    let names: Vec<&str> = out.columns.iter().map(|c| c.name.as_str()).collect();
    assert_eq!(names, vec!["timestamp", "log_group", "k"]);
}

#[test]
fn parse_log_line_splits_bracketed_prefix() {
    assert_eq!(
        parse_log_line("[2024] [str] body here"),
        ("2024".to_string(), "str".to_string(), "body here".to_string())
    );
    assert_eq!(
        parse_log_line("[2024] no stream"),
        ("2024".to_string(), "".to_string(), "no stream".to_string())
    );
    assert_eq!(
        parse_log_line("plain line"),
        ("".to_string(), "".to_string(), "plain line".to_string())
    );
    assert_eq!(
        parse_log_line(""),
        ("".to_string(), "".to_string(), "".to_string())
    );
}

#[test]
fn truncation_replaces_the_tail_with_an_ellipsis() {
    let long: String = "x".repeat(101);
    let cut = truncate_string(&long, 100);
    assert_eq!(cut.len(), 100);
    assert_eq!(cut, format!("{}...", "x".repeat(97)));

    let exact: String = "y".repeat(100);
    assert_eq!(truncate_string(&exact, 100), exact);

    assert_eq!(truncate_string("short", 100), "short");
}

#[test]
fn long_values_truncate_in_rendered_rows() {
    let body = format!("{{\"k\":\"{}\"}}", "v".repeat(150));
    let logs = vec![format!("[ts] [s] {}", body)];
    let out = analyze_json_logs(&logs);
    assert_eq!(out.columns[2].name, "k");
    // Column sizing caps at 100.
    assert_eq!(out.columns[2].max_width, 100);
    let cell = &out.rows[0][2];
    assert_eq!(cell.len(), 100);
    assert!(cell.ends_with("..."));
}

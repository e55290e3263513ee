use restty::cache::{
    cache_key, diff_views, encode_entry, hex_decode, hex_encode, json_array_field,
    json_number_field, json_string_array_field, json_string_field, latest_key, parse_entry,
    validate_name, CacheEntry,
};
use restty::model::{Alignment, Cell, ChangeKind, Column, Content, Table};

#[test]
fn cache_entry_round_trips() {
    let entry = CacheEntry {
        source: "ps".into(),
        command: "ps aux".into(),
        argv: vec!["ps".into(), "aux".into()],
        timestamp: 42,
        raw: b"a\0b\n".to_vec(),
        rows_json: "[{\"a\": \"b\"}]".into(),
    };
    let encoded = encode_entry(&entry);
    assert_eq!(json_string_field(&encoded, "source").as_deref(), Some("ps"));
    assert_eq!(json_string_array_field(&encoded, "argv"), Some(entry.argv));
    assert_eq!(hex_decode(&hex_encode(&entry.raw)), Some(entry.raw));
    assert_eq!(
        json_array_field(&encoded, "rows").as_deref(),
        Some("[{\"a\": \"b\"}]")
    );
}

fn table(rows: &[(&str, &str)]) -> Content {
    Content::Table(Table {
        columns: vec![
            Column::new("id", "ID", 0, Alignment::Left),
            Column::new("value", "VALUE", 1, Alignment::Left),
        ],
        rows: rows
            .iter()
            .map(|(id, value)| vec![Cell::plain(id), Cell::plain(value)])
            .collect(),
        prelude: Vec::new(),
    })
}

#[test]
fn marks_added_changed_and_removed_rows() {
    let Content::Table(diff) = diff_views(
        &table(&[("a", "old"), ("gone", "x")]),
        &table(&[("a", "new"), ("added", "y")]),
        "generic",
    ) else {
        panic!("expected table");
    };
    assert_eq!(diff.rows[0][1].change, Some(ChangeKind::Changed));
    assert_eq!(diff.rows[1][0].change, Some(ChangeKind::Added));
    assert_eq!(diff.rows[2][0].change, Some(ChangeKind::Removed));
}

#[test]
fn diff_summarizes_counts_and_keeps_unchanged_cells() {
    let Content::Table(diff) = diff_views(
        &table(&[("a", "old"), ("b", "same"), ("gone", "x")]),
        &table(&[("a", "new"), ("b", "same"), ("added", "y")]),
        "generic",
    ) else {
        panic!("expected table");
    };
    assert_eq!(diff.rows.len(), 4);
    assert_eq!(diff.rows[0][0].change, None);
    assert_eq!(diff.rows[1][0].change, None);
    assert_eq!(diff.rows[1][1].change, None);
    assert_eq!(diff.rows[3][0].text, "gone");
    assert_eq!(diff.prelude, vec!["changes: +1 ~1 -1".to_string()]);
}

#[test]
fn diff_of_non_tables_is_the_current_view() {
    let logs = Content::Logs(Vec::new());
    let Content::Table(t) = diff_views(&logs, &table(&[("a", "b")]), "generic") else {
        panic!("expected table");
    };
    assert!(t.prelude.is_empty());
    assert_eq!(t.rows[0][0].change, None);
}

#[test]
fn cache_key_is_sixteen_hex_digits_of_fnv1a() {
    assert_eq!(cache_key("", &[]), "af63bd4c8601b7df");
    let a = cache_key("ps", &["ps".to_string(), "aux".to_string()]);
    let b = cache_key("ps", &["psa".to_string(), "ux".to_string()]);
    assert_eq!(a.len(), 16);
    assert_ne!(a, b);
}

#[test]
fn hex_decoding_rejects_odd_and_non_hex_input() {
    assert_eq!(hex_encode(&[0, 255, 16]), "00ff10");
    assert_eq!(hex_decode("abc"), None);
    assert_eq!(hex_decode("zz"), None);
    assert_eq!(hex_decode("0Aff"), Some(vec![10, 255]));
    assert_eq!(hex_decode("+f"), None);
    assert_eq!(hex_decode("a\u{e9}b"), None);
}

#[test]
fn entries_parse_back_with_defaults() {
    let entry = CacheEntry {
        source: "df".into(),
        command: "df -h".into(),
        argv: vec!["df".into(), "-h".into()],
        timestamp: 7,
        raw: b"x".to_vec(),
        rows_json: "[]".into(),
    };
    let parsed = parse_entry(&encode_entry(&entry)).unwrap();
    assert_eq!(parsed.source, "df");
    assert_eq!(parsed.argv, vec!["df".to_string(), "-h".to_string()]);
    assert_eq!(parsed.timestamp, 7);
    assert_eq!(parsed.raw, b"x".to_vec());
    let minimal = parse_entry("{\"source\": \"s\", \"command\": \"c\", \"raw_hex\": \"41\"}").unwrap();
    assert_eq!(minimal.timestamp, 0);
    assert!(minimal.argv.is_empty());
    assert_eq!(minimal.rows_json, "[]");
    assert!(parse_entry("{\"source\": \"s\"}").is_none());
    assert_eq!(json_number_field("\"t\": 99x", "t"), Some(99));
    assert_eq!(json_number_field("\"t\": x", "t"), None);
}

#[test]
fn names_and_keys_are_checked() {
    assert!(validate_name("base-line_1.0").is_ok());
    assert!(validate_name("").is_err());
    assert!(validate_name("a/b").is_err());
    assert_eq!(latest_key(" 0123456789abcdef\n").as_deref(), Some("0123456789abcdef"));
    assert_eq!(latest_key("0123"), None);
}

#[test]
fn a_table_compared_with_itself_marks_nothing() {
    let same = table(&[("a", "1"), ("b", "2")]);
    let Content::Table(diff) = diff_views(&same, &same, "generic") else {
        panic!("expected a table");
    };
    assert_eq!(diff.rows.len(), 2);
    assert!(diff.rows.iter().all(|row| row.iter().all(|cell| cell.change.is_none())));
    assert_eq!(diff.prelude, vec!["changes: +0 ~0 -0".to_string()]);
}

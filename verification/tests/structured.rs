use restty::model::{Alignment, Cell, Column, Content, LogRecord, Style, Table};
use restty::structured::{serialize, StructuredFormat};

fn view() -> Content {
    Content::Table(Table {
        columns: vec![
            Column::new("name", "NAME", 0, Alignment::Left),
            Column::new("value", "VALUE", 1, Alignment::Right),
        ],
        rows: vec![vec![Cell::plain("alpha"), Cell::plain("a,\"b")]],
        prelude: Vec::new(),
    })
}

#[test]
fn serializes_stable_keys_in_all_formats() {
    assert_eq!(
        serialize(&view(), StructuredFormat::Json),
        "[\n  {\"name\": \"alpha\", \"value\": \"a,\\\"b\"}\n]\n"
    );
    assert_eq!(
        serialize(&view(), StructuredFormat::Csv),
        "name,value\nalpha,\"a,\"\"b\"\n"
    );
    assert_eq!(
        serialize(&view(), StructuredFormat::Yaml),
        "- \"name\": \"alpha\"\n  \"value\": \"a,\\\"b\"\n"
    );
}

#[test]
fn logs_serialize_with_nulls_and_control_escapes() {
    let logs = Content::Logs(vec![LogRecord {
        timestamp: None,
        level: Some("INFO".into()),
        message: "a\u{1}b".into(),
        style: Style::Info,
    }]);
    assert_eq!(
        serialize(&logs, StructuredFormat::Json),
        "[\n  {\"timestamp\": null, \"level\": \"INFO\", \"message\": \"a\\u0001b\"}\n]\n"
    );
    assert_eq!(
        serialize(&logs, StructuredFormat::Csv),
        "timestamp,level,message\n,INFO,a\u{1}b\n"
    );
    assert_eq!(
        serialize(&logs, StructuredFormat::Yaml),
        "- timestamp: null\n  level: \"INFO\"\n  message: \"a\\u0001b\"\n"
    );
    assert_eq!(StructuredFormat::from_name("yml"), Some(StructuredFormat::Yaml));
    assert_eq!(StructuredFormat::from_name("xml"), None);
}

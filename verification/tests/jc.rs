use restty::model::{Alignment, Content, Style};
use restty::config::Config;
use restty::parser::jc::json_to_view;
use restty::{jc_request_for, ColorChoice, RunOptions};

#[test]
fn maps_jc_json_objects_to_stable_table_fields() {
    let view =
        json_to_view(r#"[{"pid":2,"command":"worker","cpu_percent":91.5,"meta":{"ok":true}}]"#)
            .unwrap();
    let Content::Table(table) = view else {
        panic!("expected table");
    };
    assert_eq!(table.columns[0].key, "pid");
    assert_eq!(table.columns[1].priority, 0);
    assert_eq!(table.rows[0][2].style, Style::Warning);
    assert_eq!(table.rows[0][3].text, "{\"ok\":true}");
}

#[test]
fn single_objects_and_missing_keys_fill_the_table() {
    let Content::Table(t) =
        json_to_view("{\"name\": \"a\\u0041\", \"size\": null}").unwrap()
    else {
        panic!("expected table");
    };
    assert_eq!(t.rows[0][0].text, "aA");
    assert_eq!(t.columns[1].alignment, Alignment::Right);
    assert_eq!(t.columns[1].label, "SIZE");
    let Content::Table(t) = json_to_view("[{\"a\": 1}, {\"b\": [true, \"x\"]}]").unwrap() else {
        panic!("expected table");
    };
    assert_eq!(t.columns.len(), 2);
    assert_eq!(t.rows[0][1].text, "");
    assert_eq!(t.rows[1][1].text, "[true,\"x\"]");
}

#[test]
fn malformed_json_gives_no_table() {
    assert!(json_to_view("[]").is_none());
    assert!(json_to_view("[1, 2]").is_none());
    assert!(json_to_view("{\"a\": 1,}").is_none());
    assert!(json_to_view("{\"a\": 1.}").is_some());
    assert!(json_to_view("{\"a\": 1e}").is_none());
    assert!(json_to_view("{\"a\": \"\\ud800\"}").is_none());
    assert!(json_to_view("{\"a\": 1} x").is_none());
}

#[test]
fn jc_is_asked_only_for_a_run_that_reaches_it() {
    let mut config = Config::default();
    config.enabled_commands.push("arp".to_string());
    let options = RunOptions { source: "arp".into(), width: None, force: true, color: ColorChoice::Never };
    let input = b"? (10.0.0.1) at aa:bb on en0\n";
    assert_eq!(jc_request_for(input, &options, &config, false, false, true), Some("arp"));
    assert_eq!(jc_request_for(input, &options, &config, false, false, false), None);
    assert_eq!(jc_request_for(input, &options, &config, false, true, true), None);
    let generic = RunOptions { source: "generic".into(), width: None, force: true, color: ColorChoice::Never };
    assert_eq!(jc_request_for(input, &generic, &config, false, false, true), None);
}

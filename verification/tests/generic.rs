use restty::parser::generic::{looks_like_key_value, looks_like_log};
use restty::parser::{ParserKind, ParserRegistry};

#[test]
fn recognizes_common_log_shapes() {
    assert!(looks_like_log("2026-09-03T12:01:02Z INFO ready"));
    assert!(looks_like_log("[ERROR] request failed"));
    assert!(looks_like_log(r#"{"level":"info","message":"ready"}"#));
    assert!(!looks_like_log("ordinary prose"));
}

#[test]
fn recognizes_key_value_reports_without_stealing_timestamped_logs() {
    let parser = ParserKind::KeyValue;
    assert!(parser.detect("lscpu", "Architecture: x86_64\nCPU(s): 16\n"));
    assert!(!parser.detect(
        "generic",
        "2026-09-03T12:00:01Z INFO ready\n2026-09-03T12:00:02Z WARN slow\n"
    ));
}

#[test]
fn key_value_lines_need_a_short_alphabetic_key() {
    assert!(looks_like_key_value("Model name: Intel"));
    assert!(!looks_like_key_value("12: x"));
    assert!(!looks_like_key_value("no colon here"));
}

#[test]
fn arbitrary_utf8_never_panics() {
    let registry = ParserRegistry::new(&[], false);
    let mut state = 0x1234_5678_u64;
    for length in 0..512 {
        let text = (0..length)
            .map(|_| {
                state ^= state << 13;
                state ^= state >> 7;
                state ^= state << 17;
                char::from_u32((state % 0x11_0000) as u32).unwrap_or('\u{fffd}')
            })
            .collect::<String>();
        for source in ["unknown", "ls", "ps", "df", "du", "git", "docker"] {
            let _ = registry.parse(source, &text, None);
        }
    }
    let _ = registry.parse("git", "界 x\n", None);
    let _ = registry.parse("generic", "NAME  VALUE\n界界  ok\n", None);
}

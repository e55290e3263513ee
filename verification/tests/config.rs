use restty::config::Config;
use restty::model::{Alignment, Cell, Column, Content, Style, Table};
use restty::number::{at_least, below, parse_number};

fn number(s: &str) -> restty::number::Number {
    parse_number(&s.chars().collect::<Vec<_>>()).unwrap()
}

#[test]
fn parses_supported_config_shape() {
    let mut config = Config::default();
    config.merge_toml_subset(
        r#"
            enabled_commands = ["ls", "git"]
            max_lines = 42
            theme = "none"
            border_style = "ascii"
            [breakpoints]
            compact = 50
            core = 90
            wide = 140
            [columns.ls]
            owner = 3
            "#,
    );
    assert_eq!(config.enabled_commands, ["ls", "git"]);
    assert_eq!(config.max_lines, 42);
    assert_eq!(config.breakpoints.core, 90);
    assert_eq!(config.border_style, "ascii");
    assert_eq!(config.column_priority("ls", "owner"), Some(3));
}

#[test]
fn normalizes_command_specs_to_executable_names() {
    let mut config = Config {
        enabled_commands: vec!["ip route".into(), "".into(), "free".into(), "ip".into()],
        ..Config::default()
    };
    config.normalize_enabled_commands();
    assert_eq!(config.enabled_commands, ["ip", "free"]);
}

#[test]
fn threshold_rules_override_numeric_cell_styles() {
    let mut config = Config::default();
    config.merge_toml_subset(
        "terminal_profile = \"ascii\"\nwatch_samples = 32\n[thresholds.df.use]\nwarning = 75\nerror = 90\n",
    );
    assert_eq!(config.terminal_profile, "ascii");
    assert_eq!(config.watch_samples, 32);
    let mut view = Content::Table(Table {
        columns: vec![Column::new("use", "USE", 0, Alignment::Right)],
        rows: vec![vec![Cell::plain("76%")], vec![Cell::plain("91%")]],
        prelude: Vec::new(),
    });
    config.apply_thresholds("df", &mut view);
    let Content::Table(table) = view else {
        panic!("expected table");
    };
    assert_eq!(table.rows[0][0].style, Style::Warning);
    assert_eq!(table.rows[1][0].style, Style::Error);
}

#[test]
fn comments_quotes_and_bad_values_are_handled() {
    let mut config = Config::default();
    config.merge_toml_subset(
        "theme = \"a#b\" # trailing\nmax_bytes = 0\nmax_lines = -3\nwatch_samples = 5000\nmin_confidence = 1.5\ndisabled_parsers = [ \"ps\", , du ]\n",
    );
    assert_eq!(config.theme, "a#b");
    assert_eq!(config.max_bytes, 8 * 1024 * 1024);
    assert_eq!(config.max_lines, 10_000);
    assert_eq!(config.watch_samples, 1024);
    assert!(at_least(&config.min_confidence, &number("0.72")) && at_least(&number("0.72"), &config.min_confidence));
    assert_eq!(config.disabled_parsers, ["ps", "du"]);
    config.merge_toml_subset("min_confidence = 0.9\n[breakpoints]\ncompact = 200\n");
    assert!(at_least(&config.min_confidence, &number("9e-1")));
    assert_eq!(config.breakpoints.compact, 60);
    assert_eq!(config.breakpoints.core, 100);
}

#[test]
fn column_priorities_apply_to_matching_keys() {
    let mut config = Config::default();
    config.merge_toml_subset("[columns.columns.ps]\npid = 7\n");
    assert_eq!(config.column_priority("ps", "pid"), Some(7));
    let mut view = Content::Table(Table {
        columns: vec![Column::new("pid", "PID", 0, Alignment::Right), Column::new("cmd", "CMD", 1, Alignment::Left)],
        rows: Vec::new(),
        prelude: Vec::new(),
    });
    config.apply_column_priorities("ps", &mut view);
    let Content::Table(table) = view else {
        panic!("expected table");
    };
    assert_eq!(table.columns[0].priority, 7);
    assert_eq!(table.columns[1].priority, 1);
}

#[test]
fn enabled_commands_can_be_overridden() {
    let mut config = Config::default();
    config.override_enabled_commands(" , ");
    assert_eq!(config.enabled_commands.len(), 9);
    config.override_enabled_commands("ip route, ls ,");
    assert_eq!(config.enabled_commands, ["ip route", "ls"]);
}

#[test]
fn numbers_compare_by_value() {
    assert!(below(&number("2"), &number("10")));
    assert!(below(&number("-1e3"), &number("-999.5")));
    assert!(at_least(&number("1.50"), &number("1.5")));
    assert!(at_least(&number("0.001"), &number("1e-3")));
    assert!(!at_least(&number("NaN"), &number("0")));
    assert!(below(&number("1e400"), &number("inf")));
    assert!(at_least(&number("-0"), &number("0")));
    assert!(parse_number(&"1e".chars().collect::<Vec<_>>()).is_none());
    assert!(parse_number(&".".chars().collect::<Vec<_>>()).is_none());
    assert!(parse_number(&" 1".chars().collect::<Vec<_>>()).is_none());
}

#[test]
fn merged_settings_stay_in_range() {
    let mut config = Config::default();
    config.merge_toml_subset("watch_samples = 1\nmax_lines = 0\n[breakpoints]\ncompact = 120\ncore = 0\n");
    assert_eq!(config.watch_samples, 2);
    assert_eq!(config.max_lines, 10_000);
    assert_eq!(config.breakpoints.compact, 60);
    assert_eq!(config.breakpoints.core, 100);
    assert_eq!(config.breakpoints.wide, 160);
    config.merge_toml_subset("[breakpoints]\ncompact = 40\ncore = 80\nwide = 120\n");
    assert_eq!(config.breakpoints.compact, 40);
    assert_eq!(config.breakpoints.core, 80);
    assert_eq!(config.breakpoints.wide, 120);
}

#[test]
fn bounded_settings_are_kept_or_set_in_range() {
    let mut config = Config { max_lines: 0, watch_samples: 0, ..Config::default() };
    config.merge_toml_subset("max_lines = 0\nwatch_samples = x\n");
    assert_eq!(config.max_lines, 0);
    assert_eq!(config.watch_samples, 0);
    config.merge_toml_subset("max_lines = 5\nwatch_samples = 0\n");
    assert_eq!(config.max_lines, 5);
    assert_eq!(config.watch_samples, 2);
}

use restty::config::Config;
use restty::live::{
    changed_rows_match, natural_compare, pager_key, screen_lines, sort_rows, truncate_ansi_aware, truncate_plain,
    update_trends, visible_width, watch_refresh, ExploreKey, Explorer, LiveDocument, PagerKey, Trends,
};
use restty::model::{Alignment, Cell, ChangeKind, Column, Content, LogRecord, Style, Table, ValueType};
use restty::terminal::Environment;
use restty::tui::{ansi_line, plain, tui_style, TermColor};
use restty::config::Breakpoints;
use restty::render::{BorderStyle, ColorPalette, RenderOptions};
use restty::{prepare_output, ColorChoice, RunOptions};

fn options() -> RunOptions {
    RunOptions { source: "generic".into(), width: None, force: true, color: ColorChoice::Never }
}

fn env() -> Environment {
    Environment {
        no_color: false,
        restty_disable: None,
        term: None,
        colorterm: None,
        lc_all: Some("en_US.UTF-8".into()),
        lc_ctype: None,
        lang: None,
        terminal_width: None,
    }
}

fn pid_table(values: &[&str]) -> Content {
    Content::Table(Table {
        columns: vec![Column::new("pid", "PID", 0, Alignment::Right)],
        rows: values.iter().map(|v| vec![Cell::styled(v, Style::Plain)]).collect(),
        prelude: Vec::new(),
    })
}

#[test]
fn frame_reflows_and_clamps_scroll_for_each_size() {
    let input = b"NAME  VALUE\nalpha  a-very-long-value\nbeta  second\ngamma  third\n";
    let config = Config::default();
    let prepared = prepare_output(input, &options(), &config, true, false, &env(), false, None);
    let mut document = LiveDocument::new(prepared);
    let narrow = document.build_frame(24, 4, usize::MAX, 0);
    let wide = document.build_frame(80, 20, 0, 0);
    assert!(narrow.first_line <= narrow.max_scroll);
    assert!(narrow.lines.iter().all(|line| visible_width(line) < 24));
    assert!(wide.lines.iter().all(|line| visible_width(line) < 80));
    assert_eq!(wide.max_scroll, 0);
}

#[test]
fn ansi_truncation_preserves_width_and_resets_style() {
    let value = "\x1b[31mabcdef\x1b[0m";
    let truncated = truncate_ansi_aware(value, 4);
    assert_eq!(visible_width(&truncated), 4);
    assert!(truncated.ends_with("\x1b[0m"));
}

#[test]
fn explorer_filters_and_naturally_sorts_retained_rows() {
    let view = pid_table(&["10", "2", "30"]);
    let mut explorer = Explorer::new(view);
    explorer.filter = "0".into();
    let Content::Table(table) = explorer.current_view() else {
        panic!("expected table");
    };
    assert_eq!(table.rows.len(), 2);
    assert_eq!(table.rows[0][0].text, "10");
    explorer.descending = true;
    let Content::Table(table) = explorer.current_view() else {
        panic!("expected table");
    };
    assert_eq!(table.rows[0][0].text, "30");
}

#[test]
fn styled_text_keeps_its_escapes_when_cut() {
    assert_eq!(visible_width("\x1b[1;31merror\x1b[0m done"), 10);
    assert_eq!(truncate_ansi_aware("plain", 9), "plain");
    assert_eq!(truncate_ansi_aware("abcdef", 0), "");
    assert_eq!(truncate_ansi_aware("ab\x1b[32mcdef", 4), "ab\x1b[32mc…\x1b[0m");
    assert_eq!(truncate_plain("status line", 6), "statu…");
    assert_eq!(truncate_plain("ok", 6), "ok");
}

#[test]
fn natural_order_puts_numbers_by_value_and_text_by_case_folded_order() {
    assert_eq!(natural_compare("9", "10"), -1);
    assert_eq!(natural_compare("1,000", "999"), 1);
    assert_eq!(natural_compare("50%", "50"), 0);
    assert_eq!(natural_compare("Beta", "alpha"), 1);
    assert_eq!(natural_compare("x", "10"), 1);
    assert_eq!(natural_compare("10", "1a"), -1);
    assert_eq!(natural_compare("9", "1a"), -1);
    assert_eq!(natural_compare("1a", "9"), 1);
    assert_eq!(natural_compare("nan", "1"), 1);
    let rows = vec![
        vec![Cell::plain("b"), Cell::plain("2")],
        vec![Cell::plain("a"), Cell::plain("10")],
        vec![Cell::plain("c"), Cell::plain("2")],
    ];
    let sorted = sort_rows(&rows, 1);
    let order: Vec<&str> = sorted.iter().map(|r| r[0].text.as_str()).collect();
    assert_eq!(order, ["b", "c", "a"]);
}

#[test]
fn explorer_keys_move_sort_and_filter() {
    let mut explorer = Explorer::new(pid_table(&["3", "1", "2"]));
    assert_eq!(explorer.handle_key(b"j", false, 10), ExploreKey::Handled { filtering: false, changed: true });
    assert_eq!(explorer.selected, 1);
    explorer.handle_key(b"G", false, 10);
    assert_eq!(explorer.selected, 2);
    explorer.handle_key(b"\x1b[5~", false, 10);
    assert_eq!(explorer.selected, 0);
    assert_eq!(explorer.handle_key(b"/", false, 10), ExploreKey::Handled { filtering: true, changed: false });
    assert_eq!(explorer.handle_key(b"2\x01", true, 10), ExploreKey::Handled { filtering: true, changed: true });
    assert_eq!(explorer.filter, "2");
    assert_eq!(explorer.row_count(), 1);
    assert_eq!(explorer.selected_value("pid"), Some("2".to_string()));
    assert_eq!(explorer.handle_key(b"\x7f", true, 10), ExploreKey::Handled { filtering: true, changed: true });
    assert_eq!(explorer.filter, "");
    assert_eq!(explorer.handle_key(b"\r", true, 10), ExploreKey::Handled { filtering: false, changed: false });
    assert_eq!(explorer.handle_key(b"a", false, 10), ExploreKey::RunAction);
    assert_eq!(explorer.handle_key(b"x", false, 10), ExploreKey::Ignored);
    assert_eq!(explorer.handle_key(b"q", false, 10), ExploreKey::Quit);
    assert_eq!(explorer.status(false), "row:1/3  sort:pid asc  filter:—  / filter  s next  r reverse  a action  q quit");
    let Content::Table(table) = explorer.current_view() else {
        panic!("expected table");
    };
    assert_eq!(table.rows[0][0].text, "1");
    assert_eq!(table.rows[0][0].style, Style::Accent);
    assert_eq!(table.rows[1][0].style, Style::Plain);
}

#[test]
fn explorer_filters_logs_by_message_or_level() {
    let logs = Content::Logs(vec![
        LogRecord { timestamp: None, level: Some("ERROR".into()), message: "disk full".into(), style: Style::Error },
        LogRecord { timestamp: None, level: Some("INFO".into()), message: "ready".into(), style: Style::Info },
    ]);
    let mut explorer = Explorer::new(logs);
    explorer.filter = "error".into();
    assert_eq!(explorer.row_count(), 1);
    explorer.filter = "READY".into();
    assert_eq!(explorer.row_count(), 1);
    explorer.filter = "nothing".into();
    assert_eq!(explorer.row_count(), 0);
}

#[test]
fn pager_keys_scroll_within_bounds() {
    assert_eq!(pager_key(b"j", 3, 5, 10, false), PagerKey::Scroll(4));
    assert_eq!(pager_key(b"j", 5, 5, 10, false), PagerKey::Scroll(5));
    assert_eq!(pager_key(b"k", 0, 5, 10, false), PagerKey::Scroll(0));
    assert_eq!(pager_key(b"\x1b[6~", 1, 20, 10, false), PagerKey::Scroll(9));
    assert_eq!(pager_key(b"G", 1, 20, 10, false), PagerKey::Scroll(20));
    assert_eq!(pager_key(b" ", 1, 20, 10, true), PagerKey::RefreshNow);
    assert_eq!(pager_key(b" ", 1, 20, 10, false), PagerKey::Ignored);
    assert_eq!(pager_key(b"\x03", 1, 20, 10, false), PagerKey::Quit);
}

#[test]
fn screens_end_with_an_inverse_status_line() {
    let input = b"NAME  VALUE\nalpha  one\nbeta  two\n";
    let prepared = prepare_output(input, &options(), &Config::default(), true, false, &env(), false, None);
    let mut document = LiveDocument::new(prepared);
    let frame = document.build_frame(40, 3, 0, 0);
    let screen = screen_lines(&frame, 40, 3, "live", "q quit");
    assert_eq!(screen.len(), 3);
    assert!(screen[2].starts_with("\x1b[7m restty live  40×3  lines 1–2 of "));
    assert!(screen[2].ends_with("\x1b[0m"));
}

#[test]
fn alerts_fire_on_changed_rows_only() {
    let changed = Content::Table(Table {
        columns: vec![Column::new("name", "NAME", 0, Alignment::Left)],
        rows: vec![vec![Cell::plain("Worker").with_change(ChangeKind::Changed)], vec![Cell::plain("api")]],
        prelude: Vec::new(),
    });
    assert!(changed_rows_match(&changed, "work"));
    assert!(!changed_rows_match(&changed, "api"));
    let row = |change: ChangeKind| {
        Content::Table(Table {
            columns: vec![Column::new("name", "NAME", 0, Alignment::Left)],
            rows: vec![vec![Cell::plain("nginx").with_change(change)]],
            prelude: Vec::new(),
        })
    };
    assert!(!changed_rows_match(&row(ChangeKind::Removed), "nginx"));
    assert!(changed_rows_match(&row(ChangeKind::Added), "nginx"));
}

#[test]
fn trends_keep_the_latest_samples_per_row() {
    let make = |value: &str| {
        Content::Table(Table {
            columns: vec![
                Column::new("name", "NAME", 0, Alignment::Left),
                Column::new("use", "USE", 1, Alignment::Right).with_value_type(ValueType::Percentage),
            ],
            rows: vec![vec![Cell::plain("sda"), Cell::plain(value)]],
            prelude: Vec::new(),
        })
    };
    let mut trends = Trends::new();
    for value in ["10%", "20.5%", "130%"] {
        let mut view = make(value);
        update_trends(&mut view, &mut trends, "generic", 2);
        if value == "130%" {
            let Content::Table(table) = view else {
                panic!("expected table");
            };
            assert_eq!(table.rows[0][1].trend, vec![21, 100]);
        }
    }
    assert_eq!(trends.entries.len(), 1);
}

#[test]
fn ansi_styles_are_converted_to_tui_spans() {
    let line = ansi_line("plain \x1b[1;31merror\x1b[0m done");
    assert_eq!(line.len(), 3);
    assert_eq!(line[1].0, "error");
    assert_eq!(line[1].1.fg, Some(TermColor::Red));
    assert!(line[1].1.bold);
    let rgb = ansi_line("\x1b[38;2;1;2;3mrgb\x1b[0m");
    assert_eq!(rgb[0].1.fg, Some(TermColor::Rgb(1, 2, 3)));
}

#[test]
fn cell_styles_follow_palette_and_changes() {
    let mut options = RenderOptions {
        width: 80,
        color: true,
        breakpoints: Breakpoints { compact: 60, core: 100, wide: 160 },
        border_style: BorderStyle::Rounded,
        palette: ColorPalette::Colorblind,
        truecolor: false,
    };
    assert_eq!(tui_style(Style::Error, None, &options).fg, Some(TermColor::Magenta));
    assert_eq!(tui_style(Style::Plain, Some(ChangeKind::Added), &options).bg, Some(TermColor::Blue));
    options.truecolor = true;
    assert_eq!(tui_style(Style::Good, None, &options).fg, Some(TermColor::Rgb(86, 180, 233)));
    options.color = false;
    assert_eq!(tui_style(Style::Error, None, &options), plain());
}

#[test]
fn watch_refresh_marks_changes_and_rings_once() {
    let config = Config::default();
    let previous = Some(pid_table(&["1", "2"]));
    let input = b"PID  CMD\n1  init\n3  worker\n";
    let prepared = prepare_output(input, &options(), &config, true, false, &env(), false, None);
    let mut trends = Trends::new();
    let refresh = watch_refresh(&previous, prepared, &mut trends, "generic", 4, Some("worker"), false);
    assert!(refresh.current.is_some());
    let Some(Content::Table(shown)) = refresh.prepared.parsed_view() else {
        panic!("expected a table");
    };
    assert!(shown.rows.iter().any(|row| row.iter().any(|cell| cell.change.is_some())));
    assert!(refresh.bell);
    let again = prepare_output(input, &options(), &config, true, false, &env(), false, None);
    let quiet = watch_refresh(&previous, again, &mut trends, "generic", 4, Some("worker"), true);
    assert!(!quiet.bell);
    let text = prepare_output(b"\x00\xff", &options(), &config, true, false, &env(), false, None);
    let none = watch_refresh(&previous, text, &mut trends, "generic", 4, Some("worker"), false);
    assert!(none.current.is_none());
    assert!(none.prepared.parsed_view().is_none());
    assert!(!none.bell);
}

#[test]
fn trends_touch_only_percentage_cells() {
    let make = |a: &str, b: &str| {
        Content::Table(Table {
            columns: vec![
                Column::new("name", "NAME", 0, Alignment::Left),
                Column::new("use", "USE", 1, Alignment::Right).with_value_type(ValueType::Percentage),
            ],
            rows: vec![
                vec![Cell::plain("sda"), Cell::plain(a)],
                vec![Cell::plain("sdb"), Cell::plain(b)],
            ],
            prelude: Vec::new(),
        })
    };
    let mut trends = Trends::new();
    let mut first = make("40%", "n/a");
    update_trends(&mut first, &mut trends, "generic", 3);
    let mut second = make("41%", "7%");
    update_trends(&mut second, &mut trends, "generic", 3);
    let Content::Table(table) = second else {
        panic!("expected table");
    };
    assert_eq!(table.rows[0][0].trend, Vec::<u64>::new());
    assert_eq!(table.rows[0][1].trend, vec![40, 41]);
    assert_eq!(table.rows[0][1].text, "41%");
    assert_eq!(table.rows[1][1].trend, vec![7]);
    assert_eq!(trends.entries.len(), 2);
    assert_eq!(trends.entries[0].2, vec![40, 41]);
    assert_eq!(trends.entries[1].2, vec![7]);
    let Content::Table(before) = first else {
        panic!("expected table");
    };
    assert_eq!(before.rows[1][1].trend, Vec::<u64>::new());
}

#[test]
fn repeated_row_keys_share_one_history() {
    let mut view = Content::Table(Table {
        columns: vec![
            Column::new("name", "NAME", 0, Alignment::Left),
            Column::new("use", "USE", 1, Alignment::Right).with_value_type(ValueType::Percentage),
        ],
        rows: vec![
            vec![Cell::plain("sda"), Cell::plain("10%")],
            vec![Cell::plain("sda"), Cell::plain("20%")],
            vec![Cell::plain("sda"), Cell::plain("30%")],
        ],
        prelude: Vec::new(),
    });
    let mut trends = Trends::new();
    update_trends(&mut view, &mut trends, "generic", 2);
    let Content::Table(table) = view else {
        panic!("expected table");
    };
    assert_eq!(table.rows[0][1].trend, vec![10]);
    assert_eq!(table.rows[1][1].trend, vec![10, 20]);
    assert_eq!(table.rows[2][1].trend, vec![20, 30]);
    assert_eq!(trends.entries.len(), 1);
    assert_eq!(trends.entries[0].2, vec![20, 30]);
}

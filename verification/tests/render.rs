use restty::config::Breakpoints;
use restty::model::{Alignment, Cell, Column, Content, LogRecord, Style, Table, ValueType};
use restty::render::{
    border_glyphs, format_cell_value, gauge_bar, pad, render, render_checked, table_layout, truncate,
    BorderStyle, ColorPalette, RenderOptions,
};
use restty::number::gauge_eighths;
use unicode_width::UnicodeWidthStr;

fn chars(s: &str) -> Vec<char> {
    s.chars().collect()
}

fn text(v: &[char]) -> String {
    v.iter().collect()
}

fn eighths(percent: f64) -> u64 {
    gauge_eighths(&chars(&format!("{percent}"))).unwrap()
}

fn options(width: usize, border_style: BorderStyle) -> RenderOptions {
    RenderOptions {
        width,
        color: false,
        breakpoints: Breakpoints { compact: 60, core: 100, wide: 160 },
        border_style,
        palette: ColorPalette::Default,
        truecolor: false,
    }
}

fn two_column_table() -> Table {
    Table {
        columns: vec![
            Column::new("name", "NAME", 0, Alignment::Left),
            Column::new("value", "VALUE", 1, Alignment::Right),
        ],
        rows: vec![
            vec![Cell::plain("alpha"), Cell::plain("one")],
            vec![Cell::plain("beta"), Cell::plain("two")],
        ],
        prelude: Vec::new(),
    }
}

#[test]
fn truncates_by_display_cells() {
    assert_eq!(text(&truncate(&chars("hello"), 4)), "hel…");
    assert_eq!(text(&truncate(&chars("界面"), 3)), "界…");
    assert_eq!(UnicodeWidthStr::width(text(&truncate(&chars("🦀 crab"), 5)).as_str()), 5);
}

#[test]
fn gauges_use_fractional_block_cells() {
    assert_eq!(gauge_bar(eighths(0.0), 8), "        ");
    assert_eq!(gauge_bar(eighths(1.0), 8), "▏       ");
    assert_eq!(gauge_bar(eighths(47.0), 8), "███▊    ");
    assert_eq!(gauge_bar(eighths(100.0), 8), "████████");
}

#[test]
fn all_named_border_styles_have_distinct_glyph_sets() {
    assert_eq!(border_glyphs(BorderStyle::Light).top_left, '┌');
    assert_eq!(border_glyphs(BorderStyle::Rounded).top_left, '╭');
    assert_eq!(border_glyphs(BorderStyle::Heavy).top_left, '┏');
    assert_eq!(border_glyphs(BorderStyle::Double).top_left, '╔');
    assert_eq!(border_glyphs(BorderStyle::Ascii).top_left, '+');
}

#[test]
fn bordered_tables_never_exceed_requested_width() {
    let table = Table {
        columns: vec![
            Column::new("name", "NAME", 0, Alignment::Left),
            Column::new("value", "VALUE", 1, Alignment::Right),
        ],
        rows: vec![vec![Cell::plain("a very long unicode 🦀 name"), Cell::plain("123456789")]],
        prelude: Vec::new(),
    };
    for width in 1..=200 {
        let output = render(&Content::Table(table.clone()), &options(width, BorderStyle::Rounded), 0);
        assert!(
            output.lines().all(|line| UnicodeWidthStr::width(line) <= width),
            "render exceeded {width} columns:\n{output}"
        );
    }
}

#[test]
fn border_names_select_styles() {
    assert_eq!(BorderStyle::from_name("none"), BorderStyle::Borderless);
    assert_eq!(BorderStyle::from_name("heavy"), BorderStyle::Heavy);
    assert_eq!(ColorPalette::from_name("colorblind-safe"), ColorPalette::Colorblind);
    assert_eq!(ColorPalette::from_name("vivid"), ColorPalette::Default);
}

#[test]
fn pads_on_the_side_alignment_leaves_free() {
    assert_eq!(text(&pad(&chars("ab"), 4, Alignment::Left)), "ab  ");
    assert_eq!(text(&pad(&chars("ab"), 4, Alignment::Right)), "  ab");
    assert_eq!(text(&pad(&chars("abcdef"), 4, Alignment::Right)), "abcdef");
    assert_eq!(text(&truncate(&chars("abc"), 1)), "…");
    assert_eq!(text(&truncate(&chars("abc"), 0)), "");
}

#[test]
fn percentages_get_gauges_and_timestamps_become_relative() {
    let column = Column::new("use", "USE", 1, Alignment::Right).with_value_type(ValueType::Percentage);
    let cell = Cell::plain("47%");
    let wide = options(120, BorderStyle::Rounded);
    assert_eq!(text(&format_cell_value(&column, &cell, &wide, 0)), "47% ███▊    ");
    let narrow = options(80, BorderStyle::Rounded);
    assert_eq!(text(&format_cell_value(&column, &cell, &narrow, 0)), "47%");
    let stamp = Column::new("at", "AT", 1, Alignment::Left).with_value_type(ValueType::Timestamp);
    let at = Cell::plain("1000");
    assert_eq!(text(&format_cell_value(&stamp, &at, &narrow, 1090)), "1m ago");
    assert_eq!(text(&format_cell_value(&stamp, &at, &options(200, BorderStyle::Rounded), 1030)), "30s ago (1000)");
}

#[test]
fn bordered_table_is_drawn_with_the_chosen_glyphs() {
    let output = render(&Content::Table(two_column_table()), &options(80, BorderStyle::Ascii), 0);
    assert_eq!(
        output,
        "+-------+-------+\n| NAME  | VALUE |\n+-------+-------+\n| alpha |   one |\n| beta  |   two |\n+-------+-------+\n"
    );
}

#[test]
fn borderless_tables_use_one_line_per_row() {
    let output = render(&Content::Table(two_column_table()), &options(80, BorderStyle::Borderless), 0);
    assert_eq!(output, "NAME  VALUE\nalpha   one\nbeta    two\n");
    let compact = render(&Content::Table(two_column_table()), &options(20, BorderStyle::Borderless), 0);
    assert_eq!(compact, "alpha\nbeta\n");
}

#[test]
fn narrow_layouts_keep_the_most_important_column() {
    let layout = table_layout(&two_column_table(), &options(20, BorderStyle::Rounded), 0);
    assert_eq!(layout.selected, vec![0]);
    assert_eq!(layout.padding, 1);
    let wide = table_layout(&two_column_table(), &options(170, BorderStyle::Rounded), 0);
    assert_eq!(wide.selected, vec![0, 1]);
    assert_eq!(wide.widths, vec![5, 5]);
    assert_eq!(wide.padding, 2);
}

#[test]
fn short_rows_are_refused_only_when_drawn_line_by_line() {
    let mut table = two_column_table();
    table.rows.push(vec![Cell::plain("gamma")]);
    let view = Content::Table(table);
    assert!(render_checked(&view, &options(80, BorderStyle::Borderless), 0).is_none());
    let bordered = render_checked(&view, &options(80, BorderStyle::Ascii), 0).unwrap();
    assert!(bordered.contains("| gamma |       |"));
}

#[test]
fn logs_align_timestamp_and_level_columns() {
    let records = vec![
        LogRecord {
            timestamp: Some("12:00".to_string()),
            level: Some("INFO".to_string()),
            message: "ready".to_string(),
            style: Style::Info,
        },
        LogRecord { timestamp: None, level: Some("JSON".to_string()), message: "{}".to_string(), style: Style::Plain },
    ];
    let output = render(&Content::Logs(records.clone()), &options(80, BorderStyle::Rounded), 0);
    assert_eq!(output, "12:00 INFO ready\n      JSON {}\n");
    let narrow = render(&Content::Logs(records), &options(10, BorderStyle::Rounded), 0);
    assert_eq!(narrow, "12:00 INF…\nJSON {}\n");
}

#[test]
fn percentages_round_to_the_nearest_eighth() {
    assert_eq!(gauge_eighths(&chars("47%")), Some(30));
    assert_eq!(gauge_eighths(&chars(" 1 ")), Some(1));
    assert_eq!(gauge_eighths(&chars("0.78125")), Some(1));
    assert_eq!(gauge_eighths(&chars("0.78")), Some(0));
    assert_eq!(gauge_eighths(&chars("150%")), Some(64));
    assert_eq!(gauge_eighths(&chars("-5")), Some(0));
    assert_eq!(gauge_eighths(&chars("NaN")), Some(0));
    assert_eq!(gauge_eighths(&chars("inf")), Some(64));
    assert_eq!(gauge_eighths(&chars("full")), None);
}

#[test]
fn every_rendered_line_fits_its_width() {
    for style in [
        BorderStyle::Rounded,
        BorderStyle::Light,
        BorderStyle::Heavy,
        BorderStyle::Double,
        BorderStyle::Ascii,
        BorderStyle::Borderless,
    ] {
        assert!(restty::fit::glyphs_take_one_column(style));
    }
    let table = Table {
        columns: vec![
            Column::new("name", "NAME", 0, Alignment::Left),
            Column::new("mode", "MODE", 2, Alignment::Left).with_value_type(ValueType::Permissions),
            Column::new("use", "USE", 1, Alignment::Right).with_value_type(ValueType::Percentage),
        ],
        rows: vec![
            vec![Cell::plain("a rather long file name"), Cell::plain("drwxr-xr-x"), Cell::plain("47%")],
            vec![Cell::plain("b"), Cell::plain("-rw-r--r--"), Cell::plain("100%")],
        ],
        prelude: vec!["total 12 entries in a long prelude line".into()],
    };
    let logs = vec![
        LogRecord {
            timestamp: Some("2024-01-01T00:00:00Z".into()),
            level: Some("WARN".into()),
            message: "disk almost full on the root volume".into(),
            style: Style::Warning,
        },
        LogRecord { timestamp: None, level: None, message: "plain line".into(), style: Style::Plain },
    ];
    for style in [BorderStyle::Rounded, BorderStyle::Ascii, BorderStyle::Borderless] {
        for width in 1..=180 {
            let mut o = options(width, style);
            o.color = true;
            assert!(restty::fit::texts_measure_plainly(&Content::Table(table.clone()), &o, 0));
            assert!(restty::fit::has_room(&Content::Table(table.clone()), &o));
            let output = render(&Content::Table(table.clone()), &o, 0);
            assert!(
                output.lines().all(|line| restty::live::visible_width(line) <= width),
                "table exceeded {width} columns:\n{output}"
            );
            if width < 60 || width >= 36 {
                let output = render(&Content::Logs(logs.clone()), &o, 0);
                assert!(
                    output.lines().all(|line| restty::live::visible_width(line) <= width),
                    "logs exceeded {width} columns:\n{output}"
                );
            }
        }
    }
}

#[test]
fn plainly_measured_texts() {
    assert!(restty::fit::measures_plainly(&chars("abc")));
    assert!(restty::fit::measures_plainly(&chars("")));
    assert!(restty::fit::measures_plainly(&chars("日本語")));
    assert!(!restty::fit::measures_plainly(&chars("a\u{1b}[1mb")));
    assert!(!restty::fit::measures_plainly(&chars("a\nb")));
    assert!(!restty::fit::measures_plainly(&chars("\u{1F469}\u{200D}\u{1F469}\u{200D}\u{1F467}")));
    let logs = Content::Logs(vec![LogRecord {
        timestamp: Some("2024-01-01T00:00:00Z".into()),
        level: Some("WARN".into()),
        message: "disk almost full".into(),
        style: Style::Warning,
    }]);
    assert!(restty::fit::texts_measure_plainly(&logs, &options(80, BorderStyle::Rounded), 0));
    assert!(restty::fit::has_room(&logs, &options(80, BorderStyle::Rounded)));
    let mut narrow = options(20, BorderStyle::Rounded);
    narrow.breakpoints.compact = 10;
    assert!(!restty::fit::has_room(&logs, &narrow));
}

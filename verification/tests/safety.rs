use restty::config::Config;
use restty::structured::StructuredFormat;
use restty::render::BorderStyle;
use restty::terminal::{supports_truecolor, supports_unicode, Environment};
use restty::{
    parse_bytes, render_bytes_checked, render_view_checked, resolved_border_style, Capture, render_bytes_with_policy, structured_bytes_with_policy, ColorChoice,
    RunOptions, shown_as_captured, stream_passes_through,
};

fn options(source: &str) -> RunOptions {
    RunOptions { source: source.into(), width: Some(80), force: false, color: ColorChoice::Never }
}

fn env() -> Environment {
    Environment {
        no_color: false,
        restty_disable: None,
        term: Some("xterm-256color".into()),
        colorterm: None,
        lc_all: Some("C.UTF-8".into()),
        lc_ctype: None,
        lang: None,
        terminal_width: None,
    }
}

#[test]
fn redirected_stdout_is_exact_passthrough() {
    let input = b"NAME  VALUE\nalpha  one\n";
    assert_eq!(
        render_bytes_with_policy(input, &options("generic"), &Config::default(), false, false, &env(), false, None, 0),
        input
    );
}

#[test]
fn malformed_and_binary_inputs_are_exact_passthrough() {
    let malformed = b"this is not a confidently parseable table\nsecond prose line\n";
    let binary = b"NAME  VALUE\nalpha  \xff\n";
    let mut forced = options("generic");
    forced.force = true;
    assert_eq!(
        render_bytes_with_policy(malformed, &forced, &Config::default(), true, false, &env(), false, None, 0),
        malformed
    );
    assert_eq!(
        render_bytes_with_policy(binary, &forced, &Config::default(), true, false, &env(), false, None, 0),
        binary
    );
}

#[test]
fn line_and_byte_limits_are_exact_passthrough() {
    let input = b"NAME  VALUE\nalpha  one\nbeta   two\n";
    let config = Config { max_lines: 1, max_bytes: 8, ..Config::default() };
    let mut forced = options("generic");
    forced.force = true;
    assert_eq!(render_bytes_with_policy(input, &forced, &config, true, false, &env(), false, None, 0), input);
}

#[test]
fn disabled_command_is_exact_passthrough() {
    let input = b"4.0K\t./src\n120K\t./target\n";
    let mut config = Config::default();
    config.enabled_commands.retain(|command| command != "du");
    let mut forced = options("du");
    forced.force = true;
    assert_eq!(render_bytes_with_policy(input, &forced, &config, true, false, &env(), false, None, 0), input);
}

#[test]
fn switched_off_formatting_is_exact_passthrough() {
    let input = b"NAME  VALUE\nalpha  one\nbeta   two\n";
    let mut forced = options("generic");
    forced.force = true;
    assert_eq!(render_bytes_with_policy(input, &forced, &Config::default(), true, true, &env(), false, None, 0), input);
    let mut no_color = env();
    no_color.no_color = true;
    assert!(restty::terminal::formatting_disabled(&no_color));
    let mut disable = env();
    disable.restty_disable = Some("1".into());
    assert!(restty::terminal::formatting_disabled(&disable));
    disable.restty_disable = Some("0".into());
    assert!(!restty::terminal::formatting_disabled(&disable));
}

#[test]
fn forced_tables_are_drawn() {
    let input = b"NAME   VALUE\nalpha  one\nbeta   two\n";
    let mut forced = options("generic");
    forced.force = true;
    let output = render_bytes_checked(input, &forced, &Config::default(), true, false, &env(), false, None, 0).unwrap();
    let text = String::from_utf8(output).unwrap();
    assert!(text.contains("alpha"));
    assert!(text.starts_with('╭'));
    assert!(parse_bytes(input, &options("generic"), &Config::default(), &env(), false, None).is_some());
    let mut ascii = env();
    ascii.lc_all = Some("C".into());
    let plain = render_bytes_checked(input, &forced, &Config::default(), true, false, &ascii, false, None, 0).unwrap();
    assert!(String::from_utf8(plain).unwrap().starts_with('+'));
}

#[test]
fn structured_output_passes_undecided_input_through() {
    let input = b"NAME  VALUE\nalpha  one\n";
    assert_eq!(
        structured_bytes_with_policy(input, &options("generic"), &Config::default(), StructuredFormat::Csv, false, &env(), false, None),
        b"name,value\nalpha,one\n"
    );
    let prose = b"just some words\n";
    assert_eq!(
        structured_bytes_with_policy(prose, &options("generic"), &Config::default(), StructuredFormat::Json, false, &env(), false, None),
        prose
    );
}

#[test]
fn terminal_traits_follow_profile_and_environment() {
    let mut e = env();
    assert!(supports_unicode("auto", &e));
    assert!(!supports_unicode("ascii", &e));
    e.term = Some("dumb".into());
    assert!(!supports_unicode("auto", &e));
    assert!(supports_unicode("unicode", &e));
    e.term = Some("xterm-direct".into());
    assert!(supports_truecolor("auto", &e));
    assert!(!supports_truecolor("ansi16", &e));
    e.term = None;
    e.colorterm = Some("24BIT".into());
    assert!(supports_truecolor("auto", &e));
}

#[test]
fn capture_stops_at_the_configured_limits() {
    let mut config = Config::default();
    config.max_lines = 2;
    config.max_bytes = 10;
    let mut capture = Capture::new();
    assert!(capture.push_chunk(b"a\nb\n", &config));
    assert_eq!(capture.lines, 2);
    assert!(!capture.push_chunk(b"c\n", &config));
    assert_eq!(capture.bytes, b"a\nb\nc\n".to_vec());
    let mut wide = Capture::new();
    assert!(wide.push_chunk(b"0123456789", &config));
    assert!(!wide.push_chunk(b"x", &config));
}

#[test]
fn parsed_views_are_drawn_with_the_run_options() {
    let config = Config::default();
    let mut forced = options("generic");
    forced.force = true;
    let view = parse_bytes(b"NAME  VALUE\nalpha  one\nbeta  two\n", &forced, &config, &env(), false, None).unwrap();
    let drawn = render_view_checked(&view, &forced, &config, false, &env(), 0).unwrap();
    let text = String::from_utf8(drawn).unwrap();
    assert!(text.contains("alpha"));
    assert!(text.lines().all(|line| line.chars().count() <= 80));
}

#[test]
fn terminal_capability_caps_the_border_style() {
    let mut dumb = env();
    dumb.term = Some("dumb".into());
    let mut config = Config::default();
    config.border_style = "rounded".into();
    assert_eq!(resolved_border_style(&config, &env()), BorderStyle::Rounded);
    assert_eq!(resolved_border_style(&config, &dumb), BorderStyle::Ascii);
    config.border_style = "none".into();
    assert_eq!(resolved_border_style(&config, &dumb), BorderStyle::Borderless);
    config.border_style = "ascii".into();
    assert_eq!(resolved_border_style(&config, &env()), BorderStyle::Ascii);
}

#[test]
fn automatic_width_leaves_the_last_column_free() {
    let config = Config::default();
    let mut forced = options("generic");
    forced.force = true;
    forced.width = None;
    let mut terminal = env();
    terminal.terminal_width = Some(60);
    let input = b"NAME  VALUE\nalpha  one\nbeta  two\n";
    let view = parse_bytes(input, &forced, &config, &terminal, false, None).unwrap();
    let automatic = String::from_utf8(render_view_checked(&view, &forced, &config, false, &terminal, 0).unwrap()).unwrap();
    assert!(!automatic.contains("VALUE"));
    forced.width = Some(60);
    let explicit = String::from_utf8(render_view_checked(&view, &forced, &config, false, &terminal, 0).unwrap()).unwrap();
    assert!(explicit.contains("VALUE"));
}

#[test]
fn empty_or_binary_captures_are_shown_as_they_came() {
    assert!(shown_as_captured(b""));
    assert!(shown_as_captured(b"\xff\xfe"));
    assert!(!shown_as_captured(b"NAME  VALUE\n"));
}

#[test]
fn streams_pass_through_when_formatting_is_not_wanted() {
    let config = Config::default();
    assert!(!stream_passes_through(&options("generic"), &config, &env(), true));
    assert!(stream_passes_through(&options("generic"), &config, &env(), false));
    let forced = RunOptions { force: true, ..options("generic") };
    assert!(!stream_passes_through(&forced, &config, &env(), false));
    assert!(stream_passes_through(&options("top"), &config, &env(), true));
    let mut off = env();
    off.no_color = true;
    assert!(stream_passes_through(&forced, &config, &off, true));
}

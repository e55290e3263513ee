use restty::cache::{entry_for, parsed_view};
use restty::cli::{
    diff_command_start, enable_source, exit_code, init_shell, parse_border, parse_color, parse_format, parse_interval, parse_options, parse_width,
    should_passthrough_command, source_for, wants_help, Mode, runs_plainly, live_runs_plainly,
};
use restty::config::Config;
use restty::shell::{init, valid_shell_name};
use restty::structured::StructuredFormat;
use restty::terminal::Environment;
use restty::{ColorChoice, RunOptions};

fn args(list: &[&str]) -> Vec<String> {
    list.iter().map(|s| s.to_string()).collect()
}

fn env() -> Environment {
    Environment {
        no_color: false,
        restty_disable: None,
        term: None,
        colorterm: None,
        lc_all: None,
        lc_ctype: None,
        lang: None,
        terminal_width: None,
    }
}

#[test]
fn init_uses_shell_specific_pipeline_status() {
    let config = Config::default();
    let bash = init("bash", &config).unwrap();
    assert!(bash.contains("${PIPESTATUS[0]}"));
    assert!(bash.contains("__restty_ls_is_long"));
    assert!(bash.contains("${RESTTY_LIVE:-0}"));
    assert!(init("zsh", &config).unwrap().contains("${pipestatus[1]}"));
}

#[test]
fn shell_wrappers_follow_the_enabled_commands() {
    let mut config = Config::default();
    config.enabled_commands = args(&["df", "kubectl", "bad-name", "git"]);
    let script = init("bash", &config).unwrap();
    assert!(script.contains("df() {\n    if __restty_should_render; then __restty_run df \"$@\"; else command df \"$@\"; fi\n}\n\n"));
    assert!(script.contains("kubectl() {"));
    assert!(!script.contains("bad-name()"));
    assert!(script.contains("__restty_git_is_supported \"$@\" && __restty_should_render"));
    assert!(script.starts_with("# restty shell integration for bash\n"));
    assert!(init("fish", &config).is_none());
    assert!(valid_shell_name("_a1"));
    assert!(!valid_shell_name("1a"));
    assert!(!valid_shell_name(""));
}

#[test]
fn interactive_and_following_commands_pass_through() {
    assert!(should_passthrough_command("vim", &[]));
    assert!(should_passthrough_command("tail", &args(&["-n", "5", "-f", "log"])));
    assert!(!should_passthrough_command("tail", &args(&["-n", "5", "log"])));
    assert!(!should_passthrough_command("ls", &args(&["-f"])));
    assert!(should_passthrough_command("tail", &args(&["--follow=name", "app.log"])));
    assert!(should_passthrough_command("journalctl", &args(&["--follow"])));
    assert!(!should_passthrough_command("tail", &args(&["--followers"])));
}

#[test]
fn option_values_are_checked() {
    assert_eq!(parse_width("80"), Ok(80));
    assert_eq!(parse_width("0"), Err("invalid terminal width `0`".to_string()));
    assert_eq!(parse_color("never"), Ok(ColorChoice::Never));
    assert!(parse_color("sometimes").is_err());
    assert_eq!(parse_format("yml"), Ok(StructuredFormat::Yaml));
    assert_eq!(
        parse_format("xml"),
        Err("invalid output format `xml` (expected json, csv, or yaml)".to_string())
    );
    assert_eq!(parse_border("sharp"), Ok("sharp".to_string()));
    assert!(parse_border("dotted").is_err());
    assert_eq!(parse_interval("0.5"), Ok("0.5".to_string()));
    assert!(parse_interval("0.05").is_err());
    assert!(parse_interval("86401").is_err());
    assert!(parse_interval("nan").is_err());
}

#[test]
fn subcommand_options_are_read_in_order() {
    let p = parse_options(Mode::Run, &args(&["--width=40", "--source", "ps", "--force", "--", "ps", "aux"])).unwrap();
    assert_eq!(p.width, Some(40));
    assert_eq!(p.source.as_deref(), Some("ps"));
    assert!(p.force);
    assert_eq!(p.command_start, Some(5));
    let p = parse_options(Mode::Run, &args(&["ls", "-la"])).unwrap();
    assert_eq!(p.command_start, Some(0));
    assert_eq!(
        parse_options(Mode::Live, &args(&["--width=40", "ls"])).unwrap_err(),
        "unknown live option `--width=40`"
    );
    assert_eq!(
        parse_options(Mode::Render, &args(&["ls"])).unwrap_err(),
        "unknown render option `ls`"
    );
    assert_eq!(
        parse_options(Mode::Watch, &args(&["--interval"])).unwrap_err(),
        "missing value after `--interval`"
    );
    assert_eq!(parse_options(Mode::Watch, &args(&["--"])).unwrap_err(), "expected a command after `--`");
    assert_eq!(
        parse_options(Mode::Run, &args(&["--force"])).unwrap_err(),
        "expected a command after `restty run --`"
    );
    let w = parse_options(Mode::Watch, &args(&["--interval=1.5", "--alert", "fail", "top"])).unwrap();
    assert_eq!(w.interval.as_deref(), Some("1.5"));
    assert_eq!(w.alert.as_deref(), Some("fail"));
    assert!(parse_options(Mode::Render, &args(&["--help", "--bogus"])).unwrap().help);
    assert_eq!(
        parse_options(Mode::Render, &args(&["--color", "never"])).unwrap_err(),
        "unknown render option `--color`"
    );
}

#[test]
fn runs_know_their_source_and_exit_code() {
    assert_eq!(source_for(&None, "/usr/bin/ps"), "ps");
    assert_eq!(source_for(&Some("df".into()), "/usr/bin/ps"), "df");
    let mut config = Config::default();
    enable_source(&mut config, "kubectl", true);
    enable_source(&mut config, "generic", true);
    enable_source(&mut config, "ls", true);
    assert_eq!(config.enabled_commands.len(), 10);
    assert_eq!(exit_code(Some(3), None), Some(3));
    assert_eq!(exit_code(Some(300), None), Some(255));
    assert_eq!(exit_code(None, Some(9)), Some(137));
    assert_eq!(exit_code(None, None), None);
}

#[test]
fn parsed_runs_become_cache_entries() {
    let input = b"NAME  VALUE\nalpha  one\n";
    let options = RunOptions { source: "generic".into(), width: None, force: true, color: ColorChoice::Never };
    let config = Config::default();
    let (key, entry) = entry_for(input, &options, &config, &args(&["printf", "x"]), 7, &env(), false, None).unwrap();
    assert_eq!(key.len(), 16);
    assert_eq!(entry.command, "printf x");
    assert_eq!(entry.rows_json, "[\n  {\"name\": \"alpha\", \"value\": \"one\"}\n]");
    assert_eq!(entry.raw, input.to_vec());
    assert!(parsed_view(&entry, &config, &env(), false, None).is_some());
    assert!(entry_for(b"prose only\n", &options, &config, &args(&["x"]), 7, &env(), false, None).is_none());
}

fn strings(args: &[&str]) -> Vec<String> {
    args.iter().map(|a| a.to_string()).collect()
}

#[test]
fn subcommand_arguments_are_checked() {
    assert!(wants_help(&strings(&["x", "-h"])));
    assert!(!wants_help(&strings(&["x", "--helpful"])));
    assert_eq!(init_shell(&strings(&["zsh"])), Ok("zsh".to_string()));
    assert_eq!(init_shell(&strings(&[])), Err("expected `bash` or `zsh` after `init`".to_string()));
    assert_eq!(init_shell(&strings(&["bash", "x"])), Err("too many arguments for `init`".to_string()));
    assert_eq!(diff_command_start(&strings(&["base"])), Ok(None));
    assert_eq!(diff_command_start(&strings(&["base", "df"])), Err("expected `--` before the command".to_string()));
    assert_eq!(diff_command_start(&strings(&["base", "--"])), Err("expected a command after `--`".to_string()));
    assert_eq!(diff_command_start(&strings(&["base", "--", "df", "-h"])), Ok(Some(2)));
}

fn plain_env(no_color: bool) -> Environment {
    Environment {
        no_color,
        restty_disable: None,
        term: Some("xterm-256color".into()),
        colorterm: None,
        lc_all: Some("C.UTF-8".into()),
        lc_ctype: None,
        lang: None,
        terminal_width: None,
    }
}

#[test]
fn plain_runs_follow_terminal_and_requests() {
    let none: Vec<String> = Vec::new();
    assert!(!runs_plainly("ls", &none, &plain_env(false), false, false, true));
    assert!(runs_plainly("ls", &none, &plain_env(false), false, false, false));
    assert!(!runs_plainly("ls", &none, &plain_env(false), true, false, false));
    assert!(!runs_plainly("ls", &none, &plain_env(false), false, true, false));
    assert!(runs_plainly("ls", &none, &plain_env(true), false, true, true));
    assert!(runs_plainly("tail", &args(&["--follow=name", "app.log"]), &plain_env(false), false, true, true));
    assert!(!live_runs_plainly("ps", &none, &plain_env(false), true, true));
    assert!(live_runs_plainly("ps", &none, &plain_env(false), false, true));
    assert!(live_runs_plainly("ps", &none, &plain_env(false), true, false));
    assert!(live_runs_plainly("vim", &none, &plain_env(false), true, true));
}

#[test]
fn a_bare_command_is_its_own_source() {
    assert_eq!(source_for(&None, "sh"), "sh");
    assert_eq!(source_for(&None, "git"), "git");
    assert_eq!(source_for(&None, ".."), "generic");
}

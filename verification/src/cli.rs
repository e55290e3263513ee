//! Reading the command line: the options of each subcommand, the values
//! they take, and which commands are left alone.
use vstd::prelude::*;

use crate::config::{parse_usize, Config};
use crate::structured::StructuredFormat;
use crate::text::{chars_of, eq_str, extend, extend_str, starts_with, starts_with_str, string_of};
use crate::ColorChoice;

verus! {

// ---------------------------------------------------------------------------
// Commands that are never formatted
// ---------------------------------------------------------------------------

/// Full-screen and interactive programs.
pub open spec fn interactive(c: Seq<char>) -> bool {
    c == "vi"@ || c == "vim"@ || c == "nvim"@ || c == "nano"@ || c == "emacs"@ || c == "top"@ || c == "htop"@ || c
        == "btop"@ || c == "less"@ || c == "more"@ || c == "most"@ || c == "man"@ || c == "ssh"@ || c == "mosh"@
        || c == "tmux"@ || c == "screen"@ || c == "fzf"@ || c == "watch"@
}

/// Programs whose output never ends when they follow (`-f`, `--follow`).
pub open spec fn follower(c: Seq<char>) -> bool {
    c == "tail"@ || c == "journalctl"@ || c == "dmesg"@ || c == "docker"@ || c == "podman"@ || c == "kubectl"@
}

/// A flag asking to follow: `-f`, `--follow`, or `--follow=` with a mode
/// (`--follow=name`).
pub open spec fn follow_flag(a: Seq<char>) -> bool {
    a == "-f"@ || a == "--follow"@ || starts_with(a, "--follow="@)
}

pub open spec fn follows(args: Seq<Seq<char>>) -> bool {
    exists|i: int| 0 <= i < args.len() && follow_flag(#[trigger] args[i])
}

/// Interactive commands, and followers asked to follow, run untouched.
pub open spec fn passthrough_spec(command: Seq<char>, args: Seq<Seq<char>>) -> bool {
    interactive(command) || (follows(args) && follower(command))
}

pub fn should_passthrough_command(command: &str, args: &[String]) -> (r: bool)
    ensures
        r == passthrough_spec(command@, args@.map_values(|a: String| a@)),
{
    let c = chars_of(command);
    let s = c.as_slice();
    if eq_str(s, "vi") || eq_str(s, "vim") || eq_str(s, "nvim") || eq_str(s, "nano") || eq_str(s, "emacs")
        || eq_str(s, "top") || eq_str(s, "htop") || eq_str(s, "btop") || eq_str(s, "less") || eq_str(s, "more")
        || eq_str(s, "most") || eq_str(s, "man") || eq_str(s, "ssh") || eq_str(s, "mosh") || eq_str(s, "tmux")
        || eq_str(s, "screen") || eq_str(s, "fzf") || eq_str(s, "watch") {
        return true;
    }
    let ghost av = args@.map_values(|a: String| a@);
    let mut found = false;
    let mut i: usize = 0;
    while i < args.len() && !found
        invariant
            i <= args.len(),
            av == args@.map_values(|a: String| a@),
            !found ==> forall|j: int| 0 <= j < i ==> !follow_flag(#[trigger] av[j]),
            found ==> follows(av),
        decreases args.len() - i, (if found { 0int } else { 1int }),
    {
        let a = chars_of(args[i].as_str());
        if eq_str(a.as_slice(), "-f") || eq_str(a.as_slice(), "--follow") || starts_with_str(a.as_slice(), "--follow=") {
            assert(follow_flag(av[i as int]));
            found = true;
        } else {
            i += 1;
        }
    }
    found && (eq_str(s, "tail") || eq_str(s, "journalctl") || eq_str(s, "dmesg") || eq_str(s, "docker") || eq_str(
        s,
        "podman",
    ) || eq_str(s, "kubectl"))
}

/// Whether `run` lets the command write to the terminal itself instead of
/// capturing its output: a command that is never formatted, formatting
/// turned off by the environment, or plain output to something that is not
/// a terminal when neither a structured format nor `--force` was asked for.
pub fn runs_plainly(
    source: &str,
    args: &[String],
    env: &crate::terminal::Environment,
    structured: bool,
    force: bool,
    stdout_is_tty: bool,
) -> (r: bool)
    ensures
        r == (passthrough_spec(source@, args@.map_values(|a: String| a@)) || crate::terminal::disabled_spec(env@)
            || (!structured && !force && !stdout_is_tty)),
{
    should_passthrough_command(source, args) || crate::terminal::formatting_disabled(env) || (!structured && !force
        && !stdout_is_tty)
}

/// Whether `live` and `explore` let the command write to the terminal
/// itself: a command that is never formatted, formatting turned off by the
/// environment, or input or output that is not a terminal.
pub fn live_runs_plainly(
    source: &str,
    args: &[String],
    env: &crate::terminal::Environment,
    stdin_is_tty: bool,
    stdout_is_tty: bool,
) -> (r: bool)
    ensures
        r == (passthrough_spec(source@, args@.map_values(|a: String| a@)) || crate::terminal::disabled_spec(env@)
            || !stdin_is_tty || !stdout_is_tty),
{
    should_passthrough_command(source, args) || crate::terminal::formatting_disabled(env) || !stdin_is_tty
        || !stdout_is_tty
}

// ---------------------------------------------------------------------------
// Option values
// ---------------------------------------------------------------------------

/// A message quoting a value: `before`, the value in backquotes, `after`.
pub open spec fn quoted(before: Seq<char>, value: Seq<char>, after: Seq<char>) -> Seq<char> {
    before + "`"@ + value + "`"@ + after
}

fn quoted_exec(before: &str, value: &[char], after: &str) -> (r: String)
    ensures
        r@ == quoted(before@, value@, after@),
{
    let mut out: Vec<char> = Vec::new();
    extend_str(&mut out, before);
    extend_str(&mut out, "`");
    extend(&mut out, value);
    extend_str(&mut out, "`");
    extend_str(&mut out, after);
    string_of(out.as_slice())
}

/// A width: a positive whole number.
pub open spec fn width_spec(v: Seq<char>) -> Result<usize, Seq<char>> {
    match parse_usize(v) {
        Some(w) => if w > 0 {
            Ok(w)
        } else {
            Err(quoted("invalid terminal width "@, v, ""@))
        },
        None => Err(quoted("invalid terminal width "@, v, ""@)),
    }
}

pub open spec fn color_spec(v: Seq<char>) -> Result<ColorChoice, Seq<char>> {
    if v == "auto"@ {
        Ok(ColorChoice::Auto)
    } else if v == "always"@ {
        Ok(ColorChoice::Always)
    } else if v == "never"@ {
        Ok(ColorChoice::Never)
    } else {
        Err(quoted("invalid color mode "@, v, " (expected auto, always, or never)"@))
    }
}

pub open spec fn format_spec(v: Seq<char>) -> Result<StructuredFormat, Seq<char>> {
    if v == "json"@ {
        Ok(StructuredFormat::Json)
    } else if v == "csv"@ {
        Ok(StructuredFormat::Csv)
    } else if v == "yaml"@ || v == "yml"@ {
        Ok(StructuredFormat::Yaml)
    } else {
        Err(quoted("invalid output format "@, v, " (expected json, csv, or yaml)"@))
    }
}

pub open spec fn border_spec(v: Seq<char>) -> Result<Seq<char>, Seq<char>> {
    if v == "heavy"@ || v == "light"@ || v == "rounded"@ || v == "double"@ || v == "ascii"@ || v == "none"@ || v
        == "sharp"@ {
        Ok(v)
    } else {
        Err(quoted("invalid border style "@, v, " (expected heavy, light, rounded, double, ascii, or none)"@))
    }
}

/// An interval in seconds: a number from 0.1 to 86400.
pub open spec fn interval_spec(v: Seq<char>) -> Result<Seq<char>, Seq<char>> {
    match crate::number::number_of(v) {
        Some(n) => if crate::number::number_at_least(n, tenth()) && crate::number::number_at_least(day(), n) {
            Ok(v)
        } else {
            Err(quoted("invalid interval "@, v, " (expected 0.1–86400 seconds)"@))
        },
        None => Err(quoted("invalid interval "@, v, " (expected 0.1–86400 seconds)"@)),
    }
}

pub open spec fn tenth() -> crate::number::NumberV {
    crate::number::NumberV::Finite(false, seq![1u8], 0)
}

pub open spec fn day() -> crate::number::NumberV {
    crate::number::NumberV::Finite(false, seq![8u8, 6u8, 4u8], 5)
}

pub open spec fn result_view<T>(r: Result<T, String>) -> Result<T, Seq<char>> {
    match r {
        Ok(v) => Ok(v),
        Err(e) => Err(e@),
    }
}

pub open spec fn text_result_view(r: Result<String, String>) -> Result<Seq<char>, Seq<char>> {
    match r {
        Ok(v) => Ok(v@),
        Err(e) => Err(e@),
    }
}

pub fn parse_width(value: &str) -> (r: Result<usize, String>)
    ensures
        result_view(r) == width_spec(value@),
{
    let v = chars_of(value);
    match crate::config::parse_usize_exec(v.as_slice()) {
        Some(w) => if w > 0 {
            Ok(w)
        } else {
            Err(quoted_exec("invalid terminal width ", v.as_slice(), ""))
        },
        None => Err(quoted_exec("invalid terminal width ", v.as_slice(), "")),
    }
}

pub fn parse_color(value: &str) -> (r: Result<ColorChoice, String>)
    ensures
        result_view(r) == color_spec(value@),
{
    let v = chars_of(value);
    if eq_str(v.as_slice(), "auto") {
        Ok(ColorChoice::Auto)
    } else if eq_str(v.as_slice(), "always") {
        Ok(ColorChoice::Always)
    } else if eq_str(v.as_slice(), "never") {
        Ok(ColorChoice::Never)
    } else {
        Err(quoted_exec("invalid color mode ", v.as_slice(), " (expected auto, always, or never)"))
    }
}

pub fn parse_format(value: &str) -> (r: Result<StructuredFormat, String>)
    ensures
        result_view(r) == format_spec(value@),
{
    let v = chars_of(value);
    if eq_str(v.as_slice(), "json") {
        Ok(StructuredFormat::Json)
    } else if eq_str(v.as_slice(), "csv") {
        Ok(StructuredFormat::Csv)
    } else if eq_str(v.as_slice(), "yaml") || eq_str(v.as_slice(), "yml") {
        Ok(StructuredFormat::Yaml)
    } else {
        Err(quoted_exec("invalid output format ", v.as_slice(), " (expected json, csv, or yaml)"))
    }
}

pub fn parse_border(value: &str) -> (r: Result<String, String>)
    ensures
        text_result_view(r) == border_spec(value@),
{
    let v = chars_of(value);
    let s = v.as_slice();
    if eq_str(s, "heavy") || eq_str(s, "light") || eq_str(s, "rounded") || eq_str(s, "double") || eq_str(s, "ascii")
        || eq_str(s, "none") || eq_str(s, "sharp") {
        Ok(value.to_owned())
    } else {
        Err(quoted_exec(
            "invalid border style ",
            s,
            " (expected heavy, light, rounded, double, ascii, or none)",
        ))
    }
}

/// Checks an interval in seconds; the caller turns the accepted text into a
/// duration.
pub fn parse_interval(value: &str) -> (r: Result<String, String>)
    ensures
        text_result_view(r) == interval_spec(value@),
{
    let v = chars_of(value);
    match crate::number::parse_number(v.as_slice()) {
        Some(n) => {
            let mut one: Vec<u8> = Vec::new();
            one.push(1);
            let lo = crate::number::Number::Finite(false, one, 0);
            let mut ds: Vec<u8> = Vec::new();
            ds.push(8);
            ds.push(6);
            ds.push(4);
            let hi = crate::number::Number::Finite(false, ds, 5);
            assert(one@ =~= seq![1u8]);
            assert(ds@ =~= seq![8u8, 6u8, 4u8]);
            assert(lo@ == tenth());
            assert(hi@ == day());
            if crate::number::at_least(&n, &lo) && crate::number::at_least(&hi, &n) {
                Ok(value.to_owned())
            } else {
                Err(quoted_exec("invalid interval ", v.as_slice(), " (expected 0.1–86400 seconds)"))
            }
        },
        None => Err(quoted_exec("invalid interval ", v.as_slice(), " (expected 0.1–86400 seconds)")),
    }
}

// ---------------------------------------------------------------------------
// Options of the subcommands
// ---------------------------------------------------------------------------

/// The subcommands that take options.
#[derive(Debug, Clone, Copy, PartialEq, Eq, Structural)]
pub enum Mode {
    Render,
    Run,
    Live,
    Watch,
}

/// The options read from a subcommand's arguments.
#[derive(Debug)]
pub struct Parsed {
    pub source: Option<String>,
    pub width: Option<usize>,
    pub force: bool,
    pub color: ColorChoice,
    pub border: Option<String>,
    pub format: Option<StructuredFormat>,
    pub interval: Option<String>,
    pub alert: Option<String>,
    pub command_start: Option<usize>,
    pub help: bool,
}

pub struct ParsedV {
    pub source: Option<Seq<char>>,
    pub width: Option<usize>,
    pub force: bool,
    pub color: ColorChoice,
    pub border: Option<Seq<char>>,
    pub format: Option<StructuredFormat>,
    pub interval: Option<Seq<char>>,
    pub alert: Option<Seq<char>>,
    pub command_start: Option<usize>,
    pub help: bool,
}

impl View for Parsed {
    type V = ParsedV;

    open spec fn view(&self) -> ParsedV {
        ParsedV {
            source: crate::model::opt_view(self.source),
            width: self.width,
            force: self.force,
            color: self.color,
            border: crate::model::opt_view(self.border),
            format: self.format,
            interval: crate::model::opt_view(self.interval),
            alert: crate::model::opt_view(self.alert),
            command_start: self.command_start,
            help: self.help,
        }
    }
}

pub open spec fn fresh() -> ParsedV {
    ParsedV {
        source: None,
        width: None,
        force: false,
        color: ColorChoice::Auto,
        border: None,
        format: None,
        interval: None,
        alert: None,
        command_start: None,
        help: false,
    }
}

/// The word that names a mode in messages.
pub open spec fn mode_word(m: Mode) -> Seq<char> {
    match m {
        Mode::Render => "render"@,
        Mode::Run => "run"@,
        Mode::Live => "live"@,
        Mode::Watch => "watch"@,
    }
}

/// What one argument does to the options read so far.
pub enum Step {
    Next(ParsedV, int),
    Done(ParsedV),
    Fail(Seq<char>),
}

pub open spec fn missing(flag: Seq<char>) -> Seq<char> {
    quoted("missing value after "@, flag, ""@)
}

/// Whether a mode takes an option (by its name without `--`).
pub open spec fn takes(m: Mode, name: Seq<char>) -> bool {
    if name == "source"@ || name == "color"@ || name == "border"@ {
        true
    } else if name == "width"@ || name == "format"@ || name == "force"@ {
        m == Mode::Render || m == Mode::Run
    } else if name == "interval"@ || name == "alert"@ {
        m == Mode::Watch
    } else {
        false
    }
}

/// A value for an option: the text after `=`, or the next argument.
pub open spec fn value_after(args: Seq<Seq<char>>, i: int, name: Seq<char>) -> Option<(Seq<char>, int)> {
    let a = args[i];
    let eq = "--"@ + name + "="@;
    if starts_with(a, eq) {
        Some((a.skip(eq.len() as int), i + 1))
    } else if a == "--"@ + name && i + 1 < args.len() {
        Some((args[i + 1], i + 2))
    } else {
        None
    }
}

/// Sets an option from its value.
pub open spec fn set_option(p: ParsedV, name: Seq<char>, v: Seq<char>, next: int) -> Step {
    if name == "source"@ {
        Step::Next(ParsedV { source: Some(v), ..p }, next)
    } else if name == "width"@ {
        match width_spec(v) {
            Ok(w) => Step::Next(ParsedV { width: Some(w), ..p }, next),
            Err(e) => Step::Fail(e),
        }
    } else if name == "color"@ {
        match color_spec(v) {
            Ok(c) => Step::Next(ParsedV { color: c, ..p }, next),
            Err(e) => Step::Fail(e),
        }
    } else if name == "format"@ {
        match format_spec(v) {
            Ok(f) => Step::Next(ParsedV { format: Some(f), ..p }, next),
            Err(e) => Step::Fail(e),
        }
    } else if name == "border"@ {
        match border_spec(v) {
            Ok(b) => Step::Next(ParsedV { border: Some(b), ..p }, next),
            Err(e) => Step::Fail(e),
        }
    } else if name == "interval"@ {
        match interval_spec(v) {
            Ok(t) => Step::Next(ParsedV { interval: Some(t), ..p }, next),
            Err(e) => Step::Fail(e),
        }
    } else {
        Step::Next(ParsedV { alert: Some(v), ..p }, next)
    }
}

/// The options in the order the subcommands check them; `color` takes only
/// the `=` form.
pub open spec fn option_names() -> Seq<Seq<char>> {
    seq!["interval"@, "alert"@, "source"@, "width"@, "color"@, "format"@, "border"@]
}

/// The first option from `k` on that the argument at `i` sets, with its value.
pub open spec fn matching_option(m: Mode, args: Seq<Seq<char>>, i: int, k: int) -> Option<(Seq<char>, Seq<char>, int)>
    decreases option_names().len() - k,
{
    if k < 0 || k >= option_names().len() {
        None
    } else {
        let name = option_names()[k];
        let a = args[i];
        if takes(m, name) && (starts_with(a, "--"@ + name + "="@) || (name != "color"@ && a == "--"@ + name)) {
            match value_after(args, i, name) {
                Some((v, next)) => Some((name, v, next)),
                None => Some((name, seq![], -1)),
            }
        } else {
            matching_option(m, args, i, k + 1)
        }
    }
}

/// One argument of a subcommand.
pub open spec fn step_spec(m: Mode, args: Seq<Seq<char>>, i: int, p: ParsedV) -> Step {
    let a = args[i];
    if m != Mode::Render && a == "--"@ {
        Step::Done(ParsedV { command_start: Some((i + 1) as usize), ..p })
    } else {
        match matching_option(m, args, i, 0) {
            Some((name, v, next)) => if next < 0 {
                Step::Fail(missing("--"@ + name))
            } else {
                set_option(p, name, v, next)
            },
            None => if (m == Mode::Render || m == Mode::Run) && a == "--force"@ {
                Step::Next(ParsedV { force: true, ..p }, i + 1)
            } else if a == "--help"@ || a == "-h"@ {
                Step::Done(ParsedV { help: true, ..p })
            } else if m == Mode::Render {
                Step::Fail(quoted("unknown render option "@, a, ""@))
            } else if a.len() > 0 && a[0] == '-' {
                Step::Fail(quoted("unknown "@ + mode_word(m) + " option "@, a, ""@))
            } else {
                Step::Done(ParsedV { command_start: Some(i as usize), ..p })
            },
        }
    }
}

/// The options read from argument `i` on.
pub open spec fn parse_from(m: Mode, args: Seq<Seq<char>>, i: int, p: ParsedV) -> Result<ParsedV, Seq<char>>
    decreases args.len() - i,
{
    if i < 0 || i >= args.len() {
        Ok(p)
    } else {
        match step_spec(m, args, i, p) {
            Step::Next(q, next) => if i < next <= args.len() {
                parse_from(m, args, next, q)
            } else {
                Ok(q)
            },
            Step::Done(q) => Ok(q),
            Step::Fail(e) => Err(e),
        }
    }
}

/// The message when a command-running subcommand has no command.
pub open spec fn no_command(m: Mode, after_dashes: bool) -> Seq<char> {
    match m {
        Mode::Watch => if after_dashes {
            "expected a command after `--`"@
        } else {
            "expected a command after `restty watch --`"@
        },
        _ => "expected a command after `restty "@ + mode_word(m) + " --`"@,
    }
}

/// A subcommand's options: help ends the reading; the subcommands that run a
/// command need one.
pub open spec fn options_spec(m: Mode, args: Seq<Seq<char>>) -> Result<ParsedV, Seq<char>> {
    match parse_from(m, args, 0, fresh()) {
        Ok(p) => if p.help || m == Mode::Render {
            Ok(p)
        } else {
            match p.command_start {
                None => Err(no_command(m, false)),
                Some(s) => if s < args.len() {
                    Ok(p)
                } else {
                    Err(no_command(m, true))
                },
            }
        },
        Err(e) => Err(e),
    }
}

fn name_text(k: usize) -> (r: &'static str)
    requires
        k < 7,
    ensures
        r@ == option_names()[k as int],
{
    if k == 0 {
        "interval"
    } else if k == 1 {
        "alert"
    } else if k == 2 {
        "source"
    } else if k == 3 {
        "width"
    } else if k == 4 {
        "color"
    } else if k == 5 {
        "format"
    } else {
        "border"
    }
}

fn takes_exec(m: Mode, name: &str) -> (r: bool)
    ensures
        r == takes(m, name@),
{
    let n = chars_of(name);
    let s = n.as_slice();
    if eq_str(s, "source") || eq_str(s, "color") || eq_str(s, "border") {
        true
    } else if eq_str(s, "width") || eq_str(s, "format") || eq_str(s, "force") {
        m == Mode::Render || m == Mode::Run
    } else if eq_str(s, "interval") || eq_str(s, "alert") {
        m == Mode::Watch
    } else {
        false
    }
}

fn flag_text(name: &str, with_eq: bool) -> (r: Vec<char>)
    ensures
        r@ == if with_eq {
            "--"@ + name@ + "="@
        } else {
            "--"@ + name@
        },
{
    let mut v: Vec<char> = Vec::new();
    extend_str(&mut v, "--");
    extend_str(&mut v, name);
    if with_eq {
        extend_str(&mut v, "=");
    }
    v
}

fn find_option(m: Mode, args: &Vec<String>, i: usize) -> (r: Option<(&'static str, Vec<char>, Option<usize>)>)
    requires
        i < args.len(),
    ensures
        match r {
            Some((name, v, next)) => matching_option(m, args@.map_values(|a: String| a@), i as int, 0) == Some(
                (
                    name@,
                    v@,
                    match next {
                        Some(n) => n as int,
                        None => -1,
                    },
                ),
            ) && (next matches Some(n) ==> i < n <= args.len()),
            None => matching_option(m, args@.map_values(|a: String| a@), i as int, 0) is None,
        },
{
    let ghost av = args@.map_values(|a: String| a@);
    let a = chars_of(args[i].as_str());
    let mut k: usize = 0;
    while k < 7
        invariant
            k <= 7,
            i < args.len(),
            av == args@.map_values(|a: String| a@),
            a@ == av[i as int],
            matching_option(m, av, i as int, k as int) == matching_option(m, av, i as int, 0),
        decreases 7 - k,
    {
        let name = name_text(k);
        let with_eq = flag_text(name, true);
        let bare = flag_text(name, false);
        let is_color = eq_str(chars_of(name).as_slice(), "color");
        let with_eq_text = string_of(with_eq.as_slice());
        let prefixed = starts_with_str(a.as_slice(), with_eq_text.as_str());
        if takes_exec(m, name) && (prefixed || (!is_color && crate::text::eq(a.as_slice(), bare.as_slice()))) {
            if prefixed {
                let v = crate::text::slice_of(a.as_slice(), with_eq.len(), a.len());
                assert(v@ =~= a@.skip(with_eq@.len() as int));
                return Some((name, v, Some(i + 1)));
            }
            if i + 1 < args.len() {
                let v = chars_of(args[i + 1].as_str());
                return Some((name, v, Some(i + 2)));
            }
            let empty: Vec<char> = Vec::new();
            assert(empty@ =~= seq![]);
            return Some((name, empty, None));
        }
        k += 1;
    }
    None
}

impl Parsed {
    fn new() -> (r: Self)
        ensures
            r@ == fresh(),
    {
        Parsed {
            source: None,
            width: None,
            force: false,
            color: ColorChoice::Auto,
            border: None,
            format: None,
            interval: None,
            alert: None,
            command_start: None,
            help: false,
        }
    }

    /// Sets an option from its value; the error message where the value is
    /// refused.
    fn set(&mut self, name: &str, v: &[char]) -> (r: Option<String>)
        ensures
            match set_option(old(self)@, name@, v@, 0) {
                Step::Next(q, _) => r is None && final(self)@ == q,
                Step::Fail(e) => r matches Some(m) && m@ == e,
                Step::Done(_) => false,
            },
    {
        let n = chars_of(name);
        let s = n.as_slice();
        let text = string_of(v);
        if eq_str(s, "source") {
            self.source = Some(text);
        } else if eq_str(s, "width") {
            match parse_width(text.as_str()) {
                Ok(w) => self.width = Some(w),
                Err(e) => {
                    return Some(e);
                },
            }
        } else if eq_str(s, "color") {
            match parse_color(text.as_str()) {
                Ok(c) => self.color = c,
                Err(e) => {
                    return Some(e);
                },
            }
        } else if eq_str(s, "format") {
            match parse_format(text.as_str()) {
                Ok(f) => self.format = Some(f),
                Err(e) => {
                    return Some(e);
                },
            }
        } else if eq_str(s, "border") {
            match parse_border(text.as_str()) {
                Ok(b) => self.border = Some(b),
                Err(e) => {
                    return Some(e);
                },
            }
        } else if eq_str(s, "interval") {
            match parse_interval(text.as_str()) {
                Ok(t) => self.interval = Some(t),
                Err(e) => {
                    return Some(e);
                },
            }
        } else {
            self.alert = Some(text);
        }
        None
    }
}

proof fn lemma_set_next(p: ParsedV, name: Seq<char>, v: Seq<char>, next: int)
    ensures
        match (set_option(p, name, v, next), set_option(p, name, v, 0)) {
            (Step::Next(q1, n1), Step::Next(q0, _)) => q1 == q0 && n1 == next,
            (Step::Fail(e1), Step::Fail(e0)) => e1 == e0,
            _ => false,
        },
{
}

/// Reads a subcommand's options from its arguments.
pub fn parse_options(m: Mode, args: &Vec<String>) -> (r: Result<Parsed, String>)
    ensures
        match r {
            Ok(p) => options_spec(m, args@.map_values(|a: String| a@)) == Ok::<ParsedV, Seq<char>>(p@),
            Err(e) => options_spec(m, args@.map_values(|a: String| a@)) == Err::<ParsedV, Seq<char>>(e@),
        },
{
    let ghost av = args@.map_values(|a: String| a@);
    let mut p = Parsed::new();
    let mut i: usize = 0;
    let mut done = false;
    while i < args.len() && !done
        invariant
            i <= args.len(),
            av == args@.map_values(|a: String| a@),
            !done ==> parse_from(m, av, i as int, p@) == parse_from(m, av, 0, fresh()),
            done ==> parse_from(m, av, 0, fresh()) == Ok::<ParsedV, Seq<char>>(p@),
        decreases args.len() - i, (if done { 0int } else { 1int }),
    {
        let a = chars_of(args[i].as_str());
        if m != Mode::Render && eq_str(a.as_slice(), "--") {
            p.command_start = Some(i + 1);
            done = true;
        } else {
            match find_option(m, args, i) {
                Some((name, v, next)) => {
                    match next {
                        None => {
                            let flag = flag_text(name, false);
                            return Err(quoted_exec("missing value after ", flag.as_slice(), ""));
                        },
                        Some(n) => {
                            proof {
                                lemma_set_next(p@, name@, v@, n as int);
                            }
                            match p.set(name, v.as_slice()) {
                                Some(e) => {
                                    return Err(e);
                                },
                                None => {},
                            }
                            i = n;
                        },
                    }
                },
                None => {
                    if (m == Mode::Render || m == Mode::Run) && eq_str(a.as_slice(), "--force") {
                        p.force = true;
                        i += 1;
                    } else if eq_str(a.as_slice(), "--help") || eq_str(a.as_slice(), "-h") {
                        p.help = true;
                        done = true;
                    } else if m == Mode::Render {
                        return Err(quoted_exec("unknown render option ", a.as_slice(), ""));
                    } else if a.len() > 0 && a[0] == '-' {
                        let mut before: Vec<char> = Vec::new();
                        extend_str(&mut before, "unknown ");
                        let word = match m {
                            Mode::Render => "render",
                            Mode::Run => "run",
                            Mode::Live => "live",
                            Mode::Watch => "watch",
                        };
                        extend_str(&mut before, word);
                        extend_str(&mut before, " option ");
                        let b = string_of(before.as_slice());
                        return Err(quoted_exec(b.as_str(), a.as_slice(), ""));
                    } else {
                        p.command_start = Some(i);
                        done = true;
                    }
                },
            }
        }
    }
    if p.help || m == Mode::Render {
        return Ok(p);
    }
    match p.command_start {
        None => Err(no_command_exec(m, false)),
        Some(s) => if s < args.len() {
            Ok(p)
        } else {
            Err(no_command_exec(m, true))
        },
    }
}

fn no_command_exec(m: Mode, after_dashes: bool) -> (r: String)
    ensures
        r@ == no_command(m, after_dashes),
{
    match m {
        Mode::Watch => if after_dashes {
            "expected a command after `--`".to_owned()
        } else {
            "expected a command after `restty watch --`".to_owned()
        },
        Mode::Render => {
            let mut v: Vec<char> = Vec::new();
            extend_str(&mut v, "expected a command after `restty ");
            extend_str(&mut v, "render");
            extend_str(&mut v, " --`");
            string_of(v.as_slice())
        },
        Mode::Run => {
            let mut v: Vec<char> = Vec::new();
            extend_str(&mut v, "expected a command after `restty ");
            extend_str(&mut v, "run");
            extend_str(&mut v, " --`");
            string_of(v.as_slice())
        },
        Mode::Live => {
            let mut v: Vec<char> = Vec::new();
            extend_str(&mut v, "expected a command after `restty ");
            extend_str(&mut v, "live");
            extend_str(&mut v, " --`");
            string_of(v.as_slice())
        },
    }
}

// ---------------------------------------------------------------------------
// Settings for a run
// ---------------------------------------------------------------------------

/// The enabled commands with `source` added at the end, unless it is there
/// already (or is `generic` and `skip_generic` is set).
pub open spec fn with_source(cs: Seq<Seq<char>>, source: Seq<char>, skip_generic: bool) -> Seq<Seq<char>> {
    if (skip_generic && source == "generic"@) || cs.contains(source) {
        cs
    } else {
        cs.push(source)
    }
}

/// Enables the source of a run that names a command explicitly.
pub fn enable_source(config: &mut Config, source: &str, skip_generic: bool)
    ensures
        final(config)@ == (crate::config::ConfigV {
            enabled_commands: with_source(old(config)@.enabled_commands, source@, skip_generic),
            ..old(config)@
        }),
{
    let s = chars_of(source);
    if skip_generic && eq_str(s.as_slice(), "generic") {
        return;
    }
    if crate::config::contains_text(&config.enabled_commands, s.as_slice()) {
        return;
    }
    let ghost before = config.enabled_commands@;
    config.enabled_commands.push(source.to_owned());
    assert(crate::config::strings_view(config.enabled_commands@) =~= crate::config::strings_view(before).push(
        source@,
    ));
}

/// The exit code for a command that ended with `code`, or was killed by
/// `signal`: the code held to `0..=255`, or 128 plus the signal held to
/// `1..=255`; `None` where neither is known (a failure).
pub open spec fn exit_code_spec(code: Option<i32>, signal: Option<i32>) -> Option<u8> {
    match code {
        Some(c) => Some(
            (if c < 0 {
                0
            } else if c > 255 {
                255
            } else {
                c as int
            }) as u8,
        ),
        None => match signal {
            Some(s) => Some(
                (if 128 + s < 1 {
                    1
                } else if 128 + s > 255 {
                    255
                } else {
                    128 + s
                }) as u8,
            ),
            None => None,
        },
    }
}

pub fn exit_code(code: Option<i32>, signal: Option<i32>) -> (r: Option<u8>)
    ensures
        r == exit_code_spec(code, signal),
{
    match code {
        Some(c) => Some(
            if c < 0 {
                0
            } else if c > 255 {
                255
            } else {
                c as u8
            },
        ),
        None => match signal {
            Some(s) => {
                let v: i64 = 128 + s as i64;
                Some(
                    if v < 1 {
                        1
                    } else if v > 255 {
                        255
                    } else {
                        v as u8
                    },
                )
            },
            None => None,
        },
    }
}

/// The last component of a path as `Path::file_name` gives it, where it is
/// valid Unicode. The result is named.
pub uninterp spec fn file_name_of(path: Seq<char>) -> Option<Seq<char>>;

/// A path of one plain component: not empty, not `.` or `..`, and without
/// `/`, `\\` or `:`, which separate components or start a prefix on some
/// platform.
pub open spec fn single_component(path: Seq<char>) -> bool {
    &&& path.len() > 0
    &&& path != "."@
    &&& path != ".."@
    &&& forall|i: int| 0 <= i < path.len() ==> #[trigger] path[i] != '/' && path[i] != '\\' && path[i] != ':'
}

/// `Path::file_name`, as text. Besides naming the result, the contract
/// states the documented simple case: a path of one plain component is its
/// own final component. How other paths split into components is not
/// restated.
#[verifier::external_body]
fn file_name(path: &str) -> (r: Option<String>)
    ensures
        crate::model::opt_view(r) == file_name_of(path@),
        single_component(path@) ==> crate::model::opt_view(r) == Some(path@),
{
    std::path::Path::new(path).file_name().and_then(|name| name.to_str()).map(|name| name.to_owned())
}

/// The source of a run: the one asked for, else the command's file name,
/// else `generic`.
pub open spec fn source_spec(asked: Option<Seq<char>>, command: Seq<char>) -> Seq<char> {
    match asked {
        Some(s) => s,
        None => match file_name_of(command) {
            Some(n) => n,
            None => "generic"@,
        },
    }
}

pub fn source_for(asked: &Option<String>, command: &str) -> (r: String)
    ensures
        r@ == source_spec(crate::model::opt_view(*asked), command@),
        asked.is_none() && single_component(command@) ==> r@ == command@,
{
    match asked {
        Some(s) => crate::model::copy_string(s),
        None => match file_name(command) {
            Some(n) => n,
            None => "generic".to_owned(),
        },
    }
}

// ---------------------------------------------------------------------------
// Arguments of the other subcommands
// ---------------------------------------------------------------------------

/// Whether `--help` or `-h` is among the arguments.
pub open spec fn asks_help(args: Seq<Seq<char>>) -> bool {
    exists|i: int| 0 <= i < args.len() && (#[trigger] args[i] == "--help"@ || args[i] == "-h"@)
}

pub fn wants_help(args: &Vec<String>) -> (r: bool)
    ensures
        r == asks_help(args@.map_values(|a: String| a@)),
{
    let ghost av = args@.map_values(|a: String| a@);
    let mut i: usize = 0;
    while i < args.len()
        invariant
            i <= args.len(),
            av == args@.map_values(|a: String| a@),
            forall|j: int| 0 <= j < i ==> !(#[trigger] av[j] == "--help"@ || av[j] == "-h"@),
        decreases args.len() - i,
    {
        let a = chars_of(args[i].as_str());
        if eq_str(a.as_slice(), "--help") || eq_str(a.as_slice(), "-h") {
            assert(av[i as int] == args@[i as int]@);
            return true;
        }
        i += 1;
    }
    false
}

/// The shell named after `init`: exactly one argument.
pub fn init_shell(args: &Vec<String>) -> (r: Result<String, String>)
    ensures
        args@.len() == 1 ==> (r matches Ok(s) && s@ == args@[0]@),
        args@.len() == 0 ==> (r matches Err(m) && m@ == "expected `bash` or `zsh` after `init`"@),
        args@.len() > 1 ==> (r matches Err(m) && m@ == "too many arguments for `init`"@),
{
    if args.len() == 0 {
        Err("expected `bash` or `zsh` after `init`".to_owned())
    } else if args.len() > 1 {
        Err("too many arguments for `init`".to_owned())
    } else {
        Ok(crate::model::copy_string(&args[0]))
    }
}

/// Where the command to compare with begins in the arguments of `diff`
/// (after the snapshot's name and `--`); `None` when only the name is given,
/// and the snapshot's own command, or the latest result, is compared.
pub fn diff_command_start(args: &Vec<String>) -> (r: Result<Option<usize>, String>)
    requires
        args@.len() >= 1,
    ensures
        args@.len() == 1 ==> r == Ok::<Option<usize>, String>(None),
        args@.len() > 1 && args@[1]@ != "--"@ ==> (r matches Err(m) && m@ == "expected `--` before the command"@),
        args@.len() == 2 && args@[1]@ == "--"@ ==> (r matches Err(m) && m@ == "expected a command after `--`"@),
        args@.len() > 2 && args@[1]@ == "--"@ ==> r == Ok::<Option<usize>, String>(Some(2)),
{
    if args.len() == 1 {
        return Ok(None);
    }
    let dashes = chars_of(args[1].as_str());
    if !eq_str(dashes.as_slice(), "--") {
        return Err("expected `--` before the command".to_owned());
    }
    if args.len() == 2 {
        return Err("expected a command after `--`".to_owned());
    }
    Ok(Some(2))
}

} // verus!

//! Turns familiar command output into compact tables that fit the terminal,
//! and hands back the original bytes whenever it is not sure.
pub mod cache;
pub mod cli;
pub mod config;
pub mod fit;
pub mod live;
pub mod model;
pub mod number;
pub mod parser;
pub mod render;
pub mod shell;
pub mod structured;
pub mod terminal;
pub mod text;
pub mod tui;

use vstd::prelude::*;

use config::{Breakpoints, Config, ConfigV};
use model::{Content, ContentV};
use parser::{all_kinds, enabled, first_match, ParserRegistry};
use render::{border_of, renders, render_spec, BorderStyle, ColorPalette, RenderOptions};
use terminal::{Environment, EnvironmentV};

verus! {

/// How one run is asked to format: the command whose output it is, a fixed
/// width if any, whether to format even when standard output is not a
/// terminal, and when to color.
#[derive(Debug, Clone)]
pub struct RunOptions {
    pub source: String,
    pub width: Option<usize>,
    pub force: bool,
    pub color: ColorChoice,
}

#[derive(Debug, Clone, Copy, PartialEq, Eq, Structural)]
pub enum ColorChoice {
    Auto,
    Always,
    Never,
}

/// What is to be written: a parsed view (with the bytes it came from) or
/// the original bytes unchanged.
#[derive(Debug)]
pub enum PreparedContent {
    Parsed(Content, Vec<u8>),
    Original(Vec<u8>),
}

pub enum PreparedContentV {
    Parsed(ContentV, Seq<u8>),
    Original(Seq<u8>),
}

/// Prepared output and the settings it is drawn with.
#[derive(Debug)]
pub struct PreparedOutput {
    pub content: PreparedContent,
    pub color: bool,
    pub breakpoints: Breakpoints,
    pub border_style: BorderStyle,
    pub palette: ColorPalette,
    pub truecolor: bool,
}

pub struct PreparedV {
    pub content: PreparedContentV,
    pub color: bool,
    pub breakpoints: Breakpoints,
    pub border_style: BorderStyle,
    pub palette: ColorPalette,
    pub truecolor: bool,
}

impl View for PreparedOutput {
    type V = PreparedV;

    open spec fn view(&self) -> PreparedV {
        PreparedV {
            content: match &self.content {
                PreparedContent::Parsed(v, o) => PreparedContentV::Parsed(v@, o@),
                PreparedContent::Original(o) => PreparedContentV::Original(o@),
            },
            color: self.color,
            breakpoints: self.breakpoints,
            border_style: self.border_style,
            palette: self.palette,
            truecolor: self.truecolor,
        }
    }
}

// ---------------------------------------------------------------------------
// Deciding
// ---------------------------------------------------------------------------

/// The generic parsers take any source; others only enabled commands.
pub open spec fn source_enabled_spec(source: Seq<char>, commands: Seq<Seq<char>>) -> bool {
    source == "generic"@ || commands.contains(source)
}

pub open spec fn palette_of(theme: Seq<char>) -> ColorPalette {
    if theme == "colorblind"@ || theme == "colorblind-safe"@ {
        ColorPalette::Colorblind
    } else {
        ColorPalette::Default
    }
}

/// The border style asked for, drawn in ASCII where the terminal lacks
/// box-drawing characters.
pub open spec fn resolved_border(c: ConfigV, e: EnvironmentV) -> BorderStyle {
    let requested = border_of(c.border_style);
    if requested != BorderStyle::Borderless && requested != BorderStyle::Ascii && !terminal::unicode_spec(
        c.terminal_profile,
        e,
    ) {
        BorderStyle::Ascii
    } else {
        requested
    }
}

pub open spec fn newline_count(b: Seq<u8>) -> nat
    decreases b.len(),
{
    if b.len() == 0 {
        0
    } else {
        newline_count(b.drop_last()) + if b.last() == 10u8 {
            1nat
        } else {
            0nat
        }
    }
}

pub open spec fn wants_color(choice: ColorChoice, tty: bool, theme: Seq<char>) -> bool {
    (match choice {
        ColorChoice::Always => true,
        ColorChoice::Never => false,
        ColorChoice::Auto => tty,
    }) && theme != "none"@
}

/// Output is left alone when formatting is off, when standard output is not
/// a terminal and formatting is not forced, for a source that is not
/// enabled, past the line or byte limit, and for input that is not UTF-8
/// text with something in it.
pub open spec fn declined_early(
    input: Seq<u8>,
    source: Seq<char>,
    force: bool,
    c: ConfigV,
    tty: bool,
    disabled: bool,
) -> bool {
    ||| disabled
    ||| (!force && !tty)
    ||| !source_enabled_spec(source, c.enabled_commands)
    ||| newline_count(input) > c.max_lines
    ||| input.len() > c.max_bytes
    ||| !vstd::utf8::valid_utf8(input)
    ||| crate::text::is_blank(vstd::utf8::decode_utf8(input))
}

/// The parse of the input: the first parser that takes it, with its
/// confidence.
pub open spec fn parse_of(
    input: Seq<u8>,
    source: Seq<char>,
    c: ConfigV,
    jc_available: bool,
    jc: Option<Seq<char>>,
) -> Option<(ContentV, u8)> {
    first_match(
        enabled(all_kinds(jc_available), c.disabled_parsers),
        0,
        source,
        vstd::utf8::decode_utf8(input),
        c.disabled_parsers,
        jc,
    )
}

/// What a run prepares: the original bytes unless the input is taken, parsed
/// and trusted at the configured confidence; then the parsed view with the
/// configured column priorities and thresholds applied.
pub open spec fn prepare_spec(
    input: Seq<u8>,
    o: RunOptionsV,
    c: ConfigV,
    tty: bool,
    disabled: bool,
    e: EnvironmentV,
    jc_available: bool,
    jc: Option<Seq<char>>,
) -> PreparedV {
    let base = PreparedV {
        content: PreparedContentV::Original(input),
        color: false,
        breakpoints: c.breakpoints,
        border_style: resolved_border(c, e),
        palette: palette_of(c.theme),
        truecolor: terminal::truecolor_spec(c.terminal_profile, e),
    };
    if declined_early(input, o.source, o.force, c, tty, disabled) {
        base
    } else {
        match parse_of(input, o.source, c, jc_available, jc) {
            None => base,
            Some((v, confidence)) => {
                if number::number_below(number::hundredths(confidence), c.min_confidence) {
                    base
                } else {
                    let shown = config::with_thresholds(
                        c.thresholds,
                        o.source,
                        config::with_priorities(c.column_priorities, o.source, v),
                    );
                    PreparedV {
                        content: PreparedContentV::Parsed(shown, input),
                        color: wants_color(o.color, tty, c.theme),
                        ..base
                    }
                }
            },
        }
    }
}

pub struct RunOptionsV {
    pub source: Seq<char>,
    pub width: Option<usize>,
    pub force: bool,
    pub color: ColorChoice,
}

impl View for RunOptions {
    type V = RunOptionsV;

    open spec fn view(&self) -> RunOptionsV {
        RunOptionsV { source: self.source@, width: self.width, force: self.force, color: self.color }
    }
}

/// `std::str::from_utf8`: the text that the bytes encode, where they are
/// valid UTF-8. The contract restates the documented meaning with vstd's
/// definitions of validity and decoding.
#[verifier::external_body]
pub(crate) fn utf8_text(bytes: &[u8]) -> (r: Option<String>)
    ensures
        match r {
            Some(s) => vstd::utf8::valid_utf8(bytes@) && s@ == vstd::utf8::decode_utf8(bytes@),
            None => !vstd::utf8::valid_utf8(bytes@),
        },
{
    match std::str::from_utf8(bytes) {
        Ok(s) => Some(s.to_owned()),
        Err(_) => None,
    }
}

/// Whether captured output is shown as it came, unparsed: when it is empty
/// or not UTF-8 text.
pub fn shown_as_captured(bytes: &[u8]) -> (r: bool)
    ensures
        r == (bytes@.len() == 0 || !vstd::utf8::valid_utf8(bytes@)),
{
    bytes.len() == 0 || utf8_text(bytes).is_none()
}

fn count_newlines(b: &[u8]) -> (r: usize)
    ensures
        r as nat == newline_count(b@),
{
    let mut n: usize = 0;
    let mut i: usize = 0;
    while i < b.len()
        invariant
            i <= b.len(),
            n as nat == newline_count(b@.take(i as int)),
            n <= i,
        decreases b.len() - i,
    {
        assert(b@.take(i + 1).drop_last() =~= b@.take(i as int));
        if b[i] == 10u8 {
            n += 1;
        }
        i += 1;
    }
    assert(b@.take(b@.len() as int) =~= b@);
    n
}

/// Newlines of two pieces of input add up.
proof fn lemma_newline_count_append(a: Seq<u8>, b: Seq<u8>)
    ensures
        newline_count(a + b) == newline_count(a) + newline_count(b),
        newline_count(b) <= b.len(),
    decreases b.len(),
{
    if b.len() == 0 {
        assert(a + b =~= a);
    } else {
        lemma_newline_count_append(a, b.drop_last());
        assert((a + b).drop_last() =~= a + b.drop_last());
    }
}

/// Input read so far, in chunks, and its newlines.
pub struct Capture {
    pub bytes: Vec<u8>,
    pub lines: usize,
}

impl Capture {
    pub open spec fn wf(&self) -> bool {
        self.lines as nat == newline_count(self.bytes@)
    }

    pub fn new() -> (r: Self)
        ensures
            r.wf(),
            r.bytes@ == Seq::<u8>::empty(),
    {
        Capture { bytes: Vec::new(), lines: 0 }
    }

    /// Adds a chunk of input and says whether all of it read so far is still
    /// within the configured line and byte limits.
    pub fn push_chunk(&mut self, chunk: &[u8], config: &Config) -> (within: bool)
        requires
            old(self).wf(),
            old(self).bytes@.len() + chunk@.len() <= usize::MAX,
        ensures
            final(self).wf(),
            final(self).bytes@ == old(self).bytes@ + chunk@,
            within == (newline_count(final(self).bytes@) <= config.max_lines && final(self).bytes@.len()
                <= config.max_bytes),
    {
        proof {
            lemma_newline_count_append(self.bytes@, chunk@);
            lemma_newline_count_append(Seq::<u8>::empty(), self.bytes@);
            assert(Seq::<u8>::empty() + self.bytes@ =~= self.bytes@);
        }
        let n = count_newlines(chunk);
        let mut i: usize = 0;
        let ghost start = self.bytes@;
        let ghost lines0 = self.lines;
        while i < chunk.len()
            invariant
                i <= chunk.len(),
                self.bytes@ == start + chunk@.take(i as int),
                self.lines == lines0,
            decreases chunk.len() - i,
        {
            self.bytes.push(chunk[i]);
            assert(start + chunk@.take(i + 1) =~= (start + chunk@.take(i as int)).push(chunk@[i as int]));
            i += 1;
        }
        assert(chunk@.take(chunk@.len() as int) =~= chunk@);
        self.lines = self.lines + n;
        self.lines <= config.max_lines && self.bytes.len() <= config.max_bytes
    }
}

fn copy_bytes(b: &[u8]) -> (r: Vec<u8>)
    ensures
        r@ == b@,
{
    let mut out: Vec<u8> = Vec::new();
    let mut i: usize = 0;
    while i < b.len()
        invariant
            i <= b.len(),
            out@ =~= b@.take(i as int),
        decreases b.len() - i,
    {
        out.push(b[i]);
        i += 1;
    }
    assert(b@.take(b@.len() as int) =~= b@);
    out
}

/// The UTF-8 bytes of a text.
fn text_bytes(s: &String) -> (r: Vec<u8>)
    ensures
        r@ == vstd::utf8::encode_utf8(s@),
{
    copy_bytes(s.as_str().as_bytes())
}

/// Whether `render` copies its input through untouched without reading it
/// first: formatting turned off by the environment, output that is not a
/// terminal when formatting is not forced, or a source that is not enabled.
pub fn stream_passes_through(options: &RunOptions, config: &Config, env: &Environment, stdout_is_tty: bool) -> (r:
    bool)
    ensures
        r == (crate::terminal::disabled_spec(env@) || (!options.force && !stdout_is_tty) || !source_enabled_spec(
            options.source@,
            config@.enabled_commands,
        )),
{
    crate::terminal::formatting_disabled(env) || (!options.force && !stdout_is_tty) || !source_enabled(
        options.source.as_str(),
        config,
    )
}

/// Whether a source may be formatted.
pub fn source_enabled(source: &str, config: &Config) -> (r: bool)
    ensures
        r == source_enabled_spec(source@, config@.enabled_commands),
{
    let s = crate::text::chars_of(source);
    if crate::text::eq_str(s.as_slice(), "generic") {
        return true;
    }
    let mut i: usize = 0;
    while i < config.enabled_commands.len()
        invariant
            i <= config.enabled_commands.len(),
            s@ == source@,
            forall|j: int| 0 <= j < i ==> config@.enabled_commands[j] != source@,
        decreases config.enabled_commands.len() - i,
    {
        let c = crate::text::chars_of(config.enabled_commands[i].as_str());
        if crate::text::eq(c.as_slice(), s.as_slice()) {
            assert(config@.enabled_commands[i as int] == source@);
            return true;
        }
        i += 1;
    }
    false
}

/// The border style to draw with.
pub fn resolved_border_style(config: &Config, env: &Environment) -> (r: BorderStyle)
    ensures
        r == resolved_border(config@, env@),
{
    let requested = BorderStyle::from_name(config.border_style.as_str());
    if requested != BorderStyle::Borderless && requested != BorderStyle::Ascii && !terminal::supports_unicode(
        config.terminal_profile.as_str(),
        env,
    ) {
        BorderStyle::Ascii
    } else {
        requested
    }
}

fn color_for(choice: ColorChoice, tty: bool, theme: &String) -> (r: bool)
    ensures
        r == wants_color(choice, tty, theme@),
{
    let wanted = match choice {
        ColorChoice::Always => true,
        ColorChoice::Never => false,
        ColorChoice::Auto => tty,
    };
    let t = crate::text::chars_of(theme.as_str());
    wanted && !crate::text::eq_str(t.as_slice(), "none")
}

fn passthrough(input: &[u8], config: &Config, env: &Environment) -> (r: PreparedOutput)
    ensures
        r@ == (PreparedV {
            content: PreparedContentV::Original(input@),
            color: false,
            breakpoints: config@.breakpoints,
            border_style: resolved_border(config@, env@),
            palette: palette_of(config@.theme),
            truecolor: terminal::truecolor_spec(config@.terminal_profile, env@),
        }),
{
    PreparedOutput {
        content: PreparedContent::Original(copy_bytes(input)),
        color: false,
        breakpoints: config.breakpoints,
        border_style: resolved_border_style(config, env),
        palette: ColorPalette::from_name(config.theme.as_str()),
        truecolor: terminal::supports_truecolor(config.terminal_profile.as_str(), env),
    }
}

/// Decides what a run writes for `input`. `jc_available` says whether the
/// `jc` program can be run and `jc_json` is what it printed for the input,
/// where the registry asked for it (`jc_request`).
pub fn prepare_output(
    input: &[u8],
    options: &RunOptions,
    config: &Config,
    stdout_is_tty: bool,
    formatting_disabled: bool,
    env: &Environment,
    jc_available: bool,
    jc_json: Option<&str>,
) -> (r: PreparedOutput)
    ensures
        r@ == prepare_spec(
            input@,
            options@,
            config@,
            stdout_is_tty,
            formatting_disabled,
            env@,
            jc_available,
            match jc_json {
                Some(j) => Some(j@),
                None => None,
            },
        ),
{
    if formatting_disabled || (!options.force && !stdout_is_tty) {
        return passthrough(input, config, env);
    }
    if !source_enabled(options.source.as_str(), config) {
        return passthrough(input, config, env);
    }
    if count_newlines(input) > config.max_lines || input.len() > config.max_bytes {
        return passthrough(input, config, env);
    }
    let text = match utf8_text(input) {
        Some(t) => t,
        None => {
            return passthrough(input, config, env);
        },
    };
    let chars = crate::text::chars_of(text.as_str());
    if crate::text::blank(chars.as_slice()) {
        return passthrough(input, config, env);
    }
    let registry = ParserRegistry::new(config.disabled_parsers.as_slice(), jc_available);
    proof {
        assert(config.disabled_parsers@.map_values(|s: String| s@) =~= config@.disabled_parsers);
    }
    let parsed = match registry.parse(options.source.as_str(), text.as_str(), jc_json) {
        Some(p) => p,
        None => {
            return passthrough(input, config, env);
        },
    };
    let mut view = parsed.view;
    config.apply_column_priorities(options.source.as_str(), &mut view);
    config.apply_thresholds(options.source.as_str(), &mut view);
    let confidence = number::from_hundredths(parsed.confidence);
    if number::below(&confidence, &config.min_confidence) {
        return passthrough(input, config, env);
    }
    PreparedOutput {
        content: PreparedContent::Parsed(view, copy_bytes(input)),
        color: color_for(options.color, stdout_is_tty, &config.theme),
        breakpoints: config.breakpoints,
        border_style: resolved_border_style(config, env),
        palette: ColorPalette::from_name(config.theme.as_str()),
        truecolor: terminal::supports_truecolor(config.terminal_profile.as_str(), env),
    }
}

/// The `jc` adapter that a run of `prepare_output` on the same arguments
/// would hand its input to: none where the run declines early, else the one
/// that the registry reaches.
pub fn jc_request_for(
    input: &[u8],
    options: &RunOptions,
    config: &Config,
    stdout_is_tty: bool,
    formatting_disabled: bool,
    jc_available: bool,
) -> (r: Option<&'static str>)
    ensures
        declined_early(input@, options@.source, options@.force, config@, stdout_is_tty, formatting_disabled)
            ==> r.is_none(),
        !declined_early(input@, options@.source, options@.force, config@, stdout_is_tty, formatting_disabled)
            ==> jc_view(r) == parser::jc_needed(
            enabled(all_kinds(jc_available), config@.disabled_parsers),
            0,
            options@.source,
            vstd::utf8::decode_utf8(input@),
            config@.disabled_parsers,
        ),
{
    if formatting_disabled || (!options.force && !stdout_is_tty) {
        return None;
    }
    if !source_enabled(options.source.as_str(), config) {
        return None;
    }
    if count_newlines(input) > config.max_lines || input.len() > config.max_bytes {
        return None;
    }
    let text = match utf8_text(input) {
        Some(t) => t,
        None => {
            return None;
        },
    };
    let chars = crate::text::chars_of(text.as_str());
    if crate::text::blank(chars.as_slice()) {
        return None;
    }
    let registry = ParserRegistry::new(config.disabled_parsers.as_slice(), jc_available);
    proof {
        assert(config.disabled_parsers@.map_values(|s: String| s@) =~= config@.disabled_parsers);
    }
    registry.jc_request(options.source.as_str(), text.as_str())
}

// ---------------------------------------------------------------------------
// Writing
// ---------------------------------------------------------------------------

pub open spec fn at_least_one(w: usize) -> usize {
    if w > 1 {
        w
    } else {
        1
    }
}

/// The width to draw at: the one asked for, else one less than the
/// terminal's, else 79; at least 1.
pub open spec fn chosen_width(asked: Option<usize>, terminal: Option<usize>) -> usize {
    at_least_one(
        match asked {
            Some(w) => w,
            None => match terminal {
                Some(t) => if t > 0 {
                    (t - 1) as usize
                } else {
                    0
                },
                None => 79,
            },
        },
    )
}

pub open spec fn options_at(p: PreparedV, width: usize) -> RenderOptions {
    RenderOptions {
        width,
        color: p.color,
        breakpoints: p.breakpoints,
        border_style: p.border_style,
        palette: p.palette,
        truecolor: p.truecolor,
    }
}

/// Prepared output that can be drawn at a width (see `render::renders`).
pub open spec fn prepared_renders(p: PreparedV, width: usize) -> bool {
    match p.content {
        PreparedContentV::Parsed(v, _) => renders(v, options_at(p, at_least_one(width))),
        PreparedContentV::Original(_) => true,
    }
}

/// The bytes written for prepared output at a width: the original bytes,
/// or the drawn view (the original bytes where it draws nothing).
pub open spec fn render_at_spec(p: PreparedV, width: usize, now: u64) -> Seq<u8> {
    match p.content {
        PreparedContentV::Original(b) => b,
        PreparedContentV::Parsed(v, original) => {
            let s = render_spec(v, options_at(p, at_least_one(width)), now);
            if s.len() == 0 {
                original
            } else {
                vstd::utf8::encode_utf8(s)
            }
        },
    }
}

impl PreparedOutput {
    /// The parsed view, if the output was parsed.
    pub fn parsed_view(&self) -> (r: Option<&Content>)
        ensures
            match self@.content {
                PreparedContentV::Parsed(v, _) => r matches Some(c) && c@ == v,
                PreparedContentV::Original(_) => r is None,
            },
    {
        match &self.content {
            PreparedContent::Parsed(view, _) => Some(view),
            PreparedContent::Original(_) => None,
        }
    }

    /// The same output showing another view of the same bytes.
    pub fn with_view(&self, view: Content) -> (r: Self)
        ensures
            r@ == (PreparedV {
                content: PreparedContentV::Parsed(
                    view@,
                    match self@.content {
                        PreparedContentV::Parsed(_, o) => o,
                        PreparedContentV::Original(o) => o,
                    },
                ),
                ..self@
            }),
    {
        let original = match &self.content {
            PreparedContent::Parsed(_, o) => copy_bytes(o.as_slice()),
            PreparedContent::Original(o) => copy_bytes(o.as_slice()),
        };
        PreparedOutput {
            content: PreparedContent::Parsed(view, original),
            color: self.color,
            breakpoints: self.breakpoints,
            border_style: self.border_style,
            palette: self.palette,
            truecolor: self.truecolor,
        }
    }

    /// The options to draw at a width.
    pub fn render_options_at(&self, width: usize) -> (r: RenderOptions)
        ensures
            r == options_at(self@, width),
    {
        RenderOptions {
            width,
            color: self.color,
            breakpoints: self.breakpoints,
            border_style: self.border_style,
            palette: self.palette,
            truecolor: self.truecolor,
        }
    }

    /// The bytes to write at a width; `now` is the current time in seconds
    /// since the epoch.
    pub fn render_at(&self, width: usize, now: u64) -> (r: Vec<u8>)
        requires
            prepared_renders(self@, width),
        ensures
            r@ == render_at_spec(self@, width, now),
    {
        match &self.content {
            PreparedContent::Original(input) => copy_bytes(input.as_slice()),
            PreparedContent::Parsed(view, original) => {
                let w = if width > 1 {
                    width
                } else {
                    1
                };
                let rendered = render::render(view, &self.render_options_at(w), now);
                if rendered.as_str().is_empty() {
                    copy_bytes(original.as_slice())
                } else {
                    text_bytes(&rendered)
                }
            },
        }
    }

    /// `render_at` where the output can be drawn at the width, `None` for a
    /// table drawn line by line whose rows lack a shown column.
    pub fn render_at_checked(&self, width: usize, now: u64) -> (r: Option<Vec<u8>>)
        ensures
            r.is_some() == prepared_renders(self@, width),
            r matches Some(b) ==> b@ == render_at_spec(self@, width, now),
    {
        let w = if width > 1 {
            width
        } else {
            1
        };
        match &self.content {
            PreparedContent::Original(_) => Some(self.render_at(width, now)),
            PreparedContent::Parsed(view, _) => match render::render_checked(view, &self.render_options_at(w), now) {
                Some(_) => Some(self.render_at(width, now)),
                None => None,
            },
        }
    }
}

fn width_for(asked: Option<usize>, env: &Environment) -> (r: usize)
    ensures
        r == chosen_width(asked, env@.terminal_width),
{
    let w = match asked {
        Some(w) => w,
        None => match env.terminal_width {
            Some(t) => if t > 0 {
                t - 1
            } else {
                0
            },
            None => 79,
        },
    };
    if w > 1 {
        w
    } else {
        1
    }
}

pub open spec fn jc_view(j: Option<&str>) -> Option<Seq<char>> {
    match j {
        Some(s) => Some(s@),
        None => None,
    }
}

/// The bytes a run writes for `input`: the drawn view where the input is
/// formatted, else the input unchanged.
pub open spec fn render_bytes_spec(
    input: Seq<u8>,
    o: RunOptionsV,
    c: ConfigV,
    tty: bool,
    disabled: bool,
    e: EnvironmentV,
    jc_available: bool,
    jc: Option<Seq<char>>,
    now: u64,
) -> Seq<u8> {
    render_at_spec(
        prepare_spec(input, o, c, tty, disabled, e, jc_available, jc),
        chosen_width(o.width, e.terminal_width),
        now,
    )
}

pub open spec fn run_renders(
    input: Seq<u8>,
    o: RunOptionsV,
    c: ConfigV,
    tty: bool,
    disabled: bool,
    e: EnvironmentV,
    jc_available: bool,
    jc: Option<Seq<char>>,
) -> bool {
    prepared_renders(
        prepare_spec(input, o, c, tty, disabled, e, jc_available, jc),
        chosen_width(o.width, e.terminal_width),
    )
}

/// Formats `input` for writing, with formatting switched off where
/// `formatting_disabled` says so.
pub fn render_bytes_with_policy(
    input: &[u8],
    options: &RunOptions,
    config: &Config,
    stdout_is_tty: bool,
    formatting_disabled: bool,
    env: &Environment,
    jc_available: bool,
    jc_json: Option<&str>,
    now: u64,
) -> (r: Vec<u8>)
    requires
        run_renders(
            input@,
            options@,
            config@,
            stdout_is_tty,
            formatting_disabled,
            env@,
            jc_available,
            jc_view(jc_json),
        ),
    ensures
        r@ == render_bytes_spec(
            input@,
            options@,
            config@,
            stdout_is_tty,
            formatting_disabled,
            env@,
            jc_available,
            jc_view(jc_json),
            now,
        ),
{
    let width = width_for(options.width, env);
    let prepared = prepare_output(
        input,
        options,
        config,
        stdout_is_tty,
        formatting_disabled,
        env,
        jc_available,
        jc_json,
    );
    prepared.render_at(width, now)
}

/// `render_bytes_with_policy` where the output can be drawn, `None` where a
/// table drawn line by line lacks a shown column in some row.
pub fn render_bytes_checked(
    input: &[u8],
    options: &RunOptions,
    config: &Config,
    stdout_is_tty: bool,
    formatting_disabled: bool,
    env: &Environment,
    jc_available: bool,
    jc_json: Option<&str>,
    now: u64,
) -> (r: Option<Vec<u8>>)
    ensures
        r.is_some() == run_renders(
            input@,
            options@,
            config@,
            stdout_is_tty,
            formatting_disabled,
            env@,
            jc_available,
            jc_view(jc_json),
        ),
        r matches Some(b) ==> b@ == render_bytes_spec(
            input@,
            options@,
            config@,
            stdout_is_tty,
            formatting_disabled,
            env@,
            jc_available,
            jc_view(jc_json),
            now,
        ),
{
    let width = width_for(options.width, env);
    let prepared = prepare_output(
        input,
        options,
        config,
        stdout_is_tty,
        formatting_disabled,
        env,
        jc_available,
        jc_json,
    );
    prepared.render_at_checked(width, now)
}

/// Formats `input` with formatting switched off as the environment says.
pub fn render_bytes(
    input: &[u8],
    options: &RunOptions,
    config: &Config,
    stdout_is_tty: bool,
    env: &Environment,
    jc_available: bool,
    jc_json: Option<&str>,
    now: u64,
) -> (r: Vec<u8>)
    requires
        run_renders(
            input@,
            options@,
            config@,
            stdout_is_tty,
            terminal::disabled_spec(env@),
            env@,
            jc_available,
            jc_view(jc_json),
        ),
    ensures
        r@ == render_bytes_spec(
            input@,
            options@,
            config@,
            stdout_is_tty,
            terminal::disabled_spec(env@),
            env@,
            jc_available,
            jc_view(jc_json),
            now,
        ),
{
    let disabled = terminal::formatting_disabled(env);
    render_bytes_with_policy(input, options, config, stdout_is_tty, disabled, env, jc_available, jc_json, now)
}

/// The options a view is drawn with for a run.
pub open spec fn view_options(o: RunOptionsV, c: ConfigV, tty: bool, e: EnvironmentV) -> RenderOptions {
    RenderOptions {
        width: chosen_width(o.width, e.terminal_width),
        color: wants_color(o.color, tty, c.theme),
        breakpoints: c.breakpoints,
        border_style: resolved_border(c, e),
        palette: palette_of(c.theme),
        truecolor: terminal::truecolor_spec(c.terminal_profile, e),
    }
}

/// Draws an already parsed view for a run.
pub fn render_view(
    view: &Content,
    options: &RunOptions,
    config: &Config,
    stdout_is_tty: bool,
    env: &Environment,
    now: u64,
) -> (r: Vec<u8>)
    requires
        renders(view@, view_options(options@, config@, stdout_is_tty, env@)),
    ensures
        r@ == vstd::utf8::encode_utf8(render_spec(view@, view_options(options@, config@, stdout_is_tty, env@), now)),
{
    let opts = RenderOptions {
        width: width_for(options.width, env),
        color: color_for(options.color, stdout_is_tty, &config.theme),
        breakpoints: config.breakpoints,
        border_style: resolved_border_style(config, env),
        palette: ColorPalette::from_name(config.theme.as_str()),
        truecolor: terminal::supports_truecolor(config.terminal_profile.as_str(), env),
    };
    let s = render::render(view, &opts, now);
    text_bytes(&s)
}

/// `render_view` where the view can be drawn with the run's options, `None`
/// where a table drawn line by line lacks a shown column in some row.
pub fn render_view_checked(
    view: &Content,
    options: &RunOptions,
    config: &Config,
    stdout_is_tty: bool,
    env: &Environment,
    now: u64,
) -> (r: Option<Vec<u8>>)
    ensures
        r.is_some() == renders(view@, view_options(options@, config@, stdout_is_tty, env@)),
        r matches Some(b) ==> b@ == vstd::utf8::encode_utf8(
            render_spec(view@, view_options(options@, config@, stdout_is_tty, env@), now),
        ),
{
    let opts = RenderOptions {
        width: width_for(options.width, env),
        color: color_for(options.color, stdout_is_tty, &config.theme),
        breakpoints: config.breakpoints,
        border_style: resolved_border_style(config, env),
        palette: ColorPalette::from_name(config.theme.as_str()),
        truecolor: terminal::supports_truecolor(config.terminal_profile.as_str(), env),
    };
    match render::render_checked(view, &opts, now) {
        Some(s) => Some(text_bytes(&s)),
        None => None,
    }
}

/// The view that `input` parses to when formatting is forced, if any.
pub fn parse_bytes(
    input: &[u8],
    options: &RunOptions,
    config: &Config,
    env: &Environment,
    jc_available: bool,
    jc_json: Option<&str>,
) -> (r: Option<Content>)
    ensures
        match prepare_spec(
            input@,
            RunOptionsV { force: true, ..options@ },
            config@,
            true,
            false,
            env@,
            jc_available,
            jc_view(jc_json),
        ).content {
            PreparedContentV::Parsed(v, _) => r matches Some(c) && c@ == v,
            PreparedContentV::Original(_) => r is None,
        },
{
    let explicit = RunOptions {
        source: crate::model::copy_string(&options.source),
        width: options.width,
        force: true,
        color: options.color,
    };
    let prepared = prepare_output(input, &explicit, config, true, false, env, jc_available, jc_json);
    match prepared.parsed_view() {
        Some(v) => Some(v.copied()),
        None => None,
    }
}

/// The structured form (JSON, CSV or YAML) of what `input` parses to when
/// formatting is forced, else the input unchanged.
pub open spec fn structured_spec(
    input: Seq<u8>,
    o: RunOptionsV,
    c: ConfigV,
    format: structured::StructuredFormat,
    disabled: bool,
    e: EnvironmentV,
    jc_available: bool,
    jc: Option<Seq<char>>,
) -> Seq<u8> {
    match prepare_spec(input, RunOptionsV { force: true, ..o }, c, true, disabled, e, jc_available, jc).content {
        PreparedContentV::Parsed(v, _) => vstd::utf8::encode_utf8(structured::serialize_spec(v, format)),
        PreparedContentV::Original(b) => b,
    }
}

pub fn structured_bytes_with_policy(
    input: &[u8],
    options: &RunOptions,
    config: &Config,
    format: structured::StructuredFormat,
    formatting_disabled: bool,
    env: &Environment,
    jc_available: bool,
    jc_json: Option<&str>,
) -> (r: Vec<u8>)
    ensures
        r@ == structured_spec(
            input@,
            options@,
            config@,
            format,
            formatting_disabled,
            env@,
            jc_available,
            jc_view(jc_json),
        ),
{
    let explicit = RunOptions {
        source: crate::model::copy_string(&options.source),
        width: options.width,
        force: true,
        color: options.color,
    };
    let prepared = prepare_output(input, &explicit, config, true, formatting_disabled, env, jc_available, jc_json);
    match &prepared.content {
        PreparedContent::Parsed(view, _) => {
            let s = structured::serialize(view, format);
            text_bytes(&s)
        },
        PreparedContent::Original(b) => copy_bytes(b.as_slice()),
    }
}

// ---------------------------------------------------------------------------
// Laws
// ---------------------------------------------------------------------------

/// A run declines when formatting is off, output is redirected without
/// force, the source is not enabled, the input is over a limit, not UTF-8,
/// blank, not taken by any parser, or parsed with too little confidence.
pub open spec fn declines(
    input: Seq<u8>,
    o: RunOptionsV,
    c: ConfigV,
    tty: bool,
    disabled: bool,
    jc_available: bool,
    jc: Option<Seq<char>>,
) -> bool {
    ||| declined_early(input, o.source, o.force, c, tty, disabled)
    ||| parse_of(input, o.source, c, jc_available, jc) is None
    ||| (parse_of(input, o.source, c, jc_available, jc) matches Some((_, confidence)) && number::number_below(
        number::hundredths(confidence),
        c.min_confidence,
    ))
}

/// The safety contract: a run that declines writes exactly the bytes it was
/// given, at every width and time.
pub proof fn lemma_declined_runs_pass_bytes_through(
    input: Seq<u8>,
    o: RunOptionsV,
    c: ConfigV,
    tty: bool,
    disabled: bool,
    e: EnvironmentV,
    jc_available: bool,
    jc: Option<Seq<char>>,
    now: u64,
)
    requires
        declines(input, o, c, tty, disabled, jc_available, jc),
    ensures
        render_bytes_spec(input, o, c, tty, disabled, e, jc_available, jc, now) == input,
        run_renders(input, o, c, tty, disabled, e, jc_available, jc),
{
}

/// Structured output keeps the same contract: where the forced run declines,
/// the input comes back unchanged.
pub proof fn lemma_declined_structured_output_is_input(
    input: Seq<u8>,
    o: RunOptionsV,
    c: ConfigV,
    format: structured::StructuredFormat,
    disabled: bool,
    e: EnvironmentV,
    jc_available: bool,
    jc: Option<Seq<char>>,
)
    requires
        declines(input, RunOptionsV { force: true, ..o }, c, true, disabled, jc_available, jc),
    ensures
        structured_spec(input, o, c, format, disabled, e, jc_available, jc) == input,
{
}

/// Terminal capability is a ceiling on the border style: a terminal that
/// cannot draw box characters gets ASCII borders (or none, where none were
/// asked for), while `ascii` and `none` are honored on every terminal and
/// any style on a capable one.
pub proof fn lemma_border_capability_is_a_ceiling(c: ConfigV, e: EnvironmentV)
    ensures
        terminal::unicode_spec(c.terminal_profile, e) ==> resolved_border(c, e) == border_of(c.border_style),
        border_of(c.border_style) == BorderStyle::Ascii ==> resolved_border(c, e) == BorderStyle::Ascii,
        border_of(c.border_style) == BorderStyle::Borderless ==> resolved_border(c, e) == BorderStyle::Borderless,
        !terminal::unicode_spec(c.terminal_profile, e) ==> resolved_border(c, e) == BorderStyle::Ascii
            || resolved_border(c, e) == BorderStyle::Borderless,
{
}

/// An explicit width is used as given (at least one column); otherwise the
/// terminal's last column is left free, and 80-column output is assumed
/// where the width is unknown.
pub proof fn lemma_width_choice(asked: Option<usize>, terminal: Option<usize>)
    ensures
        asked matches Some(w) ==> chosen_width(asked, terminal) == (if w > 1 {
            w
        } else {
            1
        }),
        forall|t: usize| asked is None && terminal == Some(t) && t > 1 ==> chosen_width(asked, terminal) == t - 1,
        asked is None && terminal is None ==> chosen_width(asked, terminal) == 79,
{
}

} // verus!

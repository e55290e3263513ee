//! Styles for the full-screen views: the style of a cell, and styled text
//! read back from the escape sequences that plain rendering writes.
use vstd::prelude::*;

use crate::model::{ChangeKind, Style};
use crate::render::{ColorPalette, RenderOptions};
use crate::text::{chars_of, string_of};

verus! {

/// A terminal color: one of the eight named ones or a 24-bit one.
#[derive(Debug, Clone, Copy, PartialEq, Eq, Structural)]
pub enum TermColor {
    Black,
    Red,
    Green,
    Yellow,
    Blue,
    Magenta,
    Cyan,
    Gray,
    Rgb(u8, u8, u8),
}

/// Foreground and background colors and the text modifiers.
#[derive(Debug, Clone, Copy, PartialEq, Eq, Structural)]
pub struct TermStyle {
    pub fg: Option<TermColor>,
    pub bg: Option<TermColor>,
    pub bold: bool,
    pub dim: bool,
    pub reversed: bool,
}

pub open spec fn plain_style() -> TermStyle {
    TermStyle { fg: None, bg: None, bold: false, dim: false, reversed: false }
}

pub fn plain() -> (r: TermStyle)
    ensures
        r == plain_style(),
{
    TermStyle { fg: None, bg: None, bold: false, dim: false, reversed: false }
}

/// The background that marks a changed cell.
pub open spec fn change_background(palette: ColorPalette, truecolor: bool, change: ChangeKind) -> TermColor {
    match (palette, truecolor, change) {
        (ColorPalette::Default, false, ChangeKind::Added) => TermColor::Green,
        (ColorPalette::Default, false, ChangeKind::Removed) => TermColor::Red,
        (_, false, ChangeKind::Changed) => TermColor::Yellow,
        (ColorPalette::Colorblind, false, ChangeKind::Added) => TermColor::Blue,
        (ColorPalette::Colorblind, false, ChangeKind::Removed) => TermColor::Magenta,
        (ColorPalette::Default, true, ChangeKind::Added) => TermColor::Rgb(34, 197, 94),
        (ColorPalette::Default, true, ChangeKind::Removed) => TermColor::Rgb(248, 113, 113),
        (ColorPalette::Default, true, ChangeKind::Changed) => TermColor::Rgb(250, 204, 21),
        (ColorPalette::Colorblind, true, ChangeKind::Added) => TermColor::Rgb(86, 180, 233),
        (ColorPalette::Colorblind, true, ChangeKind::Removed) => TermColor::Rgb(204, 121, 167),
        (ColorPalette::Colorblind, true, ChangeKind::Changed) => TermColor::Rgb(240, 228, 66),
    }
}

/// The color of a style and whether it is bold or dim (`None` for plain
/// text).
pub open spec fn style_color(palette: ColorPalette, truecolor: bool, style: Style) -> Option<(TermColor, bool, bool)> {
    if truecolor {
        match (palette, style) {
            (_, Style::Plain) => None,
            (_, Style::Muted) => Some((TermColor::Rgb(148, 163, 184), false, true)),
            (_, Style::Accent) => Some((TermColor::Rgb(34, 211, 238), true, false)),
            (ColorPalette::Default, Style::Good) => Some((TermColor::Rgb(34, 197, 94), false, false)),
            (ColorPalette::Default, Style::Warning) => Some((TermColor::Rgb(250, 204, 21), false, false)),
            (ColorPalette::Default, Style::Error) => Some((TermColor::Rgb(248, 113, 113), true, false)),
            (ColorPalette::Default, Style::Info) => Some((TermColor::Rgb(96, 165, 250), false, false)),
            (ColorPalette::Default, Style::Debug) => Some((TermColor::Rgb(192, 132, 252), false, true)),
            (ColorPalette::Colorblind, Style::Good) => Some((TermColor::Rgb(86, 180, 233), false, false)),
            (ColorPalette::Colorblind, Style::Warning) => Some((TermColor::Rgb(240, 228, 66), false, false)),
            (ColorPalette::Colorblind, Style::Error) => Some((TermColor::Rgb(204, 121, 167), true, false)),
            (ColorPalette::Colorblind, Style::Info) => Some((TermColor::Rgb(0, 158, 115), false, false)),
            (ColorPalette::Colorblind, Style::Debug) => Some((TermColor::Rgb(213, 94, 0), false, true)),
        }
    } else {
        match (palette, style) {
            (_, Style::Plain) => None,
            (_, Style::Muted) => Some((TermColor::Gray, false, true)),
            (_, Style::Accent) => Some((TermColor::Cyan, true, false)),
            (ColorPalette::Default, Style::Good) => Some((TermColor::Green, false, false)),
            (_, Style::Warning) => Some((TermColor::Yellow, false, false)),
            (ColorPalette::Default, Style::Error) => Some((TermColor::Red, true, false)),
            (ColorPalette::Default, Style::Info) => Some((TermColor::Blue, false, false)),
            (ColorPalette::Default, Style::Debug) => Some((TermColor::Magenta, false, true)),
            (ColorPalette::Colorblind, Style::Good) => Some((TermColor::Blue, false, false)),
            (ColorPalette::Colorblind, Style::Error) => Some((TermColor::Magenta, true, false)),
            (ColorPalette::Colorblind, Style::Info) => Some((TermColor::Cyan, false, false)),
            (ColorPalette::Colorblind, Style::Debug) => Some((TermColor::Red, false, true)),
        }
    }
}

/// The terminal style of a cell: none without color, black on the change
/// color for a changed cell, else the style's color.
pub open spec fn tui_style_spec(style: Style, change: Option<ChangeKind>, o: RenderOptions) -> TermStyle {
    if !o.color {
        plain_style()
    } else if let Some(c) = change {
        TermStyle {
            fg: Some(TermColor::Black),
            bg: Some(change_background(o.palette, o.truecolor, c)),
            ..plain_style()
        }
    } else {
        match style_color(o.palette, o.truecolor, style) {
            None => plain_style(),
            Some((color, bold, dim)) => TermStyle { fg: Some(color), bold, dim, ..plain_style() },
        }
    }
}

fn change_background_exec(palette: ColorPalette, truecolor: bool, change: ChangeKind) -> (r: TermColor)
    ensures
        r == change_background(palette, truecolor, change),
{
    match (palette, truecolor, change) {
        (ColorPalette::Default, false, ChangeKind::Added) => TermColor::Green,
        (ColorPalette::Default, false, ChangeKind::Removed) => TermColor::Red,
        (_, false, ChangeKind::Changed) => TermColor::Yellow,
        (ColorPalette::Colorblind, false, ChangeKind::Added) => TermColor::Blue,
        (ColorPalette::Colorblind, false, ChangeKind::Removed) => TermColor::Magenta,
        (ColorPalette::Default, true, ChangeKind::Added) => TermColor::Rgb(34, 197, 94),
        (ColorPalette::Default, true, ChangeKind::Removed) => TermColor::Rgb(248, 113, 113),
        (ColorPalette::Default, true, ChangeKind::Changed) => TermColor::Rgb(250, 204, 21),
        (ColorPalette::Colorblind, true, ChangeKind::Added) => TermColor::Rgb(86, 180, 233),
        (ColorPalette::Colorblind, true, ChangeKind::Removed) => TermColor::Rgb(204, 121, 167),
        (ColorPalette::Colorblind, true, ChangeKind::Changed) => TermColor::Rgb(240, 228, 66),
    }
}

fn style_color_exec(palette: ColorPalette, truecolor: bool, style: Style) -> (r: Option<(TermColor, bool, bool)>)
    ensures
        r == style_color(palette, truecolor, style),
{
    if truecolor {
        match (palette, style) {
            (_, Style::Plain) => None,
            (_, Style::Muted) => Some((TermColor::Rgb(148, 163, 184), false, true)),
            (_, Style::Accent) => Some((TermColor::Rgb(34, 211, 238), true, false)),
            (ColorPalette::Default, Style::Good) => Some((TermColor::Rgb(34, 197, 94), false, false)),
            (ColorPalette::Default, Style::Warning) => Some((TermColor::Rgb(250, 204, 21), false, false)),
            (ColorPalette::Default, Style::Error) => Some((TermColor::Rgb(248, 113, 113), true, false)),
            (ColorPalette::Default, Style::Info) => Some((TermColor::Rgb(96, 165, 250), false, false)),
            (ColorPalette::Default, Style::Debug) => Some((TermColor::Rgb(192, 132, 252), false, true)),
            (ColorPalette::Colorblind, Style::Good) => Some((TermColor::Rgb(86, 180, 233), false, false)),
            (ColorPalette::Colorblind, Style::Warning) => Some((TermColor::Rgb(240, 228, 66), false, false)),
            (ColorPalette::Colorblind, Style::Error) => Some((TermColor::Rgb(204, 121, 167), true, false)),
            (ColorPalette::Colorblind, Style::Info) => Some((TermColor::Rgb(0, 158, 115), false, false)),
            (ColorPalette::Colorblind, Style::Debug) => Some((TermColor::Rgb(213, 94, 0), false, true)),
        }
    } else {
        match (palette, style) {
            (_, Style::Plain) => None,
            (_, Style::Muted) => Some((TermColor::Gray, false, true)),
            (_, Style::Accent) => Some((TermColor::Cyan, true, false)),
            (ColorPalette::Default, Style::Good) => Some((TermColor::Green, false, false)),
            (_, Style::Warning) => Some((TermColor::Yellow, false, false)),
            (ColorPalette::Default, Style::Error) => Some((TermColor::Red, true, false)),
            (ColorPalette::Default, Style::Info) => Some((TermColor::Blue, false, false)),
            (ColorPalette::Default, Style::Debug) => Some((TermColor::Magenta, false, true)),
            (ColorPalette::Colorblind, Style::Good) => Some((TermColor::Blue, false, false)),
            (ColorPalette::Colorblind, Style::Error) => Some((TermColor::Magenta, true, false)),
            (ColorPalette::Colorblind, Style::Info) => Some((TermColor::Cyan, false, false)),
            (ColorPalette::Colorblind, Style::Debug) => Some((TermColor::Red, false, true)),
        }
    }
}

/// The terminal style of a cell.
pub fn tui_style(style: Style, change: Option<ChangeKind>, options: &RenderOptions) -> (r: TermStyle)
    ensures
        r == tui_style_spec(style, change, *options),
{
    if !options.color {
        return plain();
    }
    match change {
        Some(c) => TermStyle {
            fg: Some(TermColor::Black),
            bg: Some(change_background_exec(options.palette, options.truecolor, c)),
            bold: false,
            dim: false,
            reversed: false,
        },
        None => match style_color_exec(options.palette, options.truecolor, style) {
            None => plain(),
            Some((color, bold, dim)) => TermStyle { fg: Some(color), bg: None, bold, dim, reversed: false },
        },
    }
}

// ---------------------------------------------------------------------------
// Styled text from escape sequences
// ---------------------------------------------------------------------------

/// The numbers of an SGR parameter list (`1;31`), those that are not a
/// number in `0..=255` left out.
pub open spec fn sgr_codes(s: Seq<char>) -> Seq<u8> {
    codes_of(crate::config::pieces(s, ';'), crate::config::pieces(s, ';').len() as int)
}

pub open spec fn codes_of(ps: Seq<Seq<char>>, n: int) -> Seq<u8>
    decreases n,
{
    if n <= 0 {
        seq![]
    } else {
        match crate::parser::builtins::parse_u8(ps[n - 1]) {
            Some(c) => codes_of(ps, n - 1).push(c),
            None => codes_of(ps, n - 1),
        }
    }
}

/// The style after one SGR code.
pub open spec fn code_style(code: u8, st: TermStyle) -> TermStyle {
    if code == 1 {
        TermStyle { bold: true, ..st }
    } else if code == 2 {
        TermStyle { dim: true, ..st }
    } else if code == 7 {
        TermStyle { reversed: true, ..st }
    } else if code == 30 {
        TermStyle { fg: Some(TermColor::Black), ..st }
    } else if code == 31 {
        TermStyle { fg: Some(TermColor::Red), ..st }
    } else if code == 32 {
        TermStyle { fg: Some(TermColor::Green), ..st }
    } else if code == 33 {
        TermStyle { fg: Some(TermColor::Yellow), ..st }
    } else if code == 34 {
        TermStyle { fg: Some(TermColor::Blue), ..st }
    } else if code == 35 {
        TermStyle { fg: Some(TermColor::Magenta), ..st }
    } else if code == 36 {
        TermStyle { fg: Some(TermColor::Cyan), ..st }
    } else if code == 37 {
        TermStyle { fg: Some(TermColor::Gray), ..st }
    } else if code == 41 {
        TermStyle { bg: Some(TermColor::Red), ..st }
    } else if code == 42 {
        TermStyle { bg: Some(TermColor::Green), ..st }
    } else if code == 43 {
        TermStyle { bg: Some(TermColor::Yellow), ..st }
    } else {
        st
    }
}

/// The codes from position `i` applied in order: `38;2;r;g;b` and
/// `48;2;r;g;b` set a 24-bit foreground or background.
pub open spec fn apply_codes(codes: Seq<u8>, i: int, st: TermStyle) -> TermStyle
    decreases codes.len() - i,
{
    if i < 0 || i >= codes.len() {
        st
    } else if (codes[i] == 38 || codes[i] == 48) && i + 1 < codes.len() && codes[i + 1] == 2 && i + 4
        < codes.len() {
        let color = TermColor::Rgb(codes[i + 2], codes[i + 3], codes[i + 4]);
        apply_codes(
            codes,
            i + 5,
            if codes[i] == 38 {
                TermStyle { fg: Some(color), ..st }
            } else {
                TermStyle { bg: Some(color), ..st }
            },
        )
    } else {
        apply_codes(codes, i + 1, code_style(codes[i], st))
    }
}

/// The style after an SGR sequence: an empty one or `0` resets.
pub open spec fn sgr_style_spec(sequence: Seq<char>, st: TermStyle) -> TermStyle {
    if sequence.len() == 0 || sequence == "0"@ {
        plain_style()
    } else {
        apply_codes(sgr_codes(sequence), 0, st)
    }
}

fn code_style_exec(code: u8, st: TermStyle) -> (r: TermStyle)
    ensures
        r == code_style(code, st),
{
    let mut s = st;
    if code == 1 {
        s.bold = true;
    } else if code == 2 {
        s.dim = true;
    } else if code == 7 {
        s.reversed = true;
    } else if code == 30 {
        s.fg = Some(TermColor::Black);
    } else if code == 31 {
        s.fg = Some(TermColor::Red);
    } else if code == 32 {
        s.fg = Some(TermColor::Green);
    } else if code == 33 {
        s.fg = Some(TermColor::Yellow);
    } else if code == 34 {
        s.fg = Some(TermColor::Blue);
    } else if code == 35 {
        s.fg = Some(TermColor::Magenta);
    } else if code == 36 {
        s.fg = Some(TermColor::Cyan);
    } else if code == 37 {
        s.fg = Some(TermColor::Gray);
    } else if code == 41 {
        s.bg = Some(TermColor::Red);
    } else if code == 42 {
        s.bg = Some(TermColor::Green);
    } else if code == 43 {
        s.bg = Some(TermColor::Yellow);
    }
    s
}

/// The style after an SGR parameter list.
pub fn sgr_style(sequence: &str, style: TermStyle) -> (r: TermStyle)
    ensures
        r == sgr_style_spec(sequence@, style),
{
    let s = chars_of(sequence);
    if s.len() == 0 || crate::text::eq_str(s.as_slice(), "0") {
        return plain();
    }
    let ps = crate::config::split_pieces(s.as_slice(), ';');
    let ghost pv = ps.deep_view();
    let mut codes: Vec<u8> = Vec::new();
    let mut k: usize = 0;
    while k < ps.len()
        invariant
            k <= ps.len(),
            pv == ps.deep_view(),
            codes@ == codes_of(pv, k as int),
        decreases ps.len() - k,
    {
        proof {
            crate::text::lemma_deep_chars(&ps[k as int]);
        }
        match crate::parser::builtins::parse_u8_exec(ps[k].as_slice()) {
            Some(c) => codes.push(c),
            None => {},
        }
        k += 1;
    }
    let mut st = style;
    let mut i: usize = 0;
    while i < codes.len()
        invariant
            i <= codes.len(),
            apply_codes(codes@, i as int, st) == apply_codes(codes@, 0, style),
        decreases codes.len() - i,
    {
        let code = codes[i];
        if (code == 38 || code == 48) && codes.len() - i > 4 && codes[i + 1] == 2 {
            let color = TermColor::Rgb(codes[i + 2], codes[i + 3], codes[i + 4]);
            if code == 38 {
                st.fg = Some(color);
            } else {
                st.bg = Some(color);
            }
            i += 5;
        } else {
            st = code_style_exec(code, st);
            i += 1;
        }
    }
    st
}

/// The first escape-sequence start (ESC `[`) at or after `i`, or the
/// length.
pub open spec fn escape_from(s: Seq<char>, i: int) -> int
    decreases s.len() - i,
{
    if i < 0 || i >= s.len() {
        s.len() as int
    } else if s[i] == '\u{1b}' && i + 1 < s.len() && s[i + 1] == '[' {
        i
    } else {
        escape_from(s, i + 1)
    }
}

pub proof fn lemma_escape_from(s: Seq<char>, i: int)
    requires
        0 <= i <= s.len(),
    ensures
        i <= escape_from(s, i) <= s.len(),
        escape_from(s, i) < s.len() ==> escape_from(s, i) + 1 < s.len(),
    decreases s.len() - i,
{
    if i < s.len() && !(s[i] == '\u{1b}' && i + 1 < s.len() && s[i + 1] == '[') {
        lemma_escape_from(s, i + 1);
    }
}

pub proof fn lemma_char_at(s: Seq<char>, c: char, i: int)
    requires
        0 <= i <= s.len(),
    ensures
        i <= crate::config::char_at(s, c, i) <= s.len(),
        crate::config::char_at(s, c, i) < s.len() ==> s[crate::config::char_at(s, c, i)] == c,
    decreases s.len() - i,
{
    if i < s.len() && s[i] != c {
        lemma_char_at(s, c, i + 1);
    }
}

/// The styled runs of a line from position `i`: the text between escape
/// sequences, in the style the sequences before it set. An unterminated
/// sequence is kept as text.
pub open spec fn spans_from(s: Seq<char>, i: int, st: TermStyle) -> Seq<(Seq<char>, TermStyle)>
    decreases s.len() - i,
{
    if i < 0 || i >= s.len() {
        seq![]
    } else {
        let j = escape_from(s, i);
        proof {
            lemma_escape_from(s, i);
        }
        if j >= s.len() {
            seq![(s.skip(i), st)]
        } else {
            let before = if j > i {
                seq![(s.subrange(i, j), st)]
            } else {
                seq![]
            };
            let k = crate::config::char_at(s, 'm', j + 2);
            proof {
                lemma_char_at(s, 'm', j + 2);
            }
            if k >= s.len() {
                before + seq![(seq!['\u{1b}', '['], st)] + if j + 2 < s.len() {
                    seq![(s.skip(j + 2), st)]
                } else {
                    seq![]
                }
            } else {
                before + spans_from(s, k + 1, sgr_style_spec(s.subrange(j + 2, k), st))
            }
        }
    }
}

/// The styled runs of a line.
pub open spec fn ansi_spans(s: Seq<char>) -> Seq<(Seq<char>, TermStyle)> {
    spans_from(s, 0, plain_style())
}

pub open spec fn spans_view(v: Seq<(String, TermStyle)>) -> Seq<(Seq<char>, TermStyle)> {
    v.map_values(|p: (String, TermStyle)| (p.0@, p.1))
}

fn push_span(out: &mut Vec<(String, TermStyle)>, text: Vec<char>, st: TermStyle)
    ensures
        spans_view(final(out)@) == spans_view(old(out)@).push((text@, st)),
{
    let ghost before = out@;
    out.push((string_of(text.as_slice()), st));
    assert(spans_view(out@) =~= spans_view(before).push((text@, st)));
}

/// Splits a line written with escape sequences into styled runs.
pub fn ansi_line(value: &str) -> (r: Vec<(String, TermStyle)>)
    ensures
        spans_view(r@) == ansi_spans(value@),
{
    let s = chars_of(value);
    let mut out: Vec<(String, TermStyle)> = Vec::new();
    let mut st = plain();
    let mut i: usize = 0;
    let mut done = false;
    while i < s.len() && !done
        invariant
            i <= s.len(),
            s@ == value@,
            !done ==> spans_view(out@) + spans_from(s@, i as int, st) == ansi_spans(value@),
            done ==> spans_view(out@) == ansi_spans(value@),
        decreases s.len() - i, (if done { 0int } else { 1int }),
    {
        let mut j = i;
        while j < s.len() && !(s[j] == '\u{1b}' && j + 1 < s.len() && s[j + 1] == '[')
            invariant
                i <= j <= s.len(),
                escape_from(s@, j as int) == escape_from(s@, i as int),
            decreases s.len() - j,
        {
            j += 1;
        }
        proof {
            lemma_escape_from(s@, i as int);
        }
        let ghost before_out = spans_view(out@);
        if j >= s.len() {
            push_span(&mut out, crate::text::slice_of(s.as_slice(), i, s.len()), st);
            assert(s@.subrange(i as int, s@.len() as int) =~= s@.skip(i as int));
            done = true;
        } else {
            if j > i {
                push_span(&mut out, crate::text::slice_of(s.as_slice(), i, j), st);
            }
            let mut k = j + 2;
            while k < s.len() && s[k] != 'm'
                invariant
                    j + 2 <= k <= s.len(),
                    crate::config::char_at(s@, 'm', k as int) == crate::config::char_at(s@, 'm', j + 2),
                decreases s.len() - k,
            {
                k += 1;
            }
            proof {
                lemma_char_at(s@, 'm', j + 2);
            }
            if k >= s.len() {
                let mut esc: Vec<char> = Vec::new();
                esc.push('\u{1b}');
                esc.push('[');
                assert(esc@ =~= seq!['\u{1b}', '[']);
                push_span(&mut out, esc, st);
                if j + 2 < s.len() {
                    push_span(&mut out, crate::text::slice_of(s.as_slice(), j + 2, s.len()), st);
                    assert(s@.subrange(j + 2, s@.len() as int) =~= s@.skip(j + 2));
                }
                assert(spans_view(out@) =~= ansi_spans(value@));
                done = true;
            } else {
                let seq_text = string_of(crate::text::slice_of(s.as_slice(), j + 2, k).as_slice());
                st = sgr_style(seq_text.as_str(), st);
                i = k + 1;
            }
        }
    }
    out
}

} // verus!

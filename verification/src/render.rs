//! Responsive plain-text rendering of parsed views.
use vstd::prelude::*;

use crate::config::Breakpoints;
use crate::model::{
    cell_v, row_view, Alignment, Cell, CellV, ChangeKind, Column, ColumnV, Content, ContentV, LogRecord,
    LogRecordV, Style, Table, TableV, ValueType,
};
use crate::text::{chars_of, eq_str, extend, extend_str, is_blank, push_text, string_of};

verus! {

#[derive(Debug, Clone, Copy)]
pub struct RenderOptions {
    pub width: usize,
    pub color: bool,
    pub breakpoints: Breakpoints,
    pub border_style: BorderStyle,
    pub palette: ColorPalette,
    pub truecolor: bool,
}

#[derive(Debug, Clone, Copy, PartialEq, Eq, Structural)]
pub enum ColorPalette {
    Default,
    Colorblind,
}

impl ColorPalette {
    /// `colorblind` or `colorblind-safe` select the colorblind-safe palette.
    pub fn from_name(name: &str) -> (r: Self)
        ensures
            r == (if name@ == "colorblind"@ || name@ == "colorblind-safe"@ {
                ColorPalette::Colorblind
            } else {
                ColorPalette::Default
            }),
    {
        let v = chars_of(name);
        if eq_str(v.as_slice(), "colorblind") || eq_str(v.as_slice(), "colorblind-safe") {
            ColorPalette::Colorblind
        } else {
            ColorPalette::Default
        }
    }
}

#[derive(Debug, Clone, Copy, PartialEq, Eq, Structural)]
pub enum BorderStyle {
    Rounded,
    Light,
    Heavy,
    Double,
    Ascii,
    Borderless,
}

pub open spec fn border_of(name: Seq<char>) -> BorderStyle {
    if name == "none"@ {
        BorderStyle::Borderless
    } else if name == "light"@ || name == "sharp"@ {
        BorderStyle::Light
    } else if name == "heavy"@ {
        BorderStyle::Heavy
    } else if name == "double"@ {
        BorderStyle::Double
    } else if name == "ascii"@ {
        BorderStyle::Ascii
    } else {
        BorderStyle::Rounded
    }
}

impl BorderStyle {
    /// The named style; anything unknown is rounded.
    pub fn from_name(name: &str) -> (r: Self)
        ensures
            r == border_of(name@),
    {
        let v = chars_of(name);
        let s = v.as_slice();
        if eq_str(s, "none") {
            BorderStyle::Borderless
        } else if eq_str(s, "light") || eq_str(s, "sharp") {
            BorderStyle::Light
        } else if eq_str(s, "heavy") {
            BorderStyle::Heavy
        } else if eq_str(s, "double") {
            BorderStyle::Double
        } else if eq_str(s, "ascii") {
            BorderStyle::Ascii
        } else {
            BorderStyle::Rounded
        }
    }
}

/// The glyphs that draw a table's borders.
#[derive(Debug, Clone, Copy, PartialEq, Eq, Structural)]
pub struct BorderGlyphs {
    pub top_left: char,
    pub top_join: char,
    pub top_right: char,
    pub middle_left: char,
    pub middle_join: char,
    pub middle_right: char,
    pub bottom_left: char,
    pub bottom_join: char,
    pub bottom_right: char,
    pub horizontal: char,
    pub vertical: char,
}

pub open spec fn glyphs_of(style: BorderStyle) -> BorderGlyphs {
    match style {
        BorderStyle::Rounded => BorderGlyphs {
            top_left: '╭',
            top_join: '┬',
            top_right: '╮',
            middle_left: '├',
            middle_join: '┼',
            middle_right: '┤',
            bottom_left: '╰',
            bottom_join: '┴',
            bottom_right: '╯',
            horizontal: '─',
            vertical: '│',
        },
        BorderStyle::Light => BorderGlyphs {
            top_left: '┌',
            top_join: '┬',
            top_right: '┐',
            middle_left: '├',
            middle_join: '┼',
            middle_right: '┤',
            bottom_left: '└',
            bottom_join: '┴',
            bottom_right: '┘',
            horizontal: '─',
            vertical: '│',
        },
        BorderStyle::Heavy => BorderGlyphs {
            top_left: '┏',
            top_join: '┳',
            top_right: '┓',
            middle_left: '┣',
            middle_join: '╋',
            middle_right: '┫',
            bottom_left: '┗',
            bottom_join: '┻',
            bottom_right: '┛',
            horizontal: '━',
            vertical: '┃',
        },
        BorderStyle::Double => BorderGlyphs {
            top_left: '╔',
            top_join: '╦',
            top_right: '╗',
            middle_left: '╠',
            middle_join: '╬',
            middle_right: '╣',
            bottom_left: '╚',
            bottom_join: '╩',
            bottom_right: '╝',
            horizontal: '═',
            vertical: '║',
        },
        _ => BorderGlyphs {
            top_left: '+',
            top_join: '+',
            top_right: '+',
            middle_left: '+',
            middle_join: '+',
            middle_right: '+',
            bottom_left: '+',
            bottom_join: '+',
            bottom_right: '+',
            horizontal: '-',
            vertical: '|',
        },
    }
}

/// The fixed glyph table of each border style (`ascii` and `none` share the
/// ASCII set).
pub fn border_glyphs(style: BorderStyle) -> (g: BorderGlyphs)
    ensures
        g == glyphs_of(style),
{
    match style {
        BorderStyle::Rounded => BorderGlyphs {
            top_left: '╭',
            top_join: '┬',
            top_right: '╮',
            middle_left: '├',
            middle_join: '┼',
            middle_right: '┤',
            bottom_left: '╰',
            bottom_join: '┴',
            bottom_right: '╯',
            horizontal: '─',
            vertical: '│',
        },
        BorderStyle::Light => BorderGlyphs {
            top_left: '┌',
            top_join: '┬',
            top_right: '┐',
            middle_left: '├',
            middle_join: '┼',
            middle_right: '┤',
            bottom_left: '└',
            bottom_join: '┴',
            bottom_right: '┘',
            horizontal: '─',
            vertical: '│',
        },
        BorderStyle::Heavy => BorderGlyphs {
            top_left: '┏',
            top_join: '┳',
            top_right: '┓',
            middle_left: '┣',
            middle_join: '╋',
            middle_right: '┫',
            bottom_left: '┗',
            bottom_join: '┻',
            bottom_right: '┛',
            horizontal: '━',
            vertical: '┃',
        },
        BorderStyle::Double => BorderGlyphs {
            top_left: '╔',
            top_join: '╦',
            top_right: '╗',
            middle_left: '╠',
            middle_join: '╬',
            middle_right: '╣',
            bottom_left: '╚',
            bottom_join: '╩',
            bottom_right: '╝',
            horizontal: '═',
            vertical: '║',
        },
        _ => BorderGlyphs {
            top_left: '+',
            top_join: '+',
            top_right: '+',
            middle_left: '+',
            middle_join: '+',
            middle_right: '+',
            bottom_left: '+',
            bottom_join: '+',
            bottom_right: '+',
            horizontal: '-',
            vertical: '|',
        },
    }
}

/// The named border styles draw their top-left corner each with a glyph of
/// its own.
pub proof fn lemma_named_styles_distinct()
    ensures
        glyphs_of(BorderStyle::Rounded).top_left != glyphs_of(BorderStyle::Light).top_left,
        glyphs_of(BorderStyle::Rounded).top_left != glyphs_of(BorderStyle::Heavy).top_left,
        glyphs_of(BorderStyle::Rounded).top_left != glyphs_of(BorderStyle::Double).top_left,
        glyphs_of(BorderStyle::Rounded).top_left != glyphs_of(BorderStyle::Ascii).top_left,
        glyphs_of(BorderStyle::Light).top_left != glyphs_of(BorderStyle::Heavy).top_left,
        glyphs_of(BorderStyle::Light).top_left != glyphs_of(BorderStyle::Double).top_left,
        glyphs_of(BorderStyle::Light).top_left != glyphs_of(BorderStyle::Ascii).top_left,
        glyphs_of(BorderStyle::Heavy).top_left != glyphs_of(BorderStyle::Double).top_left,
        glyphs_of(BorderStyle::Heavy).top_left != glyphs_of(BorderStyle::Ascii).top_left,
        glyphs_of(BorderStyle::Double).top_left != glyphs_of(BorderStyle::Ascii).top_left,
{
}

// ---------------------------------------------------------------------------
// Display widths
// ---------------------------------------------------------------------------

/// The display width of a string, as `unicode_width` computes it.
pub uninterp spec fn text_width(s: Seq<char>) -> usize;

/// The display width of a character (`None` for a control character), as
/// `unicode_width` computes it.
pub uninterp spec fn char_width_of(c: char) -> Option<usize>;

/// `UnicodeWidthStr::width`. The result is named; the contract adds what the
/// crate's source shows for the simplest strings: the empty string has width
/// 0 and a string of printable ASCII characters has one column per
/// character. Width tables and ligature rules are not restated.
#[verifier::external_body]
pub(crate) fn display_width(value: &str) -> (r: usize)
    ensures
        r == text_width(value@),
        value@.len() == 0 ==> r == 0,
        (forall|i: int| 0 <= i < value@.len() ==> 0x20 <= (#[trigger] value@[i] as u32) < 0x7F) ==> r
            == value@.len(),
{
    unicode_width::UnicodeWidthStr::width(value)
}

/// `UnicodeWidthChar::width`. The result is named; the contract adds what the
/// crate's source shows: control characters (below U+0020 and U+007F to
/// U+009F) have none, other ASCII characters width 1, the box-drawing block
/// (U+2500 to U+257F) and the ellipsis (U+2026) width 1 in its tables, and
/// no character more than 3.
#[verifier::external_body]
pub(crate) fn char_width(c: char) -> (r: Option<usize>)
    ensures
        r == char_width_of(c),
        (c as u32) < 0x20 ==> r.is_none(),
        0x20 <= (c as u32) < 0x7F ==> r == Some(1usize),
        0x7F <= (c as u32) < 0xA0 ==> r.is_none(),
        0x2500 <= (c as u32) <= 0x257F ==> r == Some(1usize),
        c == '\u{2026}' ==> r == Some(1usize),
        r matches Some(w) ==> w <= 3,
{
    unicode_width::UnicodeWidthChar::width(c)
}

/// The columns a character takes when a string is cut (control characters
/// take none).
pub open spec fn cols_of(c: char) -> nat {
    match char_width_of(c) {
        Some(w) => w as nat,
        None => 0,
    }
}

/// The length of the longest prefix, from `i` on, whose columns fit in
/// `target` once `used` are taken.
pub open spec fn fit_len(v: Seq<char>, i: int, used: nat, target: nat) -> int
    decreases v.len() - i,
{
    if i < 0 || i >= v.len() || used + cols_of(v[i]) > target {
        i
    } else {
        fit_len(v, i + 1, used + cols_of(v[i]), target)
    }
}

/// A value cut to `max` columns, with an ellipsis where it was cut.
pub open spec fn truncate_spec(v: Seq<char>, max: nat) -> Seq<char> {
    if text_width(v) <= max {
        v
    } else if max == 0 {
        seq![]
    } else if max == 1 {
        seq!['…']
    } else {
        v.take(fit_len(v, 0, 0, (max - 1) as nat)) + seq!['…']
    }
}

pub fn truncate(value: &[char], max_width: usize) -> (r: Vec<char>)
    ensures
        r@ == truncate_spec(value@, max_width as nat),
{
    let s = string_of(value);
    if display_width(s.as_str()) <= max_width {
        return crate::text::copy(value);
    }
    if max_width == 0 {
        return Vec::new();
    }
    if max_width == 1 {
        let mut r: Vec<char> = Vec::new();
        r.push('…');
        return r;
    }
    let target = max_width - 1;
    let mut width: usize = 0;
    let mut i: usize = 0;
    let mut done = false;
    while i < value.len() && !done
        invariant
            i <= value@.len(),
            width <= target,
            fit_len(value@, 0, 0, target as nat) == if done {
                i as int
            } else {
                fit_len(value@, i as int, width as nat, target as nat)
            },
        decreases value@.len() - i, if done { 0int } else { 1int },
    {
        let cw: usize = match char_width(value[i]) {
            Some(w) => w,
            None => 0,
        };
        if cw > target - width {
            done = true;
        } else {
            width = width + cw;
            i += 1;
        }
    }
    let mut r = crate::text::slice_of(value, 0, i);
    assert(r@ =~= value@.take(i as int));
    r.push('…');
    r
}

pub open spec fn spaces(n: nat) -> Seq<char> {
    Seq::new(n, |i: int| ' ')
}

pub open spec fn repeat_char(c: char, n: nat) -> Seq<char> {
    Seq::new(n, |i: int| c)
}

fn push_repeat(out: &mut Vec<char>, c: char, n: usize)
    ensures
        final(out)@ == old(out)@ + repeat_char(c, n as nat),
{
    let ghost start = out@;
    let mut i: usize = 0;
    while i < n
        invariant
            i <= n,
            out@ == start + repeat_char(c, i as nat),
        decreases n - i,
    {
        out.push(c);
        i += 1;
        assert(out@ =~= start + repeat_char(c, i as nat));
    }
}

/// A value padded with spaces to `width` columns on the side that the
/// alignment leaves free.
pub open spec fn pad_spec(v: Seq<char>, width: nat, alignment: Alignment) -> Seq<char> {
    let missing: nat = if width > text_width(v) {
        (width - text_width(v)) as nat
    } else {
        0
    };
    match alignment {
        Alignment::Left => v + spaces(missing),
        Alignment::Right => spaces(missing) + v,
    }
}

pub fn pad(value: &[char], width: usize, alignment: Alignment) -> (r: Vec<char>)
    ensures
        r@ == pad_spec(value@, width as nat, alignment),
{
    let s = string_of(value);
    let w = display_width(s.as_str());
    let missing = if width > w {
        width - w
    } else {
        0
    };
    let mut out: Vec<char> = Vec::new();
    match alignment {
        Alignment::Left => {
            extend(&mut out, value);
            push_repeat(&mut out, ' ', missing);
        },
        Alignment::Right => {
            push_repeat(&mut out, ' ', missing);
            extend(&mut out, value);
        },
    }
    assert(repeat_char(' ', missing as nat) =~= spaces(missing as nat));
    out
}

// ---------------------------------------------------------------------------
// Colors
// ---------------------------------------------------------------------------

/// The SGR parameters of a style.
pub open spec fn style_code_spec(style: Style, palette: ColorPalette, truecolor: bool) -> Seq<char> {
    if truecolor {
        match (palette, style) {
            (_, Style::Plain) => "0"@,
            (_, Style::Muted) => "2;38;2;148;163;184"@,
            (_, Style::Accent) => "1;38;2;34;211;238"@,
            (ColorPalette::Default, Style::Good) => "38;2;34;197;94"@,
            (ColorPalette::Default, Style::Warning) => "38;2;250;204;21"@,
            (ColorPalette::Default, Style::Error) => "1;38;2;248;113;113"@,
            (ColorPalette::Default, Style::Info) => "38;2;96;165;250"@,
            (ColorPalette::Default, Style::Debug) => "2;38;2;192;132;252"@,
            (ColorPalette::Colorblind, Style::Good) => "38;2;86;180;233"@,
            (ColorPalette::Colorblind, Style::Warning) => "38;2;240;228;66"@,
            (ColorPalette::Colorblind, Style::Error) => "1;38;2;204;121;167"@,
            (ColorPalette::Colorblind, Style::Info) => "38;2;0;158;115"@,
            (ColorPalette::Colorblind, Style::Debug) => "2;38;2;213;94;0"@,
        }
    } else {
        match (palette, style) {
            (_, Style::Plain) => "0"@,
            (_, Style::Muted) => "2;37"@,
            (_, Style::Accent) => "1;36"@,
            (ColorPalette::Default, Style::Good) => "32"@,
            (ColorPalette::Default, Style::Warning) => "33"@,
            (ColorPalette::Default, Style::Error) => "1;31"@,
            (ColorPalette::Default, Style::Info) => "34"@,
            (ColorPalette::Default, Style::Debug) => "2;35"@,
            (ColorPalette::Colorblind, Style::Good) => "34"@,
            (ColorPalette::Colorblind, Style::Warning) => "33"@,
            (ColorPalette::Colorblind, Style::Error) => "1;35"@,
            (ColorPalette::Colorblind, Style::Info) => "36"@,
            (ColorPalette::Colorblind, Style::Debug) => "2;31"@,
        }
    }
}

fn style_code(style: Style, options: &RenderOptions) -> (r: &'static str)
    ensures
        r@ == style_code_spec(style, options.palette, options.truecolor),
{
    if options.truecolor {
        match (options.palette, style) {
            (_, Style::Plain) => "0",
            (_, Style::Muted) => "2;38;2;148;163;184",
            (_, Style::Accent) => "1;38;2;34;211;238",
            (ColorPalette::Default, Style::Good) => "38;2;34;197;94",
            (ColorPalette::Default, Style::Warning) => "38;2;250;204;21",
            (ColorPalette::Default, Style::Error) => "1;38;2;248;113;113",
            (ColorPalette::Default, Style::Info) => "38;2;96;165;250",
            (ColorPalette::Default, Style::Debug) => "2;38;2;192;132;252",
            (ColorPalette::Colorblind, Style::Good) => "38;2;86;180;233",
            (ColorPalette::Colorblind, Style::Warning) => "38;2;240;228;66",
            (ColorPalette::Colorblind, Style::Error) => "1;38;2;204;121;167",
            (ColorPalette::Colorblind, Style::Info) => "38;2;0;158;115",
            (ColorPalette::Colorblind, Style::Debug) => "2;38;2;213;94;0",
        }
    } else {
        match (options.palette, style) {
            (_, Style::Plain) => "0",
            (_, Style::Muted) => "2;37",
            (_, Style::Accent) => "1;36",
            (ColorPalette::Default, Style::Good) => "32",
            (ColorPalette::Default, Style::Warning) => "33",
            (ColorPalette::Default, Style::Error) => "1;31",
            (ColorPalette::Default, Style::Info) => "34",
            (ColorPalette::Default, Style::Debug) => "2;35",
            (ColorPalette::Colorblind, Style::Good) => "34",
            (ColorPalette::Colorblind, Style::Warning) => "33",
            (ColorPalette::Colorblind, Style::Error) => "1;35",
            (ColorPalette::Colorblind, Style::Info) => "36",
            (ColorPalette::Colorblind, Style::Debug) => "2;31",
        }
    }
}

/// A value wrapped in an SGR sequence and a reset.
pub open spec fn sgr(code: Seq<char>, v: Seq<char>) -> Seq<char> {
    seq!['\u{1b}', '['] + code + seq!['m'] + v + seq!['\u{1b}', '[', '0', 'm']
}

/// A value in the style's color, unless color is off, the style is plain or
/// the value is blank.
pub open spec fn paint_spec(v: Seq<char>, style: Style, o: RenderOptions) -> Seq<char> {
    if !o.color || style == Style::Plain || is_blank(v) {
        v
    } else {
        sgr(style_code_spec(style, o.palette, o.truecolor), v)
    }
}

fn push_sgr(out: &mut Vec<char>, code: &str, v: &[char])
    ensures
        final(out)@ == old(out)@ + sgr(code@, v@),
{
    let ghost start = out@;
    out.push('\u{1b}');
    out.push('[');
    extend_str(out, code);
    out.push('m');
    extend(out, v);
    out.push('\u{1b}');
    out.push('[');
    out.push('0');
    out.push('m');
    assert(out@ =~= start + sgr(code@, v@));
}

pub fn paint(out: &mut Vec<char>, value: &[char], style: Style, options: &RenderOptions)
    ensures
        final(out)@ == old(out)@ + paint_spec(value@, style, *options),
{
    if !options.color || style == Style::Plain || crate::text::blank(value) {
        extend(out, value);
    } else {
        push_sgr(out, style_code(style, options), value);
    }
}

/// The SGR parameters that mark a changed cell.
pub open spec fn change_code_spec(palette: ColorPalette, truecolor: bool, change: ChangeKind) -> Seq<char> {
    match (palette, truecolor, change) {
        (ColorPalette::Default, false, ChangeKind::Added) => "30;42"@,
        (ColorPalette::Default, false, ChangeKind::Removed) => "30;41"@,
        (ColorPalette::Default, false, ChangeKind::Changed) => "30;43"@,
        (ColorPalette::Colorblind, false, ChangeKind::Added) => "37;44"@,
        (ColorPalette::Colorblind, false, ChangeKind::Removed) => "37;45"@,
        (ColorPalette::Colorblind, false, ChangeKind::Changed) => "30;43"@,
        (ColorPalette::Default, true, ChangeKind::Added) => "30;48;2;34;197;94"@,
        (ColorPalette::Default, true, ChangeKind::Removed) => "30;48;2;248;113;113"@,
        (ColorPalette::Default, true, ChangeKind::Changed) => "30;48;2;250;204;21"@,
        (ColorPalette::Colorblind, true, ChangeKind::Added) => "30;48;2;86;180;233"@,
        (ColorPalette::Colorblind, true, ChangeKind::Removed) => "30;48;2;204;121;167"@,
        (ColorPalette::Colorblind, true, ChangeKind::Changed) => "30;48;2;240;228;66"@,
    }
}

fn change_code(palette: ColorPalette, truecolor: bool, change: ChangeKind) -> (r: &'static str)
    ensures
        r@ == change_code_spec(palette, truecolor, change),
{
    match (palette, truecolor, change) {
        (ColorPalette::Default, false, ChangeKind::Added) => "30;42",
        (ColorPalette::Default, false, ChangeKind::Removed) => "30;41",
        (ColorPalette::Default, false, ChangeKind::Changed) => "30;43",
        (ColorPalette::Colorblind, false, ChangeKind::Added) => "37;44",
        (ColorPalette::Colorblind, false, ChangeKind::Removed) => "37;45",
        (ColorPalette::Colorblind, false, ChangeKind::Changed) => "30;43",
        (ColorPalette::Default, true, ChangeKind::Added) => "30;48;2;34;197;94",
        (ColorPalette::Default, true, ChangeKind::Removed) => "30;48;2;248;113;113",
        (ColorPalette::Default, true, ChangeKind::Changed) => "30;48;2;250;204;21",
        (ColorPalette::Colorblind, true, ChangeKind::Added) => "30;48;2;86;180;233",
        (ColorPalette::Colorblind, true, ChangeKind::Removed) => "30;48;2;204;121;167",
        (ColorPalette::Colorblind, true, ChangeKind::Changed) => "30;48;2;240;228;66",
    }
}

/// A cell's text: a changed cell in its change color, else in its style.
pub open spec fn paint_cell_spec(v: Seq<char>, cell: CellV, o: RenderOptions) -> Seq<char> {
    if !o.color || is_blank(v) {
        v
    } else {
        match cell.change {
            Some(ch) => sgr(change_code_spec(o.palette, o.truecolor, ch), v),
            None => paint_spec(v, cell.style, o),
        }
    }
}

fn paint_cell(out: &mut Vec<char>, value: &[char], cell: &Cell, options: &RenderOptions)
    ensures
        final(out)@ == old(out)@ + paint_cell_spec(value@, cell@, *options),
{
    if !options.color || crate::text::blank(value) {
        extend(out, value);
        return;
    }
    match cell.change {
        Some(ch) => push_sgr(out, change_code(options.palette, options.truecolor, ch), value),
        None => paint(out, value, cell.style, options),
    }
}

/// The style of a character of a permission string.
pub open spec fn permission_style(c: char) -> Style {
    if c == 'd' || c == 'l' {
        Style::Accent
    } else if c == 'r' {
        Style::Good
    } else if c == 'w' {
        Style::Warning
    } else if c == 'x' || c == 's' || c == 't' {
        Style::Info
    } else if c == '-' {
        Style::Muted
    } else {
        Style::Plain
    }
}

/// Permission strings painted character by character.
pub open spec fn paint_permissions(v: Seq<char>, o: RenderOptions) -> Seq<char>
    decreases v.len(),
{
    if v.len() == 0 {
        seq![]
    } else {
        paint_permissions(v.drop_last(), o) + paint_spec(seq![v.last()], permission_style(v.last()), o)
    }
}

pub open spec fn paint_typed_spec(v: Seq<char>, cell: CellV, column: ColumnV, o: RenderOptions) -> Seq<char> {
    if column.value_type != ValueType::Permissions || !o.color || cell.change.is_some() {
        paint_cell_spec(v, cell, o)
    } else {
        paint_permissions(v, o)
    }
}

fn paint_typed_cell(out: &mut Vec<char>, value: &[char], cell: &Cell, column: &Column, options: &RenderOptions)
    ensures
        final(out)@ == old(out)@ + paint_typed_spec(value@, cell@, column@, *options),
{
    if column.value_type != ValueType::Permissions || !options.color || cell.change.is_some() {
        paint_cell(out, value, cell, options);
        return;
    }
    let ghost start = out@;
    let mut i: usize = 0;
    while i < value.len()
        invariant
            i <= value@.len(),
            out@ == start + paint_permissions(value@.take(i as int), *options),
        decreases value@.len() - i,
    {
        let c = value[i];
        let style = if c == 'd' || c == 'l' {
            Style::Accent
        } else if c == 'r' {
            Style::Good
        } else if c == 'w' {
            Style::Warning
        } else if c == 'x' || c == 's' || c == 't' {
            Style::Info
        } else if c == '-' {
            Style::Muted
        } else {
            Style::Plain
        };
        let mut one: Vec<char> = Vec::new();
        one.push(c);
        assert(one@ =~= seq![c]);
        assert(value@.take(i + 1).drop_last() =~= value@.take(i as int));
        paint(out, one.as_slice(), style, options);
        i += 1;
    }
    assert(value@.take(value@.len() as int) =~= value@);
}

// ---------------------------------------------------------------------------
// Cell values
// ---------------------------------------------------------------------------

/// The partial blocks of a gauge, from one eighth to seven.
pub open spec fn ramp(k: int) -> char {
    if k == 0 {
        '▏'
    } else if k == 1 {
        '▎'
    } else if k == 2 {
        '▍'
    } else if k == 3 {
        '▌'
    } else if k == 4 {
        '▋'
    } else if k == 5 {
        '▊'
    } else {
        '▉'
    }
}

/// A bar of `width` cells filled to `e` eighths of a cell.
pub open spec fn gauge_spec(e: nat, width: nat) -> Seq<char> {
    let full: nat = if e / 8 < width {
        e / 8
    } else {
        width
    };
    let partial = e % 8;
    let has_partial = full < width && partial > 0;
    let occupied: nat = if has_partial {
        full + 1
    } else {
        full
    };
    repeat_char('█', full) + (if has_partial {
        seq![ramp(partial - 1)]
    } else {
        seq![]
    }) + spaces((width - occupied) as nat)
}

fn push_gauge(out: &mut Vec<char>, eighths: u64, width: usize)
    ensures
        final(out)@ == old(out)@ + gauge_spec(eighths as nat, width as nat),
{
    let ghost start = out@;
    let full: usize = if eighths / 8 < width as u64 {
        (eighths / 8) as usize
    } else {
        width
    };
    let partial = eighths % 8;
    push_repeat(out, '█', full);
    let has_partial = full < width && partial > 0;
    if has_partial {
        let c = if partial == 1 {
            '▏'
        } else if partial == 2 {
            '▎'
        } else if partial == 3 {
            '▍'
        } else if partial == 4 {
            '▌'
        } else if partial == 5 {
            '▋'
        } else if partial == 6 {
            '▊'
        } else {
            '▉'
        };
        out.push(c);
    }
    let occupied = if has_partial {
        full + 1
    } else {
        full
    };
    push_repeat(out, ' ', width - occupied);
    assert(repeat_char(' ', (width - occupied) as nat) =~= spaces((width - occupied) as nat));
    assert(out@ =~= start + gauge_spec(eighths as nat, width as nat));
}

/// A bar of `width` cells filled to `eighths` eighths of a cell, as a
/// percentage is drawn: the caller turns the percentage into eighths of the
/// whole bar.
pub fn gauge_bar(eighths: u64, width: usize) -> (r: String)
    ensures
        r@ == gauge_spec(eighths as nat, width as nat),
{
    let mut out: Vec<char> = Vec::new();
    push_gauge(&mut out, eighths, width);
    assert(out@ =~= gauge_spec(eighths as nat, width as nat));
    string_of(out.as_slice())
}

pub open spec fn bar(k: int) -> char {
    if k == 0 {
        '▁'
    } else if k == 1 {
        '▂'
    } else if k == 2 {
        '▃'
    } else if k == 3 {
        '▄'
    } else if k == 4 {
        '▅'
    } else if k == 5 {
        '▆'
    } else if k == 6 {
        '▇'
    } else {
        '█'
    }
}

/// One bar per sample, samples capped at 100.
pub open spec fn sparkline_spec(samples: Seq<u64>) -> Seq<char> {
    samples.map_values(|s: u64| bar(((if s < 100 { s } else { 100 }) * 7 / 100) as int))
}

fn sparkline(out: &mut Vec<char>, samples: &Vec<u64>)
    ensures
        final(out)@ == old(out)@ + sparkline_spec(samples@),
{
    let ghost start = out@;
    let mut i: usize = 0;
    while i < samples.len()
        invariant
            i <= samples@.len(),
            out@ == start + sparkline_spec(samples@.take(i as int)),
        decreases samples@.len() - i,
    {
        let s = if samples[i] < 100 {
            samples[i]
        } else {
            100
        };
        let k = s * 7 / 100;
        let c = if k == 0 {
            '▁'
        } else if k == 1 {
            '▂'
        } else if k == 2 {
            '▃'
        } else if k == 3 {
            '▄'
        } else if k == 4 {
            '▅'
        } else if k == 5 {
            '▆'
        } else if k == 6 {
            '▇'
        } else {
            '█'
        };
        out.push(c);
        i += 1;
        assert(out@ =~= start + sparkline_spec(samples@.take(i as int)));
    }
    assert(samples@.take(samples@.len() as int) =~= samples@);
}

/// `u64::from_str`: an optional `+`, then decimal digits, at most `u64::MAX`.
pub open spec fn parse_u64(s: Seq<char>) -> Option<u64> {
    let d = if s.len() > 0 && s[0] == '+' {
        s.drop_first()
    } else {
        s
    };
    if d.len() > 0 && crate::parser::builtins::all_digits(d) && crate::parser::builtins::digits_value(d)
        <= u64::MAX {
        Some(crate::parser::builtins::digits_value(d) as u64)
    } else {
        None
    }
}

pub fn parse_u64_exec(s: &[char]) -> (r: Option<u64>)
    ensures
        r == parse_u64(s@),
{
    let start: usize = if s.len() > 0 && s[0] == '+' {
        1
    } else {
        0
    };
    let ghost d = if s@.len() > 0 && s@[0] == '+' {
        s@.drop_first()
    } else {
        s@
    };
    assert(d =~= s@.subrange(start as int, s@.len() as int));
    if start >= s.len() {
        return None;
    }
    let mut v: u64 = 0;
    let mut i: usize = start;
    while i < s.len()
        invariant
            start <= i <= s@.len(),
            d == s@.subrange(start as int, s@.len() as int),
            d == (if s@.len() > 0 && s@[0] == '+' {
                s@.drop_first()
            } else {
                s@
            }),
            v as int == crate::parser::builtins::digits_value(d.take(i - start)),
            forall|j: int| start <= j < i ==> crate::text::is_digit(#[trigger] s@[j]),
        decreases s@.len() - i,
    {
        let c = s[i];
        if !crate::text::is_ascii_digit(c) {
            assert(!crate::text::is_digit(d[i - start]));
            return None;
        }
        let digit: u64 = (c as u64) - 48;
        assert(d.take(i - start + 1).drop_last() =~= d.take(i - start));
        i += 1;
        if v > (u64::MAX - digit) / 10 {
            proof {
                let m = u64::MAX - digit;
                assert(v * 10 + digit > u64::MAX) by (nonlinear_arith)
                    requires
                        v > m / 10,
                        m == u64::MAX - digit,
                        0 <= digit <= 9,
                ;
                if crate::parser::builtins::all_digits(d) {
                    crate::parser::builtins::lemma_digits_value_grows(d, i - start);
                }
            }
            return None;
        }
        v = v * 10 + digit;
    }
    assert(d.take(i - start) =~= d);
    Some(v)
}

/// How long ago a time was, in the largest unit that fits.
pub open spec fn ago(seconds: nat) -> Seq<char> {
    if seconds < 60 {
        crate::text::dec(seconds) + "s ago"@
    } else if seconds < 3_600 {
        crate::text::dec(seconds / 60) + "m ago"@
    } else if seconds < 86_400 {
        crate::text::dec(seconds / 3_600) + "h ago"@
    } else {
        crate::text::dec(seconds / 86_400) + "d ago"@
    }
}

/// A Unix time shown relative to `now`, with the raw value at wide widths;
/// anything else unchanged.
pub open spec fn relative_spec(v: Seq<char>, now: u64, o: RenderOptions) -> Seq<char> {
    match parse_u64(v) {
        Some(ts) => {
            let seconds: nat = if now > ts {
                (now - ts) as nat
            } else {
                0
            };
            if o.width > o.breakpoints.wide {
                ago(seconds) + " ("@ + v + seq![')']
            } else {
                ago(seconds)
            }
        },
        None => v,
    }
}

fn relative_timestamp(value: &[char], now: u64, options: &RenderOptions) -> (r: Vec<char>)
    ensures
        r@ == relative_spec(value@, now, *options),
{
    let ts = match parse_u64_exec(value) {
        Some(ts) => ts,
        None => {
            return crate::text::copy(value);
        },
    };
    let seconds = if now > ts {
        now - ts
    } else {
        0
    };
    let mut out: Vec<char> = if seconds < 60 {
        let mut o = crate::text::decimal(seconds);
        extend_str(&mut o, "s ago");
        o
    } else if seconds < 3_600 {
        let mut o = crate::text::decimal(seconds / 60);
        extend_str(&mut o, "m ago");
        o
    } else if seconds < 86_400 {
        let mut o = crate::text::decimal(seconds / 3_600);
        extend_str(&mut o, "h ago");
        o
    } else {
        let mut o = crate::text::decimal(seconds / 86_400);
        extend_str(&mut o, "d ago");
        o
    };
    if options.width > options.breakpoints.wide {
        extend_str(&mut out, " (");
        extend(&mut out, value);
        out.push(')');
    }
    out
}

/// The text shown for a cell: percentages with a gauge (and a trend at wide
/// widths) from the core width on, times relative to now, anything else as
/// it is.
pub open spec fn format_value_spec(
    column: ColumnV,
    cell: CellV,
    o: RenderOptions,
    now: u64,
) -> Seq<char> {
    match column.value_type {
        ValueType::Percentage => if o.width >= o.breakpoints.core {
            match crate::number::gauge_of(cell.text) {
                Some(e) => cell.text + seq![' '] + gauge_spec(e, 8) + if o.width
                    >= o.breakpoints.wide && cell.trend.len() > 0 {
                    seq![' '] + sparkline_spec(cell.trend)
                } else {
                    seq![]
                },
                None => cell.text,
            }
        } else {
            cell.text
        },
        ValueType::Timestamp => relative_spec(cell.text, now, o),
        _ => cell.text,
    }
}

pub fn format_cell_value(
    column: &Column,
    cell: &Cell,
    options: &RenderOptions,
    now: u64,
) -> (r: Vec<char>)
    ensures
        r@ == format_value_spec(column@, cell@, *options, now),
{
    let text = chars_of(cell.text.as_str());
    match column.value_type {
        ValueType::Percentage => {
            if options.width < options.breakpoints.core {
                return text;
            }
            match crate::number::gauge_eighths(text.as_slice()) {
                Some(e) => {
                    let mut out = crate::text::copy(text.as_slice());
                    out.push(' ');
                    push_gauge(&mut out, e, 8);
                    if options.width >= options.breakpoints.wide && cell.trend.len() > 0 {
                        out.push(' ');
                        sparkline(&mut out, &cell.trend);
                    }
                    out
                },
                None => text,
            }
        },
        ValueType::Timestamp => relative_timestamp(text.as_slice(), now, options),
        _ => text,
    }
}

// ---------------------------------------------------------------------------
// Layout
// ---------------------------------------------------------------------------

/// The first column of least priority number (the most important one),
/// scanning from `i` with `b` the best so far.
pub open spec fn primary_from(cols: Seq<ColumnV>, i: int, b: int) -> int
    decreases cols.len() - i,
{
    if i < 0 || i >= cols.len() {
        b
    } else if cols[i].priority < cols[b].priority {
        primary_from(cols, i + 1, i)
    } else {
        primary_from(cols, i + 1, b)
    }
}

pub open spec fn primary_of(cols: Seq<ColumnV>) -> int {
    primary_from(cols, 1, 0)
}

proof fn lemma_primary_from(cols: Seq<ColumnV>, i: int, b: int)
    requires
        0 <= b < cols.len(),
        0 <= i,
        b < i,
        forall|j: int| 0 <= j < i && j < cols.len() ==> cols[b].priority <= #[trigger] cols[j].priority,
    ensures
        0 <= primary_from(cols, i, b) < cols.len(),
        forall|j: int| 0 <= j < cols.len() ==> cols[primary_from(cols, i, b)].priority <= #[trigger] cols[j].priority,
    decreases cols.len() - i,
{
    if i < cols.len() {
        if cols[i].priority < cols[b].priority {
            lemma_primary_from(cols, i + 1, i);
        } else {
            lemma_primary_from(cols, i + 1, b);
        }
    }
}

/// The most important column is a column of the table, and no column is
/// more important.
pub proof fn lemma_primary_is_most_important(cols: Seq<ColumnV>)
    requires
        cols.len() > 0,
    ensures
        0 <= primary_of(cols) < cols.len(),
        forall|j: int| 0 <= j < cols.len() ==> cols[primary_of(cols)].priority <= #[trigger] cols[j].priority,
{
    lemma_primary_from(cols, 1, 0);
}

/// The columns of priority 0 or 1 among the first `n`, in order.
pub open spec fn core_indices(cols: Seq<ColumnV>, n: int) -> Seq<usize>
    decreases n,
{
    if n <= 0 {
        seq![]
    } else if cols[n - 1].priority <= 1 {
        core_indices(cols, n - 1).push((n - 1) as usize)
    } else {
        core_indices(cols, n - 1)
    }
}

/// The columns chosen for a width: the most important below `compact`, the
/// core ones below `core`, all of them otherwise (the most important when
/// none qualifies).
pub open spec fn initial_selection(cols: Seq<ColumnV>, o: RenderOptions) -> Seq<usize> {
    let chosen = if o.width < o.breakpoints.compact {
        seq![primary_of(cols) as usize]
    } else if o.width < o.breakpoints.core {
        core_indices(cols, cols.len() as int)
    } else {
        Seq::new(cols.len(), |i: int| i as usize)
    };
    if chosen.len() == 0 {
        seq![primary_of(cols) as usize]
    } else {
        chosen
    }
}

pub open spec fn padding_of(o: RenderOptions) -> nat {
    if o.border_style == BorderStyle::Borderless {
        1
    } else if o.width > o.breakpoints.wide {
        2
    } else {
        1
    }
}

/// The columns that borders and padding take for `n` columns.
pub open spec fn overhead_of(n: nat, padding: nat, border: BorderStyle) -> nat {
    if border == BorderStyle::Borderless {
        if n > 0 {
            ((n - 1) * padding) as nat
        } else {
            0
        }
    } else {
        n * (padding * 2 + 1) + 1
    }
}

/// The narrowest a table of `n` columns can be: three cells per column plus
/// borders and padding.
pub open spec fn minimum_total(n: nat, padding: nat, border: BorderStyle) -> nat {
    n * 3 + overhead_of(n, padding, border)
}

/// The position, from `i` on, of the least important selected column (the
/// last one among equals); `b` is the worst so far.
pub open spec fn worst_from(cols: Seq<ColumnV>, sel: Seq<usize>, i: int, b: int) -> int
    decreases sel.len() - i,
{
    if i < 0 || i >= sel.len() {
        b
    } else if cols[sel[i] as int].priority >= cols[sel[b] as int].priority {
        worst_from(cols, sel, i + 1, i)
    } else {
        worst_from(cols, sel, i + 1, b)
    }
}

pub proof fn lemma_worst_in_range(cols: Seq<ColumnV>, sel: Seq<usize>, i: int, b: int)
    requires
        0 <= b < sel.len(),
        0 <= i,
    ensures
        0 <= worst_from(cols, sel, i, b) < sel.len(),
    decreases sel.len() - i,
{
    if i < sel.len() {
        if cols[sel[i] as int].priority >= cols[sel[b] as int].priority {
            lemma_worst_in_range(cols, sel, i + 1, i);
        } else {
            lemma_worst_in_range(cols, sel, i + 1, b);
        }
    }
}

/// Drops the least important columns until the narrowest table fits.
pub open spec fn drop_to_fit(cols: Seq<ColumnV>, sel: Seq<usize>, padding: nat, width: nat, border: BorderStyle) -> Seq<
    usize,
>
    decreases sel.len(),
{
    if sel.len() > 1 && minimum_total(sel.len(), padding, border) > width {
        proof {
            lemma_worst_in_range(cols, sel, 1, 0);
        }
        drop_to_fit(cols, sel.remove(worst_from(cols, sel, 1, 0)), padding, width, border)
    } else {
        sel
    }
}

/// The widest shown value of column `k` among the first `n` rows.
pub open spec fn rows_width(t: TableV, k: int, n: int, o: RenderOptions, now: u64) -> nat
    decreases n,
{
    if n <= 0 {
        0
    } else {
        let rest = rows_width(t, k, n - 1, o, now);
        if 0 <= k < t.rows[n - 1].len() {
            let w = text_width(format_value_spec(t.columns[k], t.rows[n - 1][k], o, now)) as nat;
            if w > rest {
                w
            } else {
                rest
            }
        } else {
            rest
        }
    }
}

/// The width a column would like: its widest value or its label, at least 1.
pub open spec fn natural_width(t: TableV, k: int, o: RenderOptions, now: u64) -> nat {
    let r = rows_width(t, k, t.rows.len() as int, o, now);
    let l = text_width(t.columns[k].label) as nat;
    let m = if r > l {
        r
    } else {
        l
    };
    if m > 1 {
        m
    } else {
        1
    }
}

pub open spec fn wsum(ws: Seq<usize>) -> int
    decreases ws.len(),
{
    if ws.len() == 0 {
        0
    } else {
        wsum(ws.drop_last()) + ws.last()
    }
}

/// The last position, from `i` on, of the largest width above 1 (`b` is the
/// best so far, negative for none).
pub open spec fn largest_from(ws: Seq<usize>, i: int, b: int) -> int
    decreases ws.len() - i,
{
    if i < 0 || i >= ws.len() {
        b
    } else if ws[i] > 1 && (b < 0 || ws[i] >= ws[b]) {
        largest_from(ws, i + 1, i)
    } else {
        largest_from(ws, i + 1, b)
    }
}

pub proof fn lemma_largest_in_range(ws: Seq<usize>, i: int, b: int)
    requires
        0 <= i,
        b < ws.len(),
        b >= 0 ==> ws[b] > 1,
    ensures
        largest_from(ws, i, b) < ws.len(),
        largest_from(ws, i, b) >= 0 ==> ws[largest_from(ws, i, b)] > 1,
        b >= 0 ==> largest_from(ws, i, b) >= 0,
    decreases ws.len() - i,
{
    if i < ws.len() {
        if ws[i] > 1 && (b < 0 || ws[i] >= ws[b]) {
            lemma_largest_in_range(ws, i + 1, i);
        } else {
            lemma_largest_in_range(ws, i + 1, b);
        }
    }
}

pub proof fn lemma_wsum_update(ws: Seq<usize>, j: int, v: usize)
    requires
        0 <= j < ws.len(),
    ensures
        wsum(ws.update(j, v)) == wsum(ws) - ws[j] + v,
    decreases ws.len(),
{
    if j < ws.len() - 1 {
        assert(ws.update(j, v).drop_last() =~= ws.drop_last().update(j, v));
        lemma_wsum_update(ws.drop_last(), j, v);
    } else {
        assert(ws.update(j, v).drop_last() =~= ws.drop_last());
    }
}

pub proof fn lemma_wsum_nonneg(ws: Seq<usize>)
    ensures
        wsum(ws) >= 0,
    decreases ws.len(),
{
    if ws.len() > 0 {
        lemma_wsum_nonneg(ws.drop_last());
    }
}

/// Narrows the largest column (the last among equals) one cell at a time
/// until the widths fit in `available` or every column is down to 1.
pub open spec fn shrink(ws: Seq<usize>, available: int) -> Seq<usize>
    decreases wsum(ws),
{
    if wsum(ws) <= available {
        ws
    } else {
        let j = largest_from(ws, 0, -1);
        if j < 0 {
            ws
        } else {
            proof {
                lemma_largest_in_range(ws, 0, -1);
                lemma_wsum_update(ws, j, (ws[j] - 1) as usize);
                lemma_wsum_nonneg(ws.update(j, (ws[j] - 1) as usize));
            }
            shrink(ws.update(j, (ws[j] - 1) as usize), available)
        }
    }
}

/// The space left for cells once borders and padding are taken, but at least
/// one cell per column.
pub open spec fn available_of(n: nat, padding: nat, o: RenderOptions) -> int {
    let rest: int = o.width - overhead_of(n, padding, o.border_style);
    if rest > n {
        rest
    } else {
        n as int
    }
}

pub open spec fn widths_spec(
    t: TableV,
    sel: Seq<usize>,
    padding: nat,
    o: RenderOptions,
    now: u64,
) -> Seq<usize> {
    shrink(
        sel.map_values(|k: usize| natural_width(t, k as int, o, now) as usize),
        available_of(sel.len(), padding, o),
    )
}

/// The columns shown, their widths and the padding.
pub open spec fn layout_spec(t: TableV, o: RenderOptions, now: u64) -> (
    Seq<usize>,
    Seq<usize>,
    nat,
) {
    if t.columns.len() == 0 {
        (seq![], seq![], 1)
    } else {
        let p = padding_of(o);
        let sel = drop_to_fit(t.columns, initial_selection(t.columns, o), p, o.width as nat, o.border_style);
        (sel, widths_spec(t, sel, p, o, now), p)
    }
}


proof fn lemma_largest_none(ws: Seq<usize>, i: int)
    requires
        0 <= i,
        largest_from(ws, i, -1) < 0,
    ensures
        forall|j: int| i <= j < ws.len() ==> ws[j] <= 1,
    decreases ws.len() - i,
{
    if i < ws.len() {
        if ws[i] > 1 {
            lemma_largest_in_range(ws, i + 1, i);
        } else {
            lemma_largest_none(ws, i + 1);
        }
    }
}

proof fn lemma_wsum_at_most_len(ws: Seq<usize>)
    requires
        forall|j: int| 0 <= j < ws.len() ==> ws[j] <= 1,
    ensures
        wsum(ws) <= ws.len(),
    decreases ws.len(),
{
    if ws.len() > 0 {
        lemma_wsum_at_most_len(ws.drop_last());
    }
}

/// Narrowing keeps every column at one cell or more, never widens one, and
/// fits the widths in the space given whenever that space holds one cell per
/// column.
pub proof fn lemma_shrink_fits(ws: Seq<usize>, available: int)
    requires
        forall|i: int| 0 <= i < ws.len() ==> ws[i] >= 1,
        available >= ws.len(),
    ensures
        shrink(ws, available).len() == ws.len(),
        forall|i: int| 0 <= i < ws.len() ==> 1 <= #[trigger] shrink(ws, available)[i] <= ws[i],
        wsum(shrink(ws, available)) <= available,
    decreases wsum(ws),
{
    if wsum(ws) > available {
        let j = largest_from(ws, 0, -1);
        if j < 0 {
            lemma_largest_none(ws, 0);
            lemma_wsum_at_most_len(ws);
        } else {
            lemma_largest_in_range(ws, 0, -1);
            let next = ws.update(j, (ws[j] - 1) as usize);
            lemma_wsum_update(ws, j, (ws[j] - 1) as usize);
            lemma_wsum_nonneg(next);
            lemma_shrink_fits(next, available);
            assert forall|i: int| 0 <= i < ws.len() implies 1 <= #[trigger] shrink(ws, available)[i] <= ws[i] by {
                assert(shrink(ws, available)[i] == shrink(next, available)[i]);
            }
        }
    }
}

proof fn lemma_drop_to_fit(cols: Seq<ColumnV>, sel: Seq<usize>, padding: nat, width: nat, border: BorderStyle)
    requires
        sel.len() >= 1,
    ensures
        drop_to_fit(cols, sel, padding, width, border).len() >= 1,
        drop_to_fit(cols, sel, padding, width, border).len() == 1 || minimum_total(
            drop_to_fit(cols, sel, padding, width, border).len(),
            padding,
            border,
        ) <= width,
    decreases sel.len(),
{
    if sel.len() > 1 && minimum_total(sel.len(), padding, border) > width {
        lemma_worst_in_range(cols, sel, 1, 0);
        lemma_drop_to_fit(cols, sel.remove(worst_from(cols, sel, 1, 0)), padding, width, border);
    }
}

proof fn lemma_rows_width_bounded(t: TableV, k: int, n: int, o: RenderOptions, now: u64)
    ensures
        rows_width(t, k, n, o, now) <= usize::MAX,
    decreases n,
{
    if n > 0 {
        lemma_rows_width_bounded(t, k, n - 1, o, now);
    }
}

/// At any width that leaves room for one cell of one column beside the
/// borders and padding, the layout fits: every shown column keeps at least
/// one cell, and the cell widths together with borders and padding never
/// exceed the width asked for.
pub proof fn lemma_layout_fits_width(t: TableV, o: RenderOptions, now: u64)
    requires
        t.columns.len() > 0,
        o.width >= overhead_of(1, padding_of(o), o.border_style) + 1,
    ensures
        ({
            let (sel, ws, p) = layout_spec(t, o, now);
            &&& sel.len() >= 1
            &&& ws.len() == sel.len()
            &&& forall|i: int| 0 <= i < ws.len() ==> #[trigger] ws[i] >= 1
            &&& wsum(ws) + overhead_of(sel.len(), p, o.border_style) <= o.width
        }),
{
    let p = padding_of(o);
    let init = initial_selection(t.columns, o);
    let sel = drop_to_fit(t.columns, init, p, o.width as nat, o.border_style);
    lemma_drop_to_fit(t.columns, init, p, o.width as nat, o.border_style);
    let natural = sel.map_values(|k: usize| natural_width(t, k as int, o, now) as usize);
    assert forall|i: int| 0 <= i < natural.len() implies natural[i] >= 1 by {
        lemma_rows_width_bounded(t, sel[i] as int, t.rows.len() as int, o, now);
    }
    let n = sel.len();
    if n == 1 {
        assert(overhead_of(1, p, o.border_style) == overhead_of(n, p, o.border_style));
    } else {
        assert(n * 3 >= n) by (nonlinear_arith);
    }
    lemma_shrink_fits(natural, available_of(n, p, o));
}

proof fn lemma_core_indices_below(cols: Seq<ColumnV>, n: int)
    requires
        0 <= n <= cols.len(),
    ensures
        forall|i: int| 0 <= i < core_indices(cols, n).len() ==> #[trigger] core_indices(cols, n)[i] < n,
    decreases n,
{
    if n > 0 {
        lemma_core_indices_below(cols, n - 1);
        let before = core_indices(cols, n - 1);
        let now_ = core_indices(cols, n);
        assert forall|i: int| 0 <= i < now_.len() implies #[trigger] now_[i] < n by {
            if i < before.len() {
                assert(now_[i] == before[i]);
            }
        }
    }
}

proof fn lemma_drop_keeps_below(
    cols: Seq<ColumnV>,
    sel: Seq<usize>,
    padding: nat,
    width: nat,
    border: BorderStyle,
    m: int,
)
    requires
        forall|i: int| 0 <= i < sel.len() ==> #[trigger] sel[i] < m,
    ensures
        forall|i: int|
            0 <= i < drop_to_fit(cols, sel, padding, width, border).len() ==> #[trigger] drop_to_fit(
                cols,
                sel,
                padding,
                width,
                border,
            )[i] < m,
    decreases sel.len(),
{
    if sel.len() > 1 && minimum_total(sel.len(), padding, border) > width {
        lemma_worst_in_range(cols, sel, 1, 0);
        let j = worst_from(cols, sel, 1, 0);
        let next = sel.remove(j);
        assert forall|i: int| 0 <= i < next.len() implies #[trigger] next[i] < m by {
            if i < j {
                assert(next[i] == sel[i]);
            } else {
                assert(next[i] == sel[i + 1]);
            }
        }
        lemma_drop_keeps_below(cols, next, padding, width, border, m);
        assert(drop_to_fit(cols, sel, padding, width, border) == drop_to_fit(cols, next, padding, width, border));
    }
}

/// The layout of a table with columns shows at least one column, each a
/// column of the table, at a width of at least one cell.
pub proof fn lemma_layout_shape(t: TableV, o: RenderOptions, now: u64)
    requires
        t.columns.len() > 0,
    ensures
        ({
            let (sel, ws, p) = layout_spec(t, o, now);
            &&& sel.len() >= 1
            &&& ws.len() == sel.len()
            &&& p == padding_of(o)
            &&& forall|i: int| 0 <= i < sel.len() ==> #[trigger] sel[i] < t.columns.len()
            &&& forall|i: int| 0 <= i < ws.len() ==> #[trigger] ws[i] >= 1
            &&& wsum(ws) <= available_of(sel.len(), p, o)
        }),
{
    let p = padding_of(o);
    let cols = t.columns;
    let init = initial_selection(cols, o);
    lemma_primary_is_most_important(cols);
    lemma_core_indices_below(cols, cols.len() as int);
    assert forall|i: int| 0 <= i < init.len() implies #[trigger] init[i] < cols.len() by {}
    let sel = drop_to_fit(cols, init, p, o.width as nat, o.border_style);
    lemma_drop_to_fit(cols, init, p, o.width as nat, o.border_style);
    lemma_drop_keeps_below(cols, init, p, o.width as nat, o.border_style, cols.len() as int);
    let natural = sel.map_values(|k: usize| natural_width(t, k as int, o, now) as usize);
    assert forall|i: int| 0 <= i < natural.len() implies natural[i] >= 1 by {
        lemma_rows_width_bounded(t, sel[i] as int, t.rows.len() as int, o, now);
    }
    lemma_shrink_fits(natural, available_of(sel.len(), p, o));
}

/// Drawn one line per row at any width of at least one column, a table's
/// cells and the gaps between them fit the width.
pub proof fn lemma_line_layout_fits(t: TableV, o: RenderOptions, now: u64)
    requires
        t.columns.len() > 0,
        uses_lines(o),
        o.width >= 1,
    ensures
        ({
            let (sel, ws, p) = layout_spec(t, o, now);
            wsum(ws) + (sel.len() - 1) * p <= o.width
        }),
{
    let (sel, ws, p) = layout_spec(t, o, now);
    lemma_layout_shape(t, o, now);
    let n = sel.len();
    if o.border_style == BorderStyle::Borderless {
        lemma_layout_fits_width(t, o, now);
        assert(overhead_of(n, p, o.border_style) == (n - 1) * p);
    } else if o.width >= overhead_of(1, p, o.border_style) + 1 {
        lemma_layout_fits_width(t, o, now);
        assert(n * (p * 2 + 1) + 1 >= (n - 1) * p) by (nonlinear_arith)
            requires
                n >= 1,
        ;
    } else {
        lemma_drop_to_fit(t.columns, initial_selection(t.columns, o), p, o.width as nat, o.border_style);
        assert(n * (p * 2 + 1) + 1 + n * 3 >= 7 || n == 0) by (nonlinear_arith)
            requires
                p >= 1,
        ;
        assert(n == 1);
        assert(wsum(ws) <= o.width);
        assert((sel.len() - 1) * p == 0) by (nonlinear_arith)
            requires
                sel.len() == 1,
        ;
    }
}

/// Below the compact breakpoint a table shows one column: the most
/// important one.
pub proof fn lemma_compact_shows_primary(t: TableV, o: RenderOptions, now: u64)
    requires
        t.columns.len() > 0,
        o.width < o.breakpoints.compact,
    ensures
        layout_spec(t, o, now).0 == seq![primary_of(t.columns) as usize],
        forall|j: int|
            0 <= j < t.columns.len() ==> t.columns[primary_of(t.columns)].priority <= #[trigger] t.columns[j].priority,
{
    lemma_primary_is_most_important(t.columns);
}

fn primary_index(table: &Table) -> (r: usize)
    requires
        table.columns.len() > 0,
    ensures
        r as int == primary_of(table@.columns),
        r < table.columns.len(),
{
    let ghost cols = table@.columns;
    let mut b: usize = 0;
    let mut i: usize = 1;
    while i < table.columns.len()
        invariant
            1 <= i <= table.columns.len(),
            b < i,
            cols == table@.columns,
            primary_from(cols, i as int, b as int) == primary_of(cols),
        decreases table.columns.len() - i,
    {
        if table.columns[i].priority < table.columns[b].priority {
            b = i;
        }
        i += 1;
    }
    b
}

fn core_selection(table: &Table) -> (r: Vec<usize>)
    ensures
        r@ == core_indices(table@.columns, table.columns.len() as int),
        forall|i: int| 0 <= i < r.len() ==> (#[trigger] r@[i]) < table.columns.len(),
{
    let ghost cols = table@.columns;
    let mut r: Vec<usize> = Vec::new();
    let mut i: usize = 0;
    while i < table.columns.len()
        invariant
            i <= table.columns.len(),
            cols == table@.columns,
            r@ == core_indices(cols, i as int),
            forall|j: int| 0 <= j < r.len() ==> (#[trigger] r@[j]) < i,
        decreases table.columns.len() - i,
    {
        if table.columns[i].priority <= 1 {
            r.push(i);
        }
        i += 1;
    }
    r
}

fn all_positions(n: usize) -> (r: Vec<usize>)
    ensures
        r@ == Seq::new(n as nat, |i: int| i as usize),
{
    let mut r: Vec<usize> = Vec::new();
    let mut i: usize = 0;
    while i < n
        invariant
            i <= n,
            r@ =~= Seq::new(i as nat, |j: int| j as usize),
        decreases n - i,
    {
        r.push(i);
        i += 1;
        assert(r@ =~= Seq::new(i as nat, |j: int| j as usize));
    }
    r
}

fn initial_columns(table: &Table, options: &RenderOptions) -> (r: Vec<usize>)
    requires
        table.columns.len() > 0,
    ensures
        r@ == initial_selection(table@.columns, *options),
        forall|i: int| 0 <= i < r.len() ==> (#[trigger] r@[i]) < table.columns.len(),
{
    let primary = primary_index(table);
    let mut chosen = if options.width < options.breakpoints.compact {
        vec![primary]
    } else if options.width < options.breakpoints.core {
        core_selection(table)
    } else {
        all_positions(table.columns.len())
    };
    if chosen.len() == 0 {
        chosen.push(primary);
    }
    assert(seq![primary] =~= seq![primary_of(table@.columns) as usize]);
    chosen
}

pub(crate) fn padding_for(options: &RenderOptions) -> (r: usize)
    ensures
        r as nat == padding_of(*options),
        r == 1 || r == 2,
{
    if options.border_style == BorderStyle::Borderless {
        1
    } else if options.width > options.breakpoints.wide {
        2
    } else {
        1
    }
}

pub(crate) fn overhead_for(n: usize, padding: usize, border: BorderStyle) -> (r: u128)
    requires
        padding == 1 || padding == 2,
    ensures
        r as int == overhead_of(n as nat, padding as nat, border),
        r <= (n as int) * 5 + 1,
{
    let m = n as u128;
    if border == BorderStyle::Borderless {
        if n > 0 {
            if padding == 1 {
                m - 1
            } else {
                (m - 1) * 2
            }
        } else {
            0
        }
    } else if padding == 1 {
        m * 3 + 1
    } else {
        m * 5 + 1
    }
}

fn minimum_total_for(n: usize, padding: usize, border: BorderStyle) -> (r: u128)
    requires
        padding == 1 || padding == 2,
    ensures
        r as int == minimum_total(n as nat, padding as nat, border),
{
    let o = overhead_for(n, padding, border);
    (n as u128) * 3 + o
}

fn worst_position(table: &Table, sel: &Vec<usize>) -> (r: usize)
    requires
        sel.len() > 0,
        forall|i: int| 0 <= i < sel.len() ==> (#[trigger] sel@[i]) < table.columns.len(),
    ensures
        r as int == worst_from(table@.columns, sel@, 1, 0),
        r < sel.len(),
{
    let ghost cols = table@.columns;
    let mut b: usize = 0;
    let mut i: usize = 1;
    while i < sel.len()
        invariant
            1 <= i <= sel.len(),
            b < i,
            cols == table@.columns,
            forall|j: int| 0 <= j < sel.len() ==> (#[trigger] sel@[j]) < table.columns.len(),
            worst_from(cols, sel@, i as int, b as int) == worst_from(cols, sel@, 1, 0),
        decreases sel.len() - i,
    {
        if table.columns[sel[i]].priority >= table.columns[sel[b]].priority {
            b = i;
        }
        i += 1;
    }
    b
}

fn drop_columns_to_fit(table: &Table, selected: Vec<usize>, padding: usize, width: usize, border: BorderStyle) -> (r:
    Vec<usize>)
    requires
        padding == 1 || padding == 2,
        forall|i: int| 0 <= i < selected.len() ==> (#[trigger] selected@[i]) < table.columns.len(),
    ensures
        r@ == drop_to_fit(table@.columns, selected@, padding as nat, width as nat, border),
        forall|i: int| 0 <= i < r.len() ==> (#[trigger] r@[i]) < table.columns.len(),
{
    let ghost cols = table@.columns;
    let mut sel = selected;
    let ghost target = drop_to_fit(cols, sel@, padding as nat, width as nat, border);
    while sel.len() > 1 && minimum_total_for(sel.len(), padding, border) > width as u128
        invariant
            padding == 1 || padding == 2,
            cols == table@.columns,
            forall|i: int| 0 <= i < sel.len() ==> (#[trigger] sel@[i]) < table.columns.len(),
            drop_to_fit(cols, sel@, padding as nat, width as nat, border) == target,
        decreases sel.len(),
    {
        let w = worst_position(table, &sel);
        proof {
            lemma_worst_in_range(cols, sel@, 1, 0);
        }
        let ghost before = sel@;
        sel.remove(w);
        assert(sel@ == before.remove(w as int));
        assert forall|i: int| 0 <= i < sel.len() implies (#[trigger] sel@[i]) < table.columns.len() by {
            if i < w {
                assert(sel@[i] == before[i]);
            } else {
                assert(sel@[i] == before[i + 1]);
            }
        }
    }
    sel
}

fn format_width(table: &Table, k: usize, row: usize, options: &RenderOptions, now: u64) -> (r:
    usize)
    requires
        k < table.columns.len(),
        row < table.rows.len(),
        k < table.rows[row as int].len(),
    ensures
        r == text_width(format_value_spec(table@.columns[k as int], table@.rows[row as int][k as int], *options, now)),
{
    let v = format_cell_value(&table.columns[k], &table.rows[row][k], options, now);
    let s = string_of(v.as_slice());
    display_width(s.as_str())
}

fn natural_width_of(table: &Table, k: usize, options: &RenderOptions, now: u64) -> (r: usize)
    requires
        k < table.columns.len(),
    ensures
        r as nat == natural_width(table@, k as int, *options, now),
{
    let ghost t = table@;
    let mut w: usize = 0;
    let mut i: usize = 0;
    while i < table.rows.len()
        invariant
            i <= table.rows.len(),
            k < table.columns.len(),
            t == table@,
            w as nat == rows_width(t, k as int, i as int, *options, now),
        decreases table.rows.len() - i,
    {
        if k < table.rows[i].len() {
            let d = format_width(table, k, i, options, now);
            if d > w {
                w = d;
            }
        }
        i += 1;
    }
    let l = display_width(table.columns[k].label.as_str());
    let m = if w > l {
        w
    } else {
        l
    };
    if m > 1 {
        m
    } else {
        1
    }
}

fn largest_position(ws: &Vec<usize>) -> (r: Option<usize>)
    ensures
        match r {
            Some(j) => j as int == largest_from(ws@, 0, -1) && j < ws.len(),
            None => largest_from(ws@, 0, -1) < 0,
        },
{
    let mut best: Option<usize> = None;
    let mut i: usize = 0;
    while i < ws.len()
        invariant
            i <= ws.len(),
            best matches Some(b) ==> b < i && ws@[b as int] > 1,
            largest_from(ws@, i as int, match best { Some(b) => b as int, None => -1 }) == largest_from(ws@, 0, -1),
        decreases ws.len() - i,
    {
        let better = match best {
            Some(b) => ws[i] > 1 && ws[i] >= ws[b],
            None => ws[i] > 1,
        };
        if better {
            best = Some(i);
        }
        i += 1;
    }
    best
}

fn total_of(ws: &Vec<usize>) -> (r: u128)
    ensures
        r as int == wsum(ws@),
{
    let mut sum: u128 = 0;
    let mut i: usize = 0;
    while i < ws.len()
        invariant
            i <= ws.len(),
            sum as int == wsum(ws@.take(i as int)),
            sum <= i * (usize::MAX as int),
        decreases ws.len() - i,
    {
        assert(ws@.take(i + 1).drop_last() =~= ws@.take(i as int));
        assert((i + 1) * (usize::MAX as int) == i * (usize::MAX as int) + usize::MAX) by (nonlinear_arith);
        assert((i + 1) * (usize::MAX as int) <= (usize::MAX as int) * (usize::MAX as int)) by (nonlinear_arith)
            requires
                i < usize::MAX,
        ;
        assert((usize::MAX as int) * (usize::MAX as int) < u128::MAX) by (nonlinear_arith)
            requires
                usize::MAX < 0x1_0000_0000_0000_0000int,
        ;
        sum = sum + ws[i] as u128;
        i += 1;
    }
    assert(ws@.take(ws.len() as int) =~= ws@);
    sum
}

fn fitted_widths(
    table: &Table,
    sel: &Vec<usize>,
    padding: usize,
    options: &RenderOptions,
    now: u64,
) -> (r: Vec<usize>)
    requires
        padding == 1 || padding == 2,
        forall|i: int| 0 <= i < sel.len() ==> (#[trigger] sel@[i]) < table.columns.len(),
    ensures
        r@ == widths_spec(table@, sel@, padding as nat, *options, now),
        r.len() == sel.len(),
{
    let ghost t = table@;
    let ghost natural = sel@.map_values(|k: usize| natural_width(t, k as int, *options, now) as usize);
    let mut ws: Vec<usize> = Vec::new();
    let mut i: usize = 0;
    while i < sel.len()
        invariant
            i <= sel.len(),
            t == table@,
            natural == sel@.map_values(|k: usize| natural_width(t, k as int, *options, now) as usize),
            forall|j: int| 0 <= j < sel.len() ==> (#[trigger] sel@[j]) < table.columns.len(),
            ws.len() == i,
            forall|j: int| 0 <= j < i ==> ws@[j] == natural[j],
        decreases sel.len() - i,
    {
        let w = natural_width_of(table, sel[i], options, now);
        ws.push(w);
        i += 1;
    }
    assert(ws@ =~= natural);
    let n = sel.len();
    let over = overhead_for(n, padding, options.border_style);
    let avail: usize = if (options.width as u128) > over && (options.width as u128) - over > n as u128 {
        ((options.width as u128) - over) as usize
    } else {
        n
    };
    let ghost available = available_of(n as nat, padding as nat, *options);
    assert(avail as int == available);
    let mut sum = total_of(&ws);
    let mut done = false;
    while !done && sum > avail as u128
        invariant
            sum as int == wsum(ws@),
            shrink(ws@, available) == shrink(natural, available),
            avail as int == available,
            ws.len() == sel.len(),
            done ==> shrink(ws@, available) == ws@,
        decreases sum, (if done { 0int } else { 1int }),
    {
        match largest_position(&ws) {
            None => {
                done = true;
            },
            Some(j) => {
                proof {
                    lemma_largest_in_range(ws@, 0, -1);
                    lemma_wsum_update(ws@, j as int, (ws@[j as int] - 1) as usize);
                }
                let v = ws[j] - 1;
                ws.set(j, v);
                sum = sum - 1;
            },
        }
    }
    ws
}

/// The columns a table shows at a width, their cell widths and the padding
/// around each cell.
#[derive(Debug)]
pub struct TableLayout {
    pub selected: Vec<usize>,
    pub widths: Vec<usize>,
    pub padding: usize,
}

pub fn table_layout(table: &Table, options: &RenderOptions, now: u64) -> (r: TableLayout)
    ensures
        (r.selected@, r.widths@, r.padding as nat) == layout_spec(table@, *options, now),
        r.widths.len() == r.selected.len(),
        table.columns.len() > 0 ==> r.selected.len() > 0,
        forall|i: int| 0 <= i < r.selected.len() ==> (#[trigger] r.selected@[i]) < table.columns.len(),
{
    if table.columns.len() == 0 {
        return TableLayout { selected: Vec::new(), widths: Vec::new(), padding: 1 };
    }
    let initial = initial_columns(table, options);
    let padding = padding_for(options);
    let selected = drop_columns_to_fit(table, initial, padding, options.width, options.border_style);
    proof {
        lemma_drop_to_fit(table@.columns, initial@, padding as nat, options.width as nat, options.border_style);
    }
    let widths = fitted_widths(table, &selected, padding, options, now);
    TableLayout { selected, widths, padding }
}


// ---------------------------------------------------------------------------
// Tables
// ---------------------------------------------------------------------------

/// The horizontal runs of a border rule for the first `n` columns.
pub open spec fn rule_cells(ws: Seq<usize>, padding: nat, join: char, h: char, n: int) -> Seq<char>
    decreases n,
{
    if n <= 0 {
        seq![]
    } else {
        rule_cells(ws, padding, join, h, n - 1) + (if n > 1 {
            seq![join]
        } else {
            seq![]
        }) + repeat_char(h, (ws[n - 1] + padding * 2) as nat)
    }
}

/// A border rule: its corner glyphs around one run per column, muted.
pub open spec fn rule_spec(
    ws: Seq<usize>,
    padding: nat,
    left: char,
    join: char,
    right: char,
    h: char,
    o: RenderOptions,
) -> Seq<char> {
    paint_spec(seq![left] + rule_cells(ws, padding, join, h, ws.len() as int) + seq![right], Style::Muted, o) + seq![
        '\n',
    ]
}

fn render_border_rule(
    out: &mut Vec<char>,
    widths: &Vec<usize>,
    padding: usize,
    left: char,
    join: char,
    right: char,
    horizontal: char,
    options: &RenderOptions,
)
    ensures
        final(out)@ == old(out)@ + rule_spec(widths@, padding as nat, left, join, right, horizontal, *options),
{
    let mut line: Vec<char> = Vec::new();
    line.push(left);
    let mut i: usize = 0;
    while i < widths.len()
        invariant
            i <= widths.len(),
            line@ == seq![left] + rule_cells(widths@, padding as nat, join, horizontal, i as int),
        decreases widths.len() - i,
    {
        let ghost before = line@;
        if i > 0 {
            line.push(join);
        }
        push_repeat(&mut line, horizontal, widths[i]);
        push_repeat(&mut line, horizontal, padding);
        push_repeat(&mut line, horizontal, padding);
        proof {
            let n = widths@[i as int] as nat;
            assert(repeat_char(horizontal, n) + repeat_char(horizontal, padding as nat) + repeat_char(
                horizontal,
                padding as nat,
            ) =~= repeat_char(horizontal, (widths@[i as int] + padding * 2) as nat));
            assert(line@ =~= seq![left] + rule_cells(widths@, padding as nat, join, horizontal, i + 1));
        }
        i += 1;
    }
    line.push(right);
    assert(line@ =~= seq![left] + rule_cells(widths@, padding as nat, join, horizontal, widths@.len() as int)
        + seq![right]);
    let ghost start = out@;
    paint(out, line.as_slice(), Style::Muted, options);
    out.push('\n');
    assert(out@ =~= start + rule_spec(widths@, padding as nat, left, join, right, horizontal, *options));
}

/// A cell showing a column's label.
pub open spec fn label_cell(column: ColumnV, style: Style) -> CellV {
    cell_v(column.label, style)
}

/// The cell a bordered row shows for column `k`: the label in the header,
/// else the row's cell, or an empty one where the row is short.
pub open spec fn bordered_cell_at(t: TableV, header: bool, row: Seq<CellV>, k: int) -> CellV {
    if header {
        label_cell(t.columns[k], Style::Accent)
    } else if 0 <= k < row.len() {
        row[k]
    } else {
        cell_v(seq![], Style::Plain)
    }
}

/// One cell of a bordered row with the padding and the border after it.
pub open spec fn bordered_piece(
    column: ColumnV,
    cell: CellV,
    w: nat,
    padding: nat,
    vertical: char,
    o: RenderOptions,
    now: u64,
) -> Seq<char> {
    let v = truncate_spec(format_value_spec(column, cell, o, now), w);
    spaces(padding) + paint_typed_spec(pad_spec(v, w, column.alignment), cell, column, o) + spaces(padding)
        + paint_spec(seq![vertical], Style::Muted, o)
}

pub open spec fn bordered_cells(
    t: TableV,
    sel: Seq<usize>,
    ws: Seq<usize>,
    padding: nat,
    vertical: char,
    header: bool,
    row: Seq<CellV>,
    o: RenderOptions,
    now: u64,
    n: int,
) -> Seq<char>
    decreases n,
{
    if n <= 0 {
        seq![]
    } else {
        let k = sel[n - 1] as int;
        bordered_cells(t, sel, ws, padding, vertical, header, row, o, now, n - 1) + bordered_piece(
            t.columns[k],
            bordered_cell_at(t, header, row, k),
            ws[n - 1] as nat,
            padding,
            vertical,
            o,
            now,
        )
    }
}

/// A row between vertical borders.
pub open spec fn bordered_row_spec(
    t: TableV,
    sel: Seq<usize>,
    ws: Seq<usize>,
    padding: nat,
    vertical: char,
    header: bool,
    row: Seq<CellV>,
    o: RenderOptions,
    now: u64,
) -> Seq<char> {
    paint_spec(seq![vertical], Style::Muted, o) + bordered_cells(
        t,
        sel,
        ws,
        padding,
        vertical,
        header,
        row,
        o,
        now,
        sel.len() as int,
    ) + seq!['\n']
}

fn push_spaces(out: &mut Vec<char>, n: usize)
    ensures
        final(out)@ == old(out)@ + spaces(n as nat),
{
    push_repeat(out, ' ', n);
    assert(repeat_char(' ', n as nat) =~= spaces(n as nat));
}

fn push_bordered_piece(
    out: &mut Vec<char>,
    column: &Column,
    cell: &Cell,
    w: usize,
    padding: usize,
    vertical: char,
    options: &RenderOptions,
    now: u64,
)
    ensures
        final(out)@ == old(out)@ + bordered_piece(
            column@,
            cell@,
            w as nat,
            padding as nat,
            vertical,
            *options,
            now,
        ),
{
    let ghost start = out@;
    push_spaces(out, padding);
    let value = format_cell_value(column, cell, options, now);
    let value = truncate(value.as_slice(), w);
    let padded = pad(value.as_slice(), w, column.alignment);
    paint_typed_cell(out, padded.as_slice(), cell, column, options);
    push_spaces(out, padding);
    let v = vec![vertical];
    paint(out, v.as_slice(), Style::Muted, options);
    assert(v@ =~= seq![vertical]);
    assert(out@ =~= start + bordered_piece(
        column@,
        cell@,
        w as nat,
        padding as nat,
        vertical,
        *options,
        now,
    ));
}

fn render_bordered_row(
    out: &mut Vec<char>,
    table: &Table,
    selected: &Vec<usize>,
    widths: &Vec<usize>,
    padding: usize,
    vertical: char,
    header: bool,
    row: Option<&Vec<Cell>>,
    options: &RenderOptions,
    now: u64,
)
    requires
        widths.len() == selected.len(),
        forall|i: int| 0 <= i < selected.len() ==> (#[trigger] selected@[i]) < table.columns.len(),
        !header ==> row.is_some(),
    ensures
        final(out)@ == old(out)@ + bordered_row_spec(
            table@,
            selected@,
            widths@,
            padding as nat,
            vertical,
            header,
            match row {
                Some(r) => row_view(*r),
                None => seq![],
            },
            *options,
            now,
        ),
{
    let ghost start = out@;
    let ghost rv = match row {
        Some(r) => row_view(*r),
        None => seq![],
    };
    let ghost t = table@;
    let v = vec![vertical];
    paint(out, v.as_slice(), Style::Muted, options);
    assert(v@ =~= seq![vertical]);
    let ghost first = out@;
    let mut i: usize = 0;
    while i < selected.len()
        invariant
            i <= selected.len(),
            widths.len() == selected.len(),
            forall|j: int| 0 <= j < selected.len() ==> (#[trigger] selected@[j]) < table.columns.len(),
            !header ==> row.is_some(),
            rv == match row {
                Some(r) => row_view(*r),
                None => seq![],
            },
            t == table@,
            out@ == first + bordered_cells(t, selected@, widths@, padding as nat, vertical, header, rv, *options, now, i as int),
        decreases selected.len() - i,
    {
        let k = selected[i];
        if header {
            let label = chars_of(table.columns[k].label.as_str());
            let cell = Cell::from_chars(label.as_slice(), Style::Accent);
            push_bordered_piece(out, &table.columns[k], &cell, widths[i], padding, vertical, options, now);
        } else {
            match row {
                Some(r) => {
                    if k < r.len() {
                        push_bordered_piece(out, &table.columns[k], &r[k], widths[i], padding, vertical, options, now);
                    } else {
                        let empty: Vec<char> = Vec::new();
                        let cell = Cell::from_chars(empty.as_slice(), Style::Plain);
                        assert(empty@ =~= seq![]);
                        push_bordered_piece(out, &table.columns[k], &cell, widths[i], padding, vertical, options, now);
                    }
                },
                None => {},
            }
        }
        i += 1;
    }
    out.push('\n');
    assert(out@ =~= start + bordered_row_spec(t, selected@, widths@, padding as nat, vertical, header, rv, *options, now));
}

/// One cell of a borderless line: the gap before it, then its value, padded
/// unless it is a left-aligned last column.
pub open spec fn line_piece(
    column: ColumnV,
    cell: CellV,
    w: nat,
    padding: nat,
    first: bool,
    last: bool,
    o: RenderOptions,
    now: u64,
) -> Seq<char> {
    let v = truncate_spec(format_value_spec(column, cell, o, now), w);
    let padded = if last && column.alignment == Alignment::Left {
        v
    } else {
        pad_spec(v, w, column.alignment)
    };
    (if first {
        seq![]
    } else {
        spaces(padding)
    }) + paint_typed_spec(padded, cell, column, o)
}

/// The cell a borderless line shows for column `k`: the label, muted, in the
/// header, else the row's cell.
pub open spec fn line_cell_at(t: TableV, header: bool, row: Seq<CellV>, k: int) -> CellV {
    if header {
        label_cell(t.columns[k], Style::Muted)
    } else {
        row[k]
    }
}

pub open spec fn line_cells(
    t: TableV,
    sel: Seq<usize>,
    ws: Seq<usize>,
    padding: nat,
    header: bool,
    row: Seq<CellV>,
    o: RenderOptions,
    now: u64,
    n: int,
) -> Seq<char>
    decreases n,
{
    if n <= 0 {
        seq![]
    } else {
        let k = sel[n - 1] as int;
        line_cells(t, sel, ws, padding, header, row, o, now, n - 1) + line_piece(
            t.columns[k],
            line_cell_at(t, header, row, k),
            ws[n - 1] as nat,
            padding,
            n == 1,
            n == sel.len(),
            o,
            now,
        )
    }
}

pub open spec fn table_line_spec(
    t: TableV,
    sel: Seq<usize>,
    ws: Seq<usize>,
    padding: nat,
    header: bool,
    row: Seq<CellV>,
    o: RenderOptions,
    now: u64,
) -> Seq<char> {
    line_cells(t, sel, ws, padding, header, row, o, now, sel.len() as int) + seq!['\n']
}

fn push_line_piece(
    out: &mut Vec<char>,
    column: &Column,
    cell: &Cell,
    w: usize,
    padding: usize,
    first: bool,
    last: bool,
    options: &RenderOptions,
    now: u64,
)
    ensures
        final(out)@ == old(out)@ + line_piece(
            column@,
            cell@,
            w as nat,
            padding as nat,
            first,
            last,
            *options,
            now,
        ),
{
    let ghost start = out@;
    if !first {
        push_spaces(out, padding);
    }
    let value = format_cell_value(column, cell, options, now);
    let value = truncate(value.as_slice(), w);
    if last && column.alignment == Alignment::Left {
        paint_typed_cell(out, value.as_slice(), cell, column, options);
    } else {
        let padded = pad(value.as_slice(), w, column.alignment);
        paint_typed_cell(out, padded.as_slice(), cell, column, options);
    }
    assert(out@ =~= start + line_piece(
        column@,
        cell@,
        w as nat,
        padding as nat,
        first,
        last,
        *options,
        now,
    ));
}

fn render_table_line(
    out: &mut Vec<char>,
    table: &Table,
    selected: &Vec<usize>,
    widths: &Vec<usize>,
    padding: usize,
    header: bool,
    row: Option<&Vec<Cell>>,
    options: &RenderOptions,
    now: u64,
)
    requires
        widths.len() == selected.len(),
        forall|i: int| 0 <= i < selected.len() ==> (#[trigger] selected@[i]) < table.columns.len(),
        !header ==> (row matches Some(r) && forall|i: int|
            0 <= i < selected.len() ==> (#[trigger] selected@[i]) < r.len()),
    ensures
        final(out)@ == old(out)@ + table_line_spec(
            table@,
            selected@,
            widths@,
            padding as nat,
            header,
            match row {
                Some(r) => row_view(*r),
                None => seq![],
            },
            *options,
            now,
        ),
{
    let ghost start = out@;
    let ghost rv = match row {
        Some(r) => row_view(*r),
        None => seq![],
    };
    let ghost t = table@;
    let mut i: usize = 0;
    while i < selected.len()
        invariant
            i <= selected.len(),
            widths.len() == selected.len(),
            forall|j: int| 0 <= j < selected.len() ==> (#[trigger] selected@[j]) < table.columns.len(),
            !header ==> (row matches Some(r) && forall|j: int|
                0 <= j < selected.len() ==> (#[trigger] selected@[j]) < r.len()),
            rv == match row {
                Some(r) => row_view(*r),
                None => seq![],
            },
            t == table@,
            out@ == start + line_cells(t, selected@, widths@, padding as nat, header, rv, *options, now, i as int),
        decreases selected.len() - i,
    {
        let k = selected[i];
        let first = i == 0;
        let last = i + 1 == selected.len();
        if header {
            let label = chars_of(table.columns[k].label.as_str());
            let cell = Cell::from_chars(label.as_slice(), Style::Muted);
            push_line_piece(out, &table.columns[k], &cell, widths[i], padding, first, last, options, now);
        } else {
            match row {
                Some(r) => {
                    push_line_piece(out, &table.columns[k], &r[k], widths[i], padding, first, last, options, now);
                },
                None => {},
            }
        }
        i += 1;
    }
    out.push('\n');
    assert(out@ =~= start + table_line_spec(t, selected@, widths@, padding as nat, header, rv, *options, now));
}

/// The body rows of a bordered table, the first `n` of them.
pub open spec fn bordered_rows(
    t: TableV,
    sel: Seq<usize>,
    ws: Seq<usize>,
    padding: nat,
    vertical: char,
    o: RenderOptions,
    now: u64,
    n: int,
) -> Seq<char>
    decreases n,
{
    if n <= 0 {
        seq![]
    } else {
        bordered_rows(t, sel, ws, padding, vertical, o, now, n - 1) + bordered_row_spec(
            t,
            sel,
            ws,
            padding,
            vertical,
            false,
            t.rows[n - 1],
            o,
            now,
        )
    }
}

/// A table drawn with the border glyphs of the chosen style: top rule,
/// header, middle rule, rows, bottom rule.
pub open spec fn bordered_table_spec(
    t: TableV,
    sel: Seq<usize>,
    ws: Seq<usize>,
    padding: nat,
    o: RenderOptions,
    now: u64,
) -> Seq<char> {
    let g = glyphs_of(o.border_style);
    rule_spec(ws, padding, g.top_left, g.top_join, g.top_right, g.horizontal, o) + bordered_row_spec(
        t,
        sel,
        ws,
        padding,
        g.vertical,
        true,
        seq![],
        o,
        now,
    ) + rule_spec(ws, padding, g.middle_left, g.middle_join, g.middle_right, g.horizontal, o) + bordered_rows(
        t,
        sel,
        ws,
        padding,
        g.vertical,
        o,
        now,
        t.rows.len() as int,
    ) + rule_spec(ws, padding, g.bottom_left, g.bottom_join, g.bottom_right, g.horizontal, o)
}

fn render_bordered_table(
    out: &mut Vec<char>,
    table: &Table,
    selected: &Vec<usize>,
    widths: &Vec<usize>,
    padding: usize,
    options: &RenderOptions,
    now: u64,
)
    requires
        widths.len() == selected.len(),
        forall|i: int| 0 <= i < selected.len() ==> (#[trigger] selected@[i]) < table.columns.len(),
    ensures
        final(out)@ == old(out)@ + bordered_table_spec(
            table@,
            selected@,
            widths@,
            padding as nat,
            *options,
            now,
        ),
{
    let ghost start = out@;
    let ghost t = table@;
    let g = border_glyphs(options.border_style);
    render_border_rule(out, widths, padding, g.top_left, g.top_join, g.top_right, g.horizontal, options);
    render_bordered_row(out, table, selected, widths, padding, g.vertical, true, None, options, now);
    render_border_rule(out, widths, padding, g.middle_left, g.middle_join, g.middle_right, g.horizontal, options);
    let ghost mid = out@;
    let mut i: usize = 0;
    while i < table.rows.len()
        invariant
            i <= table.rows.len(),
            widths.len() == selected.len(),
            forall|j: int| 0 <= j < selected.len() ==> (#[trigger] selected@[j]) < table.columns.len(),
            t == table@,
            g == glyphs_of(options.border_style),
            out@ == mid + bordered_rows(t, selected@, widths@, padding as nat, g.vertical, *options, now, i as int),
        decreases table.rows.len() - i,
    {
        render_bordered_row(
            out,
            table,
            selected,
            widths,
            padding,
            g.vertical,
            false,
            Some(&table.rows[i]),
            options,
            now,
        );
        i += 1;
    }
    render_border_rule(out, widths, padding, g.bottom_left, g.bottom_join, g.bottom_right, g.horizontal, options);
    assert(out@ =~= start + bordered_table_spec(t, selected@, widths@, padding as nat, *options, now));
}

/// The columns a table shows at the width asked for.
pub open spec fn shown_columns(cols: Seq<ColumnV>, o: RenderOptions) -> Seq<usize> {
    drop_to_fit(cols, initial_selection(cols, o), padding_of(o), o.width as nat, o.border_style)
}

/// Tables are drawn without borders, one line per row, when no border style
/// is chosen or the width is under five columns.
pub open spec fn uses_lines(o: RenderOptions) -> bool {
    o.border_style == BorderStyle::Borderless || o.width < 5
}

/// Below the compact breakpoint, a borderless table shows only the value of
/// its most important column on each line.
pub open spec fn compact_borderless(o: RenderOptions) -> bool {
    o.width < o.breakpoints.compact && o.border_style == BorderStyle::Borderless
}

/// Every row has a cell for every shown column.
pub open spec fn rows_cover(t: TableV, sel: Seq<usize>) -> bool {
    forall|r: int, i: int|
        #![trigger t.rows[r], sel[i]]
        0 <= r < t.rows.len() && 0 <= i < sel.len() ==> sel[i] < t.rows[r].len()
}

/// The tables that can be drawn: those drawn one line per row need every row
/// to hold the shown columns.
pub open spec fn table_renders(t: TableV, o: RenderOptions) -> bool {
    t.columns.len() == 0 || t.rows.len() == 0 || compact_borderless(o) || !uses_lines(o) || rows_cover(
        t,
        shown_columns(t.columns, o),
    )
}

pub open spec fn prelude_spec(lines: Seq<Seq<char>>, o: RenderOptions, n: int) -> Seq<char>
    decreases n,
{
    if n <= 0 {
        seq![]
    } else {
        prelude_spec(lines, o, n - 1) + paint_spec(truncate_spec(lines[n - 1], o.width as nat), Style::Muted, o)
            + seq!['\n']
    }
}

pub open spec fn compact_rows(t: TableV, k: int, o: RenderOptions, now: u64, n: int) -> Seq<
    char,
>
    decreases n,
{
    if n <= 0 {
        seq![]
    } else {
        compact_rows(t, k, o, now, n - 1) + if 0 <= k < t.rows[n - 1].len() {
            let cell = t.rows[n - 1][k];
            let column = t.columns[k];
            paint_typed_spec(
                truncate_spec(format_value_spec(column, cell, o, now), o.width as nat),
                cell,
                column,
                o,
            ) + seq!['\n']
        } else {
            seq![]
        }
    }
}

pub open spec fn line_rows(
    t: TableV,
    sel: Seq<usize>,
    ws: Seq<usize>,
    padding: nat,
    o: RenderOptions,
    now: u64,
    n: int,
) -> Seq<char>
    decreases n,
{
    if n <= 0 {
        seq![]
    } else {
        line_rows(t, sel, ws, padding, o, now, n - 1) + table_line_spec(
            t,
            sel,
            ws,
            padding,
            false,
            t.rows[n - 1],
            o,
            now,
        )
    }
}

/// A table as text: its prelude lines, muted and cut to the width, then its
/// rows as the width and border style call for.
pub open spec fn render_table_spec(t: TableV, o: RenderOptions, now: u64) -> Seq<char> {
    let pre = prelude_spec(t.prelude, o, t.prelude.len() as int);
    if t.columns.len() == 0 || t.rows.len() == 0 {
        pre
    } else {
        let (sel, ws, p) = layout_spec(t, o, now);
        let primary: int = if sel.len() > 0 {
            sel[0] as int
        } else {
            0
        };
        if compact_borderless(o) {
            pre + compact_rows(t, primary, o, now, t.rows.len() as int)
        } else if uses_lines(o) {
            pre + table_line_spec(t, sel, ws, p, true, seq![], o, now) + line_rows(
                t,
                sel,
                ws,
                p,
                o,
                now,
                t.rows.len() as int,
            )
        } else {
            pre + bordered_table_spec(t, sel, ws, p, o, now)
        }
    }
}

fn render_table(table: &Table, options: &RenderOptions, now: u64) -> (r: Vec<char>)
    requires
        table_renders(table@, *options),
    ensures
        r@ == render_table_spec(table@, *options, now),
{
    let ghost t = table@;
    let mut out: Vec<char> = Vec::new();
    let mut i: usize = 0;
    while i < table.prelude.len()
        invariant
            i <= table.prelude.len(),
            t == table@,
            out@ == prelude_spec(t.prelude, *options, i as int),
        decreases table.prelude.len() - i,
    {
        let line = chars_of(table.prelude[i].as_str());
        let cut = truncate(line.as_slice(), options.width);
        paint(&mut out, cut.as_slice(), Style::Muted, options);
        out.push('\n');
        i += 1;
    }
    if table.columns.len() == 0 || table.rows.len() == 0 {
        return out;
    }
    let layout = table_layout(table, options, now);
    let ghost pre = out@;
    if options.width < options.breakpoints.compact && options.border_style == BorderStyle::Borderless {
        let primary: usize = if layout.selected.len() > 0 {
            layout.selected[0]
        } else {
            0
        };
        let mut j: usize = 0;
        while j < table.rows.len()
            invariant
                j <= table.rows.len(),
                t == table@,
                primary < table.columns.len(),
                primary == layout.selected@[0],
                out@ == pre + compact_rows(t, primary as int, *options, now, j as int),
            decreases table.rows.len() - j,
        {
            let ghost before = out@;
            if primary < table.rows[j].len() {
                let column = &table.columns[primary];
                let cell = &table.rows[j][primary];
                let value = format_cell_value(column, cell, options, now);
                let cut = truncate(value.as_slice(), options.width);
                paint_typed_cell(&mut out, cut.as_slice(), cell, column, options);
                out.push('\n');
            }
            assert(out@ =~= pre + compact_rows(t, primary as int, *options, now, j + 1));
            j += 1;
        }
        return out;
    }
    if options.border_style == BorderStyle::Borderless || options.width < 5 {
        render_table_line(
            &mut out,
            table,
            &layout.selected,
            &layout.widths,
            layout.padding,
            true,
            None,
            options,
            now,
        );
        let ghost head = out@;
        let mut j: usize = 0;
        while j < table.rows.len()
            invariant
                j <= table.rows.len(),
                t == table@,
                layout.widths.len() == layout.selected.len(),
                forall|k: int| 0 <= k < layout.selected.len() ==> (#[trigger] layout.selected@[k]) < table.columns.len(),
                rows_cover(t, layout.selected@),
                out@ == head + line_rows(t, layout.selected@, layout.widths@, layout.padding as nat, *options, now, j as int),
            decreases table.rows.len() - j,
        {
            assert forall|k: int| 0 <= k < layout.selected.len() implies (#[trigger] layout.selected@[k]) < table.rows[j as int].len() by {
                assert(t.rows[j as int].len() == table.rows[j as int].len());
            }
            render_table_line(
                &mut out,
                table,
                &layout.selected,
                &layout.widths,
                layout.padding,
                false,
                Some(&table.rows[j]),
                options,
                now,
            );
            j += 1;
        }
        return out;
    }
    render_bordered_table(&mut out, table, &layout.selected, &layout.widths, layout.padding, options, now);
    out
}

// ---------------------------------------------------------------------------
// Logs
// ---------------------------------------------------------------------------

/// The widest timestamp among the first `n` records.
pub open spec fn widest_timestamp(rs: Seq<LogRecordV>, n: int) -> nat
    decreases n,
{
    if n <= 0 {
        0
    } else {
        let rest = widest_timestamp(rs, n - 1);
        match rs[n - 1].timestamp {
            Some(ts) => if text_width(ts) > rest {
                text_width(ts) as nat
            } else {
                rest
            },
            None => rest,
        }
    }
}

/// The widest level among the first `n` records.
pub open spec fn widest_level(rs: Seq<LogRecordV>, n: int) -> nat
    decreases n,
{
    if n <= 0 {
        0
    } else {
        let rest = widest_level(rs, n - 1);
        match rs[n - 1].level {
            Some(l) => if text_width(l) > rest {
                text_width(l) as nat
            } else {
                rest
            },
            None => rest,
        }
    }
}

pub open spec fn capped(v: nat, most: nat) -> nat {
    if v > most {
        most
    } else {
        v
    }
}

/// The timestamp, level and message that a record has, in that order.
pub open spec fn log_parts(r: LogRecordV) -> Seq<Seq<char>> {
    (match r.timestamp {
        Some(t) => seq![t],
        None => seq![],
    }) + (match r.level {
        Some(l) => seq![l],
        None => seq![],
    }) + seq![r.message]
}

pub open spec fn or_empty(o: Option<Seq<char>>) -> Seq<char> {
    match o {
        Some(v) => v,
        None => seq![],
    }
}

/// One log record on a narrow terminal: its parts joined by spaces, cut to
/// the width.
pub open spec fn compact_log_line(r: LogRecordV, o: RenderOptions) -> Seq<char> {
    paint_spec(truncate_spec(crate::text::join(log_parts(r), seq![' ']), o.width as nat), r.style, o) + seq!['\n']
}

/// A padded log column (timestamp or level) and the space after it; nothing
/// where the column has no width.
pub open spec fn log_column(v: Seq<char>, w: nat, style: Style, o: RenderOptions) -> Seq<char> {
    if w > 0 {
        paint_spec(pad_spec(truncate_spec(v, w), w, Alignment::Left), style, o) + seq![' ']
    } else {
        seq![]
    }
}

/// The room a message has after the timestamp and level columns, at least
/// one column.
pub open spec fn message_room(width: nat, tw: nat, lw: nat) -> nat {
    let prefix: int = tw + lw + (if tw > 0 {
        1int
    } else {
        0int
    }) + (if lw > 0 {
        1int
    } else {
        0int
    });
    if width - prefix > 1 {
        (width - prefix) as nat
    } else {
        1
    }
}

/// A message cut to its room, in the info style for JSON records.
pub open spec fn log_message(r: LogRecordV, room: nat, o: RenderOptions) -> Seq<char> {
    let message_style = if r.level == Some("JSON"@) {
        Style::Info
    } else {
        Style::Plain
    };
    paint_spec(truncate_spec(r.message, room), message_style, o) + seq!['\n']
}

/// One log record on a wider terminal: aligned timestamp and level columns
/// before the message.
pub open spec fn wide_log_line(r: LogRecordV, tw: nat, lw: nat, o: RenderOptions) -> Seq<char> {
    log_column(or_empty(r.timestamp), tw, Style::Muted, o) + log_column(or_empty(r.level), lw, r.style, o)
        + log_message(r, message_room(o.width as nat, tw, lw), o)
}

pub open spec fn log_line_spec(r: LogRecordV, tw: nat, lw: nat, o: RenderOptions) -> Seq<char> {
    if o.width < o.breakpoints.compact {
        compact_log_line(r, o)
    } else {
        wide_log_line(r, tw, lw, o)
    }
}

pub open spec fn log_lines(rs: Seq<LogRecordV>, tw: nat, lw: nat, o: RenderOptions, n: int) -> Seq<char>
    decreases n,
{
    if n <= 0 {
        seq![]
    } else {
        log_lines(rs, tw, lw, o, n - 1) + log_line_spec(rs[n - 1], tw, lw, o)
    }
}

/// Log records as text, timestamps capped at 25 columns and levels at 8.
pub open spec fn render_logs_spec(rs: Seq<LogRecordV>, o: RenderOptions) -> Seq<char> {
    log_lines(
        rs,
        capped(widest_timestamp(rs, rs.len() as int), 25),
        capped(widest_level(rs, rs.len() as int), 8),
        o,
        rs.len() as int,
    )
}

fn opt_chars(o: &Option<String>) -> (r: Vec<char>)
    ensures
        r@ == or_empty(crate::model::opt_view(*o)),
{
    match o {
        Some(s) => chars_of(s.as_str()),
        None => Vec::new(),
    }
}

fn push_compact_log_line(out: &mut Vec<char>, record: &LogRecord, options: &RenderOptions)
    ensures
        final(out)@ == old(out)@ + compact_log_line(record@, *options),
{
    let ghost start = out@;
    let ghost r = record@;
    let mut parts: Vec<Vec<char>> = Vec::new();
    match &record.timestamp {
        Some(t) => push_text(&mut parts, chars_of(t.as_str())),
        None => {},
    }
    match &record.level {
        Some(l) => push_text(&mut parts, chars_of(l.as_str())),
        None => {},
    }
    push_text(&mut parts, chars_of(record.message.as_str()));
    assert(parts.deep_view() =~= log_parts(r));
    let sep = vec![' '];
    let combined = crate::text::join_with(&parts, sep.as_slice());
    assert(sep@ =~= seq![' ']);
    let cut = truncate(combined.as_slice(), options.width);
    paint(out, cut.as_slice(), record.style, options);
    out.push('\n');
    assert(out@ =~= start + compact_log_line(r, *options));
}

fn push_log_column(out: &mut Vec<char>, v: &[char], w: usize, style: Style, options: &RenderOptions)
    ensures
        final(out)@ == old(out)@ + log_column(v@, w as nat, style, *options),
{
    if w > 0 {
        let ghost start = out@;
        let cut = truncate(v, w);
        let padded = pad(cut.as_slice(), w, Alignment::Left);
        paint(out, padded.as_slice(), style, options);
        out.push(' ');
        assert(out@ =~= start + log_column(v@, w as nat, style, *options));
    }
}

fn push_log_message(out: &mut Vec<char>, record: &LogRecord, room: usize, options: &RenderOptions)
    ensures
        final(out)@ == old(out)@ + log_message(record@, room as nat, *options),
{
    let ghost start = out@;
    let is_json = match &record.level {
        Some(l) => {
            let v = chars_of(l.as_str());
            eq_str(v.as_slice(), "JSON")
        },
        None => false,
    };
    let style = if is_json {
        Style::Info
    } else {
        Style::Plain
    };
    let message = chars_of(record.message.as_str());
    let cut = truncate(message.as_slice(), room);
    paint(out, cut.as_slice(), style, options);
    out.push('\n');
    assert(out@ =~= start + log_message(record@, room as nat, *options));
}

fn push_wide_log_line(out: &mut Vec<char>, record: &LogRecord, tw: usize, lw: usize, options: &RenderOptions)
    requires
        tw <= 25,
        lw <= 8,
    ensures
        final(out)@ == old(out)@ + wide_log_line(record@, tw as nat, lw as nat, *options),
{
    let ghost start = out@;
    let prefix: usize = tw + lw + (if tw > 0 {
        1
    } else {
        0
    }) + (if lw > 0 {
        1
    } else {
        0
    });
    let ts = opt_chars(&record.timestamp);
    push_log_column(out, ts.as_slice(), tw, Style::Muted, options);
    let lv = opt_chars(&record.level);
    push_log_column(out, lv.as_slice(), lw, record.style, options);
    let room = if options.width > prefix && options.width - prefix > 1 {
        options.width - prefix
    } else {
        1
    };
    assert(room as nat == message_room(options.width as nat, tw as nat, lw as nat));
    push_log_message(out, record, room, options);
    assert(out@ =~= start + wide_log_line(record@, tw as nat, lw as nat, *options));
}

fn push_log_line(out: &mut Vec<char>, record: &LogRecord, tw: usize, lw: usize, options: &RenderOptions)
    requires
        tw <= 25,
        lw <= 8,
    ensures
        final(out)@ == old(out)@ + log_line_spec(record@, tw as nat, lw as nat, *options),
{
    if options.width < options.breakpoints.compact {
        push_compact_log_line(out, record, options);
    } else {
        push_wide_log_line(out, record, tw, lw, options);
    }
}

/// The widths of the timestamp and level columns of log records: the
/// widest of each, capped at 25 and 8 columns.
pub fn log_widths(records: &Vec<LogRecord>) -> (r: (usize, usize))
    ensures
        r.0 as nat == capped(widest_timestamp(records@.map_values(|x: LogRecord| x@), records.len() as int), 25),
        r.1 as nat == capped(widest_level(records@.map_values(|x: LogRecord| x@), records.len() as int), 8),
{
    let ghost rs = records@.map_values(|x: LogRecord| x@);
    let mut tw: usize = 0;
    let mut lw: usize = 0;
    let mut i: usize = 0;
    while i < records.len()
        invariant
            i <= records.len(),
            rs == records@.map_values(|x: LogRecord| x@),
            tw as nat == widest_timestamp(rs, i as int),
            lw as nat == widest_level(rs, i as int),
        decreases records.len() - i,
    {
        match &records[i].timestamp {
            Some(t) => {
                let w = display_width(t.as_str());
                if w > tw {
                    tw = w;
                }
            },
            None => {},
        }
        match &records[i].level {
            Some(l) => {
                let w = display_width(l.as_str());
                if w > lw {
                    lw = w;
                }
            },
            None => {},
        }
        i += 1;
    }
    let tw = if tw > 25 {
        25
    } else {
        tw
    };
    let lw = if lw > 8 {
        8
    } else {
        lw
    };
    (tw, lw)
}

fn render_logs(records: &Vec<LogRecord>, options: &RenderOptions) -> (r: Vec<char>)
    ensures
        r@ == render_logs_spec(records@.map_values(|x: LogRecord| x@), *options),
{
    let ghost rs = records@.map_values(|x: LogRecord| x@);
    let (tw, lw) = log_widths(records);
    let mut out: Vec<char> = Vec::new();
    let mut j: usize = 0;
    while j < records.len()
        invariant
            j <= records.len(),
            tw <= 25,
            lw <= 8,
            rs == records@.map_values(|x: LogRecord| x@),
            out@ == log_lines(rs, tw as nat, lw as nat, *options, j as int),
        decreases records.len() - j,
    {
        push_log_line(&mut out, &records[j], tw, lw, options);
        j += 1;
    }
    out
}

// ---------------------------------------------------------------------------
// Entry points
// ---------------------------------------------------------------------------

/// What a view renders to.
pub open spec fn render_spec(v: ContentV, o: RenderOptions, now: u64) -> Seq<char> {
    match v {
        ContentV::Table(t) => render_table_spec(t, o, now),
        ContentV::Logs(rs) => render_logs_spec(rs, o),
    }
}

/// The views that can be drawn: every log, and the tables of
/// `table_renders`.
pub open spec fn renders(v: ContentV, o: RenderOptions) -> bool {
    match v {
        ContentV::Table(t) => table_renders(t, o),
        ContentV::Logs(_) => true,
    }
}

/// Draws a view as text for a terminal of `options.width` columns. `now` is
/// the current time in seconds since the epoch, which timestamps are shown
/// relative to.
pub fn render(view: &Content, options: &RenderOptions, now: u64) -> (r: String)
    requires
        renders(view@, *options),
    ensures
        r@ == render_spec(view@, *options, now),
{
    let out = match view {
        Content::Table(t) => render_table(t, options, now),
        Content::Logs(records) => render_logs(records, options),
    };
    string_of(out.as_slice())
}

fn covers_shown(table: &Table, options: &RenderOptions) -> (r: bool)
    ensures
        r == table_renders(table@, *options),
{
    if table.columns.len() == 0 || table.rows.len() == 0 {
        return true;
    }
    if (options.width < options.breakpoints.compact && options.border_style == BorderStyle::Borderless) || !(
    options.border_style == BorderStyle::Borderless || options.width < 5) {
        return true;
    }
    let initial = initial_columns(table, options);
    let padding = padding_for(options);
    let sel = drop_columns_to_fit(table, initial, padding, options.width, options.border_style);
    let ghost t = table@;
    let mut r: usize = 0;
    while r < table.rows.len()
        invariant
            r <= table.rows.len(),
            t == table@,
            table.columns.len() > 0,
            !compact_borderless(*options),
            uses_lines(*options),
            sel@ == shown_columns(t.columns, *options),
            forall|q: int, i: int|
                #![trigger t.rows[q], sel@[i]]
                0 <= q < r && 0 <= i < sel.len() ==> sel@[i] < t.rows[q].len(),
        decreases table.rows.len() - r,
    {
        let mut i: usize = 0;
        while i < sel.len()
            invariant
                i <= sel.len(),
                r < table.rows.len(),
                t == table@,
                table.columns.len() > 0,
                !compact_borderless(*options),
                uses_lines(*options),
                sel@ == shown_columns(t.columns, *options),
                forall|q: int, k: int|
                    #![trigger t.rows[q], sel@[k]]
                    0 <= q < r && 0 <= k < sel.len() ==> sel@[k] < t.rows[q].len(),
                forall|k: int| 0 <= k < i ==> sel@[k] < t.rows[r as int].len(),
            decreases sel.len() - i,
        {
            assert(t.rows[r as int].len() == table.rows[r as int].len());
            if sel[i] >= table.rows[r].len() {
                assert(sel@[i as int] >= t.rows[r as int].len());
                assert(!rows_cover(t, sel@));
                return false;
            }
            i += 1;
        }
        r += 1;
    }
    true
}

/// `render` where the view can be drawn, `None` for a table drawn one line
/// per row whose rows lack a shown column.
pub fn render_checked(view: &Content, options: &RenderOptions, now: u64) -> (r: Option<
    String,
>)
    ensures
        r.is_some() == renders(view@, *options),
        r matches Some(s) ==> s@ == render_spec(view@, *options, now),
{
    let ok = match view {
        Content::Table(t) => covers_shown(t, options),
        Content::Logs(_) => true,
    };
    if ok {
        Some(render(view, options, now))
    } else {
        None
    }
}

} // verus!

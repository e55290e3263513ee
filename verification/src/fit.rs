//! Why a rendered view fits its terminal: every line `render` draws takes
//! at most the width asked for, counting borders, padding and cut cells.
use vstd::prelude::*;

use crate::live::{escape_after, visible_cols, visible_width_spec};
use crate::model::{
    cell_v, Cell, Column, Content, LogRecord, Table, Alignment, CellV, ChangeKind, ColumnV, ContentV, LogRecordV, Style, TableV, ValueType,
};
use crate::render::{
    bordered_cell_at, bordered_cells, bordered_row_spec, bordered_rows, bordered_table_spec, capped,
    change_code_spec, cols_of, compact_borderless, compact_rows, fit_len, format_value_spec, glyphs_of,
    label_cell, layout_spec, lemma_layout_fits_width, lemma_layout_shape, lemma_line_layout_fits, line_cell_at,
    line_cells, line_rows, log_column, log_line_spec, log_lines, log_parts, message_room, or_empty, overhead_of,
    pad_spec, padding_of, paint_cell_spec, paint_permissions, paint_spec, paint_typed_spec, permission_style,
    prelude_spec, render_spec, render_table_spec, renders, repeat_char, rule_cells, rule_spec, sgr,
    shown_columns, spaces, style_code_spec, table_line_spec, table_renders, text_width, truncate_spec,
    uses_lines, widest_level, widest_timestamp, wsum, BorderStyle, ColorPalette, RenderOptions,
};
use crate::text::{is_alpha, join, lines, lines_from, strip_cr};

verus! {

// ---------------------------------------------------------------------------
// Reading styled text
// ---------------------------------------------------------------------------

/// The columns a styled text shows.
pub open spec fn shown(s: Seq<char>) -> nat {
    visible_cols(s, 0, false)
}

/// Whether reading a styled text ends outside an escape sequence.
pub open spec fn closes(s: Seq<char>) -> bool {
    !escape_after(s, 0, false)
}

/// Neither an escape nor a line break.
pub open spec fn clean(s: Seq<char>) -> bool {
    forall|i: int| 0 <= i < s.len() ==> #[trigger] s[i] != '\u{1b}' && s[i] != '\n'
}

/// No line break.
pub open spec fn unbroken(s: Seq<char>) -> bool {
    forall|i: int| 0 <= i < s.len() ==> #[trigger] s[i] != '\n'
}

/// A piece of a line: no line break, no open escape sequence at its end,
/// and at most `w` columns shown.
pub open spec fn piece(s: Seq<char>, w: int) -> bool {
    unbroken(s) && closes(s) && shown(s) <= w
}

/// SGR parameters: digits and semicolons.
pub open spec fn quiet(code: Seq<char>) -> bool {
    forall|i: int| 0 <= i < code.len() ==> ('0' <= #[trigger] code[i] <= '9' || code[i] == ';')
}

proof fn lemma_escape_shift(a: Seq<char>, b: Seq<char>, j: int, e: bool)
    requires
        0 <= j <= b.len(),
    ensures
        escape_after(a + b, a.len() + j, e) == escape_after(b, j, e),
    decreases b.len() - j,
{
    if j < b.len() {
        assert((a + b)[a.len() + j] == b[j]);
        lemma_escape_shift(a, b, j + 1, !is_alpha(b[j]));
        lemma_escape_shift(a, b, j + 1, true);
        lemma_escape_shift(a, b, j + 1, false);
    }
}

proof fn lemma_escape_concat(a: Seq<char>, b: Seq<char>, i: int, e: bool)
    requires
        0 <= i <= a.len(),
    ensures
        escape_after(a + b, i, e) == escape_after(b, 0, escape_after(a, i, e)),
    decreases a.len() - i,
{
    if i == a.len() {
        lemma_escape_shift(a, b, 0, e);
    } else {
        assert((a + b)[i] == a[i]);
        lemma_escape_concat(a, b, i + 1, !is_alpha(a[i]));
        lemma_escape_concat(a, b, i + 1, true);
        lemma_escape_concat(a, b, i + 1, false);
    }
}

/// Two styled texts read one after the other, from state `e`.
pub proof fn lemma_read_concat(a: Seq<char>, b: Seq<char>, e: bool)
    ensures
        visible_cols(a + b, 0, e) == visible_cols(a, 0, e) + visible_cols(b, 0, escape_after(a, 0, e)),
        escape_after(a + b, 0, e) == escape_after(b, 0, escape_after(a, 0, e)),
{
    crate::live::lemma_visible_concat(a, b, 0, e);
    lemma_escape_concat(a, b, 0, e);
}

proof fn lemma_clean_from(s: Seq<char>, i: int)
    requires
        clean(s),
        0 <= i,
    ensures
        !escape_after(s, i, false),
    decreases s.len() - i,
{
    if i < s.len() {
        lemma_clean_from(s, i + 1);
    }
}

/// Text without escapes and line breaks is a piece of its own width.
pub proof fn lemma_clean_piece(s: Seq<char>)
    requires
        clean(s),
    ensures
        piece(s, shown(s) as int),
{
    lemma_clean_from(s, 0);
}

/// Pieces side by side.
pub proof fn lemma_piece_concat(a: Seq<char>, b: Seq<char>, x: int, y: int)
    requires
        piece(a, x),
        piece(b, y),
    ensures
        piece(a + b, x + y),
{
    lemma_read_concat(a, b, false);
    assert forall|i: int| 0 <= i < (a + b).len() implies #[trigger] (a + b)[i] != '\n' by {
        if i < a.len() {
            assert((a + b)[i] == a[i]);
        } else {
            assert((a + b)[i] == b[i - a.len()]);
        }
    }
}

proof fn lemma_quiet_in_escape(code: Seq<char>, i: int)
    requires
        quiet(code),
        0 <= i,
    ensures
        visible_cols(code, i, true) == 0,
        escape_after(code, i, true),
    decreases code.len() - i,
{
    if i < code.len() {
        assert(!is_alpha(code[i]));
        lemma_quiet_in_escape(code, i + 1);
    }
}

/// A clean text wrapped in an SGR sequence shows as the text alone.
pub proof fn lemma_sgr_piece(code: Seq<char>, v: Seq<char>)
    requires
        quiet(code),
        clean(v),
    ensures
        piece(sgr(code, v), shown(v) as int),
{
    let open = seq!['\u{1b}', '['];
    let m = seq!['m'];
    let reset = seq!['\u{1b}', '[', '0', 'm'];
    assert(sgr(code, v) =~= (((open + code) + m) + v) + reset);
    reveal_with_fuel(visible_cols, 5);
    reveal_with_fuel(escape_after, 5);
    assert(!is_alpha('[') && is_alpha('m') && !is_alpha('0'));
    assert(visible_cols(open, 0, false) == 0 && escape_after(open, 0, false));
    lemma_read_concat(open, code, false);
    lemma_quiet_in_escape(code, 0);
    lemma_read_concat(open + code, m, false);
    assert(visible_cols(m, 0, true) == 0 && !escape_after(m, 0, true));
    lemma_read_concat((open + code) + m, v, false);
    lemma_clean_from(v, 0);
    lemma_read_concat(((open + code) + m) + v, reset, false);
    assert(visible_cols(reset, 0, false) == 0 && !escape_after(reset, 0, false));
    assert forall|i: int| 0 <= i < sgr(code, v).len() implies #[trigger] sgr(code, v)[i] != '\n' by {
        let s = sgr(code, v);
        if 2 <= i < 2 + code.len() {
            assert(s[i] == code[i - 2]);
        } else if 3 + code.len() <= i < 3 + code.len() + v.len() {
            assert(s[i] == v[i - 3 - code.len()]);
        }
    }
}

/// The SGR parameters of every style and change mark are digits and
/// semicolons.
proof fn lemma_codes_quiet(style: Style, palette: ColorPalette, truecolor: bool, change: ChangeKind)
    ensures
        quiet(style_code_spec(style, palette, truecolor)),
        quiet(change_code_spec(palette, truecolor, change)),
{
    reveal_strlit("0");
    reveal_strlit("1;31");
    reveal_strlit("1;35");
    reveal_strlit("1;36");
    reveal_strlit("1;38;2;204;121;167");
    reveal_strlit("1;38;2;248;113;113");
    reveal_strlit("1;38;2;34;211;238");
    reveal_strlit("2;31");
    reveal_strlit("2;35");
    reveal_strlit("2;37");
    reveal_strlit("2;38;2;148;163;184");
    reveal_strlit("2;38;2;192;132;252");
    reveal_strlit("2;38;2;213;94;0");
    reveal_strlit("30;41");
    reveal_strlit("30;42");
    reveal_strlit("30;43");
    reveal_strlit("30;48;2;204;121;167");
    reveal_strlit("30;48;2;240;228;66");
    reveal_strlit("30;48;2;248;113;113");
    reveal_strlit("30;48;2;250;204;21");
    reveal_strlit("30;48;2;34;197;94");
    reveal_strlit("30;48;2;86;180;233");
    reveal_strlit("32");
    reveal_strlit("33");
    reveal_strlit("34");
    reveal_strlit("36");
    reveal_strlit("37;44");
    reveal_strlit("37;45");
    reveal_strlit("38;2;0;158;115");
    reveal_strlit("38;2;240;228;66");
    reveal_strlit("38;2;250;204;21");
    reveal_strlit("38;2;34;197;94");
    reveal_strlit("38;2;86;180;233");
    reveal_strlit("38;2;96;165;250");
}

/// A clean text painted in a style shows as the text alone.
pub proof fn lemma_paint_piece(v: Seq<char>, style: Style, o: RenderOptions)
    requires
        clean(v),
    ensures
        piece(paint_spec(v, style, o), shown(v) as int),
{
    if !o.color || style == Style::Plain || crate::text::is_blank(v) {
        lemma_clean_piece(v);
    } else {
        lemma_codes_quiet(style, o.palette, o.truecolor, ChangeKind::Added);
        lemma_sgr_piece(style_code_spec(style, o.palette, o.truecolor), v);
    }
}

proof fn lemma_paint_cell_piece(v: Seq<char>, cell: CellV, o: RenderOptions)
    requires
        clean(v),
    ensures
        piece(paint_cell_spec(v, cell, o), shown(v) as int),
{
    if !o.color || crate::text::is_blank(v) {
        lemma_clean_piece(v);
    } else {
        match cell.change {
            Some(ch) => {
                lemma_codes_quiet(cell.style, o.palette, o.truecolor, ch);
                lemma_sgr_piece(change_code_spec(o.palette, o.truecolor, ch), v);
            },
            None => lemma_paint_piece(v, cell.style, o),
        }
    }
}

/// Adding a character that is not an escape to a clean text adds its
/// columns.
pub proof fn lemma_shown_push(s: Seq<char>, c: char)
    requires
        clean(s),
        c != '\u{1b}',
    ensures
        shown(s.push(c)) == shown(s) + cols_of(c),
{
    assert(s.push(c) =~= s + seq![c]);
    lemma_read_concat(s, seq![c], false);
    lemma_clean_from(s, 0);
    reveal_with_fuel(visible_cols, 2);
}

proof fn lemma_permissions_piece(v: Seq<char>, o: RenderOptions)
    requires
        clean(v),
    ensures
        piece(paint_permissions(v, o), shown(v) as int),
    decreases v.len(),
{
    if v.len() == 0 {
        reveal_with_fuel(visible_cols, 1);
        lemma_clean_piece(v);
    } else {
        let d = v.drop_last();
        let c = v.last();
        assert(clean(d));
        assert(clean(seq![c]));
        lemma_permissions_piece(d, o);
        lemma_paint_piece(seq![c], permission_style(c), o);
        lemma_piece_concat(paint_permissions(d, o), paint_spec(seq![c], permission_style(c), o), shown(d) as int, shown(seq![c]) as int);
        assert(d.push(c) =~= v);
        lemma_shown_push(d, c);
        reveal_with_fuel(visible_cols, 2);
    }
}

/// A clean value painted as its column and cell call for shows as the value
/// alone.
pub proof fn lemma_paint_typed_piece(v: Seq<char>, cell: CellV, column: ColumnV, o: RenderOptions)
    requires
        clean(v),
    ensures
        piece(paint_typed_spec(v, cell, column, o), shown(v) as int),
{
    if column.value_type != ValueType::Permissions || !o.color || cell.change.is_some() {
        lemma_paint_cell_piece(v, cell, o);
    } else {
        lemma_permissions_piece(v, o);
    }
}

/// A run of one character that is neither an escape nor a line break.
pub proof fn lemma_repeat_piece(c: char, n: nat)
    requires
        c != '\u{1b}',
        c != '\n',
    ensures
        clean(repeat_char(c, n)),
        shown(repeat_char(c, n)) == n * cols_of(c),
        piece(repeat_char(c, n), (n * cols_of(c)) as int),
    decreases n,
{
    if n == 0 {
        reveal_with_fuel(visible_cols, 1);
    } else {
        lemma_repeat_piece(c, (n - 1) as nat);
        assert(repeat_char(c, n) =~= repeat_char(c, (n - 1) as nat).push(c));
        lemma_shown_push(repeat_char(c, (n - 1) as nat), c);
        assert(n * cols_of(c) == (n - 1) * cols_of(c) + cols_of(c)) by (nonlinear_arith);
    }
    lemma_clean_piece(repeat_char(c, n));
}

/// Two clean texts side by side.
pub proof fn lemma_clean_concat(a: Seq<char>, b: Seq<char>)
    requires
        clean(a),
        clean(b),
    ensures
        clean(a + b),
        shown(a + b) == shown(a) + shown(b),
{
    lemma_read_concat(a, b, false);
    lemma_clean_from(a, 0);
    assert forall|i: int| 0 <= i < (a + b).len() implies #[trigger] (a + b)[i] != '\u{1b}' && (a + b)[i] != '\n' by {
        if i < a.len() {
            assert((a + b)[i] == a[i]);
        } else {
            assert((a + b)[i] == b[i - a.len()]);
        }
    }
}

/// A text whose every prefix is no narrower as a string than by its
/// characters, also once an ellipsis is put after it; without escapes and
/// line breaks. Text of printable ASCII is; text whose characters join into
/// narrower ligatures or emoji sequences is not.
pub open spec fn measured_plain(s: Seq<char>) -> bool {
    &&& clean(s)
    &&& forall|k: int|
        0 <= k <= s.len() ==> shown(#[trigger] s.take(k)) <= text_width(s.take(k)) && shown(s.take(k)) + 1
            <= text_width(s.take(k).push('…'))
}

proof fn lemma_fit_prefix(v: Seq<char>, i: int, used: nat, target: nat)
    requires
        clean(v),
        0 <= i <= v.len(),
        used == shown(v.take(i)),
        used <= target,
    ensures
        i <= fit_len(v, i, used, target) <= v.len(),
        shown(v.take(fit_len(v, i, used, target))) <= target,
    decreases v.len() - i,
{
    if i < v.len() && used + cols_of(v[i]) <= target {
        assert(v.take(i + 1) =~= v.take(i).push(v[i]));
        assert(clean(v.take(i)));
        lemma_shown_push(v.take(i), v[i]);
        lemma_fit_prefix(v, i + 1, used + cols_of(v[i]), target);
    }
}

/// A measured value cut to `max` columns shows at most `max` and no more
/// than its string width.
pub proof fn lemma_truncate_shown(v: Seq<char>, max: nat)
    requires
        measured_plain(v),
        cols_of('…') == 1,
    ensures
        clean(truncate_spec(v, max)),
        shown(truncate_spec(v, max)) <= max,
        shown(truncate_spec(v, max)) <= text_width(truncate_spec(v, max)),
{
    let c = truncate_spec(v, max);
    reveal_with_fuel(visible_cols, 2);
    if text_width(v) <= max {
        assert(v.take(v.len() as int) =~= v);
    } else if max == 0 {
    } else if max == 1 {
        assert(v.take(0).push('…') =~= seq!['…']);
        assert(shown(v.take(0)) == 0);
    } else {
        let f = fit_len(v, 0, 0, (max - 1) as nat);
        assert(v.take(0) =~= Seq::<char>::empty());
        lemma_fit_prefix(v, 0, 0, (max - 1) as nat);
        let p = v.take(f);
        assert(clean(p));
        assert(c =~= p.push('…'));
        lemma_shown_push(p, '…');
        assert(shown(p) + 1 <= text_width(p.push('…')));
    }
}

/// A value padded to `w` columns shows at most `w` once it shows at most
/// `w` and no more than its string width.
pub proof fn lemma_pad_shown(c: Seq<char>, w: nat, alignment: Alignment)
    requires
        clean(c),
        shown(c) <= w,
        shown(c) <= text_width(c),
        cols_of(' ') == 1,
    ensures
        clean(pad_spec(c, w, alignment)),
        shown(pad_spec(c, w, alignment)) <= w,
{
    let missing: nat = if w > text_width(c) {
        (w - text_width(c)) as nat
    } else {
        0
    };
    lemma_repeat_piece(' ', missing);
    assert(spaces(missing) =~= repeat_char(' ', missing));
    match alignment {
        Alignment::Left => lemma_clean_concat(c, spaces(missing)),
        Alignment::Right => lemma_clean_concat(spaces(missing), c),
    }
}

// ---------------------------------------------------------------------------
// Lines
// ---------------------------------------------------------------------------

/// Text made of whole lines, each showing at most `w` columns.
pub open spec fn fits_by_lines(s: Seq<char>, w: int) -> bool {
    &&& s.len() == 0 || s.last() == '\n'
    &&& forall|i: int| 0 <= i < lines(s).len() ==> visible_width_spec(#[trigger] lines(s)[i]) <= w
}

proof fn lemma_one_line_from(body: Seq<char>, i: int)
    requires
        unbroken(body),
        0 <= i <= body.len(),
    ensures
        lines_from(body.push('\n'), i, 0) == seq![strip_cr(body)],
    decreases body.len() - i,
{
    let s = body.push('\n');
    if i < body.len() {
        assert(s[i] == body[i]);
        lemma_one_line_from(body, i + 1);
    } else {
        assert(s.subrange(0, i) =~= body);
        assert(lines_from(s, i + 1, i + 1) == Seq::<Seq<char>>::empty());
        assert(seq![strip_cr(body)] + Seq::<Seq<char>>::empty() =~= seq![strip_cr(body)]);
    }
}

/// One line of a piece that shows at most `w` columns.
pub proof fn lemma_one_line(body: Seq<char>, w: int)
    requires
        piece(body, w),
    ensures
        fits_by_lines(body.push('\n'), w),
{
    lemma_one_line_from(body, 0);
    let l = strip_cr(body);
    if body.len() > 0 && body.last() == '\r' {
        assert(body =~= body.drop_last() + seq![body.last()]);
        lemma_read_concat(body.drop_last(), seq![body.last()], false);
    }
    assert(visible_width_spec(l) <= shown(l));
}

proof fn lemma_lines_shift(p: Seq<char>, b: Seq<char>, j: int, st: int)
    requires
        0 <= st <= j <= b.len(),
    ensures
        lines_from(p + b, p.len() + j, p.len() + st) == lines_from(b, j, st),
    decreases b.len() - j,
{
    if j < b.len() {
        assert((p + b)[p.len() + j] == b[j]);
        if b[j] == '\n' {
            assert((p + b).subrange(p.len() + st, p.len() + j) =~= b.subrange(st, j));
            lemma_lines_shift(p, b, j + 1, j + 1);
        } else {
            lemma_lines_shift(p, b, j + 1, st);
        }
    } else {
        assert((p + b).subrange(p.len() + st, (p + b).len() as int) =~= b.subrange(st, b.len() as int));
    }
}

proof fn lemma_lines_prefix(a: Seq<char>, b: Seq<char>, i: int, st: int)
    requires
        a.len() > 0,
        a.last() == '\n',
        0 <= st <= i <= a.len(),
        i == a.len() ==> st == a.len(),
    ensures
        lines_from(a + b, i, st) == lines_from(a, i, st) + lines(b),
    decreases a.len() - i,
{
    if i == a.len() {
        lemma_lines_shift(a, b, 0, 0);
        assert(lines_from(a, i, st) == Seq::<Seq<char>>::empty());
        assert(Seq::<Seq<char>>::empty() + lines(b) =~= lines(b));
    } else {
        assert((a + b)[i] == a[i]);
        if a[i] == '\n' {
            assert((a + b).subrange(st, i) =~= a.subrange(st, i));
            lemma_lines_prefix(a, b, i + 1, i + 1);
            assert(seq![strip_cr(a.subrange(st, i))] + (lines_from(a, i + 1, i + 1) + lines(b)) =~= (seq![
                strip_cr(a.subrange(st, i)),
            ] + lines_from(a, i + 1, i + 1)) + lines(b));
        } else {
            lemma_lines_prefix(a, b, i + 1, st);
        }
    }
}

/// Whole lines after whole lines.
pub proof fn lemma_lines_concat(a: Seq<char>, b: Seq<char>, w: int)
    requires
        fits_by_lines(a, w),
        fits_by_lines(b, w),
    ensures
        fits_by_lines(a + b, w),
{
    if a.len() == 0 {
        assert(a + b =~= b);
    } else {
        lemma_lines_prefix(a, b, 0, 0);
        let la = lines(a);
        let lb = lines(b);
        assert(lines(a + b) == la + lb);
        assert forall|i: int| 0 <= i < lines(a + b).len() implies visible_width_spec(
            #[trigger] lines(a + b)[i],
        ) <= w by {
            if i < la.len() {
                assert(lines(a + b)[i] == la[i]);
            } else {
                assert(lines(a + b)[i] == lb[i - la.len()]);
            }
        }
        if b.len() > 0 {
            assert((a + b).last() == b.last());
        } else {
            assert(a + b =~= a);
        }
    }
}

// ---------------------------------------------------------------------------
// Tables
// ---------------------------------------------------------------------------

/// A character drawn as one column, neither an escape nor a line break.
pub open spec fn one_column(c: char) -> bool {
    c != '\u{1b}' && c != '\n' && cols_of(c) == 1
}

/// Spaces, the ellipsis and the glyphs of a border style take one column
/// each.
pub open spec fn narrow_glyphs(style: BorderStyle) -> bool {
    let g = glyphs_of(style);
    &&& one_column(' ')
    &&& cols_of('…') == 1
    &&& one_column(g.top_left) && one_column(g.top_join) && one_column(g.top_right)
    &&& one_column(g.middle_left) && one_column(g.middle_join) && one_column(g.middle_right)
    &&& one_column(g.bottom_left) && one_column(g.bottom_join) && one_column(g.bottom_right)
    &&& one_column(g.horizontal) && one_column(g.vertical)
}

proof fn lemma_wsum_take(ws: Seq<usize>, n: int)
    requires
        0 < n <= ws.len(),
    ensures
        wsum(ws.take(n)) == wsum(ws.take(n - 1)) + ws[n - 1],
{
    assert(ws.take(n).drop_last() =~= ws.take(n - 1));
}

proof fn lemma_rule_cells(ws: Seq<usize>, padding: nat, join: char, h: char, n: int)
    requires
        0 <= n <= ws.len(),
        one_column(join),
        one_column(h),
    ensures
        clean(rule_cells(ws, padding, join, h, n)),
        shown(rule_cells(ws, padding, join, h, n)) == wsum(ws.take(n)) + n * (2 * padding + 1) - (if n > 0 {
            1int
        } else {
            0int
        }),
    decreases n,
{
    if n == 0 {
        assert(ws.take(0) =~= Seq::<usize>::empty());
        reveal_with_fuel(visible_cols, 1);
    } else {
        lemma_rule_cells(ws, padding, join, h, n - 1);
        lemma_wsum_take(ws, n);
        let before = rule_cells(ws, padding, join, h, n - 1);
        let sep: Seq<char> = if n > 1 {
            seq![join]
        } else {
            seq![]
        };
        let run = repeat_char(h, (ws[n - 1] + padding * 2) as nat);
        reveal_with_fuel(visible_cols, 2);
        assert(clean(sep));
        lemma_repeat_piece(h, (ws[n - 1] + padding * 2) as nat);
        lemma_clean_concat(before, sep);
        lemma_clean_concat(before + sep, run);
        assert(n * (2 * padding + 1) == (n - 1) * (2 * padding + 1) + 2 * padding + 1) by (nonlinear_arith);
    }
}

/// A border rule is one line of `wsum(ws)` plus the borders and padding.
pub proof fn lemma_rule_fits(
    ws: Seq<usize>,
    padding: nat,
    left: char,
    join: char,
    right: char,
    h: char,
    o: RenderOptions,
)
    requires
        ws.len() > 0,
        one_column(left),
        one_column(join),
        one_column(right),
        one_column(h),
        wsum(ws) + overhead_of(ws.len(), padding, o.border_style) <= o.width,
        o.border_style != BorderStyle::Borderless,
    ensures
        fits_by_lines(rule_spec(ws, padding, left, join, right, h, o), o.width as int),
{
    let cells = rule_cells(ws, padding, join, h, ws.len() as int);
    lemma_rule_cells(ws, padding, join, h, ws.len() as int);
    assert(ws.take(ws.len() as int) =~= ws);
    reveal_with_fuel(visible_cols, 2);
    assert(clean(seq![left]) && clean(seq![right]));
    lemma_clean_concat(seq![left], cells);
    lemma_clean_concat(seq![left] + cells, seq![right]);
    let body = seq![left] + cells + seq![right];
    lemma_paint_piece(body, Style::Muted, o);
    lemma_one_line(paint_spec(body, Style::Muted, o), o.width as int);
    assert(rule_spec(ws, padding, left, join, right, h, o) =~= paint_spec(body, Style::Muted, o).push('\n'));
}

/// A cell value cut and padded to `w` columns, painted, shows at most `w`.
pub proof fn lemma_cell_fits(v: Seq<char>, w: nat, cell: CellV, column: ColumnV, o: RenderOptions, padded: bool)
    requires
        measured_plain(v),
        cols_of('…') == 1,
        cols_of(' ') == 1,
    ensures
        piece(
            paint_typed_spec(
                if padded {
                    pad_spec(truncate_spec(v, w), w, column.alignment)
                } else {
                    truncate_spec(v, w)
                },
                cell,
                column,
                o,
            ),
            w as int,
        ),
{
    let c = truncate_spec(v, w);
    lemma_truncate_shown(v, w);
    if padded {
        lemma_pad_shown(c, w, column.alignment);
        lemma_paint_typed_piece(pad_spec(c, w, column.alignment), cell, column, o);
    } else {
        lemma_paint_typed_piece(c, cell, column, o);
    }
}

/// Whether every value a row shows in the selected columns is measured
/// plainly (see `measured_plain`).
pub open spec fn bordered_values_plain(
    t: TableV,
    sel: Seq<usize>,
    header: bool,
    row: Seq<CellV>,
    o: RenderOptions,
    now: u64,
) -> bool {
    forall|i: int|
        0 <= i < sel.len() ==> measured_plain(
            #[trigger] format_value_spec(
                t.columns[sel[i] as int],
                bordered_cell_at(t, header, row, sel[i] as int),
                o,
                now,
            ),
        )
}

proof fn lemma_bordered_cells(
    t: TableV,
    sel: Seq<usize>,
    ws: Seq<usize>,
    padding: nat,
    vertical: char,
    header: bool,
    row: Seq<CellV>,
    o: RenderOptions,
    now: u64,
    n: int,
)
    requires
        0 <= n <= sel.len(),
        ws.len() == sel.len(),
        one_column(vertical),
        one_column(' '),
        cols_of('…') == 1,
        bordered_values_plain(t, sel, header, row, o, now),
    ensures
        piece(
            bordered_cells(t, sel, ws, padding, vertical, header, row, o, now, n),
            wsum(ws.take(n)) + n * (2 * padding + 1),
        ),
    decreases n,
{
    if n == 0 {
        assert(ws.take(0) =~= Seq::<usize>::empty());
        reveal_with_fuel(visible_cols, 1);
        reveal_with_fuel(escape_after, 1);
    } else {
        lemma_bordered_cells(t, sel, ws, padding, vertical, header, row, o, now, n - 1);
        lemma_wsum_take(ws, n);
        let k = sel[n - 1] as int;
        let column = t.columns[k];
        let cell = bordered_cell_at(t, header, row, k);
        let w = ws[n - 1] as nat;
        let v = format_value_spec(column, cell, o, now);
        assert(measured_plain(v));
        lemma_cell_fits(v, w, cell, column, o, true);
        lemma_repeat_piece(' ', padding);
        assert(spaces(padding) =~= repeat_char(' ', padding));
        lemma_clean_piece(spaces(padding));
        let painted = paint_typed_spec(pad_spec(truncate_spec(v, w), w, column.alignment), cell, column, o);
        reveal_with_fuel(visible_cols, 2);
        assert(clean(seq![vertical]));
        lemma_paint_piece(seq![vertical], Style::Muted, o);
        let bar = paint_spec(seq![vertical], Style::Muted, o);
        lemma_piece_concat(spaces(padding), painted, padding as int, w as int);
        lemma_piece_concat(spaces(padding) + painted, spaces(padding), (padding + w) as int, padding as int);
        lemma_piece_concat(spaces(padding) + painted + spaces(padding), bar, (padding + w + padding) as int, 1);
        let before = bordered_cells(t, sel, ws, padding, vertical, header, row, o, now, n - 1);
        lemma_piece_concat(
            before,
            spaces(padding) + painted + spaces(padding) + bar,
            wsum(ws.take(n - 1)) + (n - 1) * (2 * padding + 1),
            (padding + w + padding + 1) as int,
        );
        assert(n * (2 * padding + 1) == (n - 1) * (2 * padding + 1) + 2 * padding + 1) by (nonlinear_arith);
    }
}

/// A bordered row is one line of `wsum(ws)` plus the borders and padding.
pub proof fn lemma_bordered_row_fits(
    t: TableV,
    sel: Seq<usize>,
    ws: Seq<usize>,
    padding: nat,
    vertical: char,
    header: bool,
    row: Seq<CellV>,
    o: RenderOptions,
    now: u64,
)
    requires
        ws.len() == sel.len(),
        one_column(vertical),
        one_column(' '),
        cols_of('…') == 1,
        bordered_values_plain(t, sel, header, row, o, now),
        wsum(ws) + overhead_of(ws.len(), padding, o.border_style) <= o.width,
        o.border_style != BorderStyle::Borderless,
    ensures
        fits_by_lines(bordered_row_spec(t, sel, ws, padding, vertical, header, row, o, now), o.width as int),
{
    lemma_bordered_cells(t, sel, ws, padding, vertical, header, row, o, now, sel.len() as int);
    assert(ws.take(ws.len() as int) =~= ws);
    reveal_with_fuel(visible_cols, 2);
    assert(clean(seq![vertical]));
    lemma_paint_piece(seq![vertical], Style::Muted, o);
    let bar = paint_spec(seq![vertical], Style::Muted, o);
    let cells = bordered_cells(t, sel, ws, padding, vertical, header, row, o, now, sel.len() as int);
    lemma_piece_concat(bar, cells, 1, wsum(ws) + sel.len() * (2 * padding + 1));
    lemma_one_line(bar + cells, o.width as int);
    assert(bordered_row_spec(t, sel, ws, padding, vertical, header, row, o, now) =~= (bar + cells).push('\n'));
}

proof fn lemma_bordered_rows_fit(
    t: TableV,
    sel: Seq<usize>,
    ws: Seq<usize>,
    padding: nat,
    vertical: char,
    o: RenderOptions,
    now: u64,
    n: int,
)
    requires
        0 <= n <= t.rows.len(),
        ws.len() == sel.len(),
        one_column(vertical),
        one_column(' '),
        cols_of('…') == 1,
        forall|r: int| 0 <= r < t.rows.len() ==> bordered_values_plain(t, sel, false, #[trigger] t.rows[r], o, now),
        wsum(ws) + overhead_of(ws.len(), padding, o.border_style) <= o.width,
        o.border_style != BorderStyle::Borderless,
    ensures
        fits_by_lines(bordered_rows(t, sel, ws, padding, vertical, o, now, n), o.width as int),
    decreases n,
{
    if n > 0 {
        lemma_bordered_rows_fit(t, sel, ws, padding, vertical, o, now, n - 1);
        lemma_bordered_row_fits(t, sel, ws, padding, vertical, false, t.rows[n - 1], o, now);
        lemma_lines_concat(
            bordered_rows(t, sel, ws, padding, vertical, o, now, n - 1),
            bordered_row_spec(t, sel, ws, padding, vertical, false, t.rows[n - 1], o, now),
            o.width as int,
        );
    } else {
        assert(lines(Seq::<char>::empty()) =~= Seq::<Seq<char>>::empty());
    }
}

/// A bordered table: each of its lines fits once the layout does.
pub proof fn lemma_bordered_table_fits(
    t: TableV,
    sel: Seq<usize>,
    ws: Seq<usize>,
    padding: nat,
    o: RenderOptions,
    now: u64,
)
    requires
        ws.len() == sel.len(),
        ws.len() > 0,
        narrow_glyphs(o.border_style),
        bordered_values_plain(t, sel, true, seq![], o, now),
        forall|r: int| 0 <= r < t.rows.len() ==> bordered_values_plain(t, sel, false, #[trigger] t.rows[r], o, now),
        wsum(ws) + overhead_of(ws.len(), padding, o.border_style) <= o.width,
        o.border_style != BorderStyle::Borderless,
    ensures
        fits_by_lines(bordered_table_spec(t, sel, ws, padding, o, now), o.width as int),
{
    let g = glyphs_of(o.border_style);
    let w = o.width as int;
    let top = rule_spec(ws, padding, g.top_left, g.top_join, g.top_right, g.horizontal, o);
    let head = bordered_row_spec(t, sel, ws, padding, g.vertical, true, seq![], o, now);
    let mid = rule_spec(ws, padding, g.middle_left, g.middle_join, g.middle_right, g.horizontal, o);
    let body = bordered_rows(t, sel, ws, padding, g.vertical, o, now, t.rows.len() as int);
    let bottom = rule_spec(ws, padding, g.bottom_left, g.bottom_join, g.bottom_right, g.horizontal, o);
    lemma_rule_fits(ws, padding, g.top_left, g.top_join, g.top_right, g.horizontal, o);
    lemma_bordered_row_fits(t, sel, ws, padding, g.vertical, true, seq![], o, now);
    lemma_rule_fits(ws, padding, g.middle_left, g.middle_join, g.middle_right, g.horizontal, o);
    lemma_bordered_rows_fit(t, sel, ws, padding, g.vertical, o, now, t.rows.len() as int);
    lemma_rule_fits(ws, padding, g.bottom_left, g.bottom_join, g.bottom_right, g.horizontal, o);
    lemma_lines_concat(top, head, w);
    lemma_lines_concat(top + head, mid, w);
    lemma_lines_concat(top + head + mid, body, w);
    lemma_lines_concat(top + head + mid + body, bottom, w);
}

/// Whether every value a borderless line shows in the selected columns is
/// measured plainly (see `measured_plain`).
pub open spec fn line_values_plain(
    t: TableV,
    sel: Seq<usize>,
    header: bool,
    row: Seq<CellV>,
    o: RenderOptions,
    now: u64,
) -> bool {
    forall|i: int|
        0 <= i < sel.len() ==> measured_plain(
            #[trigger] format_value_spec(t.columns[sel[i] as int], line_cell_at(t, header, row, sel[i] as int), o, now),
        )
}

proof fn lemma_line_cells(
    t: TableV,
    sel: Seq<usize>,
    ws: Seq<usize>,
    padding: nat,
    header: bool,
    row: Seq<CellV>,
    o: RenderOptions,
    now: u64,
    n: int,
)
    requires
        0 <= n <= sel.len(),
        ws.len() == sel.len(),
        one_column(' '),
        cols_of('…') == 1,
        line_values_plain(t, sel, header, row, o, now),
    ensures
        piece(
            line_cells(t, sel, ws, padding, header, row, o, now, n),
            wsum(ws.take(n)) + (if n > 0 {
                (n - 1) * padding
            } else {
                0int
            }),
        ),
    decreases n,
{
    if n == 0 {
        assert(ws.take(0) =~= Seq::<usize>::empty());
        reveal_with_fuel(visible_cols, 1);
        reveal_with_fuel(escape_after, 1);
    } else {
        lemma_line_cells(t, sel, ws, padding, header, row, o, now, n - 1);
        lemma_wsum_take(ws, n);
        let k = sel[n - 1] as int;
        let column = t.columns[k];
        let cell = line_cell_at(t, header, row, k);
        let w = ws[n - 1] as nat;
        let v = format_value_spec(column, cell, o, now);
        assert(measured_plain(v));
        let last = n == sel.len();
        let padded = !(last && column.alignment == Alignment::Left);
        lemma_cell_fits(v, w, cell, column, o, padded);
        let painted = paint_typed_spec(
            if padded {
                pad_spec(truncate_spec(v, w), w, column.alignment)
            } else {
                truncate_spec(v, w)
            },
            cell,
            column,
            o,
        );
        let gap: Seq<char> = if n == 1 {
            seq![]
        } else {
            spaces(padding)
        };
        lemma_repeat_piece(' ', padding);
        assert(spaces(padding) =~= repeat_char(' ', padding));
        reveal_with_fuel(visible_cols, 1);
        reveal_with_fuel(escape_after, 1);
        assert(piece(gap, if n == 1 { 0int } else { padding as int }));
        lemma_piece_concat(gap, painted, if n == 1 { 0int } else { padding as int }, w as int);
        let before = line_cells(t, sel, ws, padding, header, row, o, now, n - 1);
        assert(line_cells(t, sel, ws, padding, header, row, o, now, n) == before + (gap + painted));
        lemma_piece_concat(
            before,
            gap + painted,
            wsum(ws.take(n - 1)) + (if n - 1 > 0 { (n - 2) * padding } else { 0int }),
            (if n == 1 { 0int } else { padding as int }) + w,
        );
        if n > 1 {
            assert((n - 1) * padding == (n - 2) * padding + padding) by (nonlinear_arith);
        }
    }
}

/// A borderless line fits once its cells and the gaps between them do.
pub proof fn lemma_table_line_fits(
    t: TableV,
    sel: Seq<usize>,
    ws: Seq<usize>,
    padding: nat,
    header: bool,
    row: Seq<CellV>,
    o: RenderOptions,
    now: u64,
)
    requires
        sel.len() > 0,
        ws.len() == sel.len(),
        one_column(' '),
        cols_of('…') == 1,
        line_values_plain(t, sel, header, row, o, now),
        wsum(ws) + (sel.len() - 1) * padding <= o.width,
    ensures
        fits_by_lines(table_line_spec(t, sel, ws, padding, header, row, o, now), o.width as int),
{
    lemma_line_cells(t, sel, ws, padding, header, row, o, now, sel.len() as int);
    assert(ws.take(ws.len() as int) =~= ws);
    lemma_one_line(line_cells(t, sel, ws, padding, header, row, o, now, sel.len() as int), o.width as int);
    assert(table_line_spec(t, sel, ws, padding, header, row, o, now) =~= line_cells(
        t,
        sel,
        ws,
        padding,
        header,
        row,
        o,
        now,
        sel.len() as int,
    ).push('\n'));
}

proof fn lemma_line_rows_fit(
    t: TableV,
    sel: Seq<usize>,
    ws: Seq<usize>,
    padding: nat,
    o: RenderOptions,
    now: u64,
    n: int,
)
    requires
        0 <= n <= t.rows.len(),
        sel.len() > 0,
        ws.len() == sel.len(),
        one_column(' '),
        cols_of('…') == 1,
        forall|r: int| 0 <= r < t.rows.len() ==> line_values_plain(t, sel, false, #[trigger] t.rows[r], o, now),
        wsum(ws) + (sel.len() - 1) * padding <= o.width,
    ensures
        fits_by_lines(line_rows(t, sel, ws, padding, o, now, n), o.width as int),
    decreases n,
{
    if n > 0 {
        lemma_line_rows_fit(t, sel, ws, padding, o, now, n - 1);
        lemma_table_line_fits(t, sel, ws, padding, false, t.rows[n - 1], o, now);
        lemma_lines_concat(
            line_rows(t, sel, ws, padding, o, now, n - 1),
            table_line_spec(t, sel, ws, padding, false, t.rows[n - 1], o, now),
            o.width as int,
        );
    } else {
        assert(lines(Seq::<char>::empty()) =~= Seq::<Seq<char>>::empty());
    }
}

proof fn lemma_compact_rows_fit(t: TableV, k: int, o: RenderOptions, now: u64, n: int)
    requires
        0 <= n <= t.rows.len(),
        0 <= k < t.columns.len(),
        one_column(' '),
        cols_of('…') == 1,
        forall|r: int|
            0 <= r < t.rows.len() && k < t.rows[r].len() ==> measured_plain(
                #[trigger] format_value_spec(t.columns[k], t.rows[r][k], o, now),
            ),
    ensures
        fits_by_lines(compact_rows(t, k, o, now, n), o.width as int),
    decreases n,
{
    if n > 0 {
        lemma_compact_rows_fit(t, k, o, now, n - 1);
        let row = t.rows[n - 1];
        let line: Seq<char> = if 0 <= k < row.len() {
            let cell = row[k];
            let column = t.columns[k];
            let v = format_value_spec(column, cell, o, now);
            assert(measured_plain(v));
            lemma_cell_fits(v, o.width as nat, cell, column, o, false);
            let body = paint_typed_spec(truncate_spec(v, o.width as nat), cell, column, o);
            lemma_one_line(body, o.width as int);
            assert(body + seq!['\n'] =~= body.push('\n'));
            body + seq!['\n']
        } else {
            assert(lines(Seq::<char>::empty()) =~= Seq::<Seq<char>>::empty());
            seq![]
        };
        lemma_lines_concat(compact_rows(t, k, o, now, n - 1), line, o.width as int);
    } else {
        assert(lines(Seq::<char>::empty()) =~= Seq::<Seq<char>>::empty());
    }
}

proof fn lemma_prelude_fits(ls: Seq<Seq<char>>, o: RenderOptions, n: int)
    requires
        0 <= n <= ls.len(),
        cols_of('…') == 1,
        forall|i: int| 0 <= i < ls.len() ==> measured_plain(#[trigger] ls[i]),
    ensures
        fits_by_lines(prelude_spec(ls, o, n), o.width as int),
    decreases n,
{
    if n > 0 {
        lemma_prelude_fits(ls, o, n - 1);
        let c = truncate_spec(ls[n - 1], o.width as nat);
        lemma_truncate_shown(ls[n - 1], o.width as nat);
        lemma_paint_piece(c, Style::Muted, o);
        let body = paint_spec(c, Style::Muted, o);
        lemma_one_line(body, o.width as int);
        assert(body + seq!['\n'] =~= body.push('\n'));
        lemma_lines_concat(prelude_spec(ls, o, n - 1), body + seq!['\n'], o.width as int);
        assert(prelude_spec(ls, o, n) =~= prelude_spec(ls, o, n - 1) + (body + seq!['\n']));
    } else {
        assert(lines(Seq::<char>::empty()) =~= Seq::<Seq<char>>::empty());
    }
}

// ---------------------------------------------------------------------------
// Logs
// ---------------------------------------------------------------------------

/// Whether every text a log record shows is measured plainly (see
/// `measured_plain`): its parts joined, and each part alone.
#[verifier::opaque]
pub open spec fn record_plain(r: LogRecordV) -> bool {
    &&& measured_plain(join(log_parts(r), seq![' ']))
    &&& measured_plain(or_empty(r.timestamp))
    &&& measured_plain(or_empty(r.level))
    &&& measured_plain(r.message)
}

/// The columns the timestamp and level take before a message, with the
/// space after each.
pub open spec fn log_prefix(tw: nat, lw: nat) -> int {
    tw + lw + (if tw > 0 {
        1int
    } else {
        0int
    }) + (if lw > 0 {
        1int
    } else {
        0int
    })
}

proof fn lemma_log_column(v: Seq<char>, w: nat, style: Style, o: RenderOptions)
    requires
        measured_plain(v),
        one_column(' '),
        cols_of('…') == 1,
    ensures
        piece(log_column(v, w, style, o), w + (if w > 0 { 1int } else { 0int })),
{
    reveal_with_fuel(visible_cols, 2);
    reveal_with_fuel(escape_after, 2);
    if w > 0 {
        let c = truncate_spec(v, w);
        lemma_truncate_shown(v, w);
        lemma_pad_shown(c, w, Alignment::Left);
        let p = pad_spec(c, w, Alignment::Left);
        lemma_paint_piece(p, style, o);
        assert(clean(seq![' ']));
        lemma_clean_piece(seq![' ']);
        lemma_piece_concat(paint_spec(p, style, o), seq![' '], w as int, 1);
    }
}

proof fn lemma_log_line_fits(r: LogRecordV, tw: nat, lw: nat, o: RenderOptions)
    requires
        record_plain(r),
        one_column(' '),
        cols_of('…') == 1,
        o.width < o.breakpoints.compact || log_prefix(tw, lw) + 1 <= o.width,
    ensures
        fits_by_lines(log_line_spec(r, tw, lw, o), o.width as int),
{
    reveal(record_plain);
    let w = o.width as int;
    if o.width < o.breakpoints.compact {
        let c = truncate_spec(join(log_parts(r), seq![' ']), o.width as nat);
        lemma_truncate_shown(join(log_parts(r), seq![' ']), o.width as nat);
        lemma_paint_piece(c, r.style, o);
        lemma_one_line(paint_spec(c, r.style, o), w);
        assert(log_line_spec(r, tw, lw, o) =~= paint_spec(c, r.style, o).push('\n'));
    } else {
        let room = message_room(o.width as nat, tw, lw);
        let message_style = if r.level == Some("JSON"@) {
            Style::Info
        } else {
            Style::Plain
        };
        let a = log_column(or_empty(r.timestamp), tw, Style::Muted, o);
        let b = log_column(or_empty(r.level), lw, r.style, o);
        lemma_log_column(or_empty(r.timestamp), tw, Style::Muted, o);
        lemma_log_column(or_empty(r.level), lw, r.style, o);
        let c = truncate_spec(r.message, room);
        lemma_truncate_shown(r.message, room);
        lemma_paint_piece(c, message_style, o);
        let m = paint_spec(c, message_style, o);
        let ta: int = tw + (if tw > 0 { 1int } else { 0int });
        let lb: int = lw + (if lw > 0 { 1int } else { 0int });
        lemma_piece_concat(a, b, ta, lb);
        lemma_piece_concat(a + b, m, ta + lb, room as int);
        lemma_one_line(a + b + m, w);
        assert(log_line_spec(r, tw, lw, o) =~= (a + b + m).push('\n'));
    }
}

proof fn lemma_log_lines_fit(rs: Seq<LogRecordV>, tw: nat, lw: nat, o: RenderOptions, n: int)
    requires
        0 <= n <= rs.len(),
        forall|i: int| 0 <= i < rs.len() ==> record_plain(#[trigger] rs[i]),
        one_column(' '),
        cols_of('…') == 1,
        o.width < o.breakpoints.compact || log_prefix(tw, lw) + 1 <= o.width,
    ensures
        fits_by_lines(log_lines(rs, tw, lw, o, n), o.width as int),
    decreases n,
{
    if n > 0 {
        lemma_log_lines_fit(rs, tw, lw, o, n - 1);
        lemma_log_line_fits(rs[n - 1], tw, lw, o);
        lemma_lines_concat(log_lines(rs, tw, lw, o, n - 1), log_line_spec(rs[n - 1], tw, lw, o), o.width as int);
    } else {
        assert(lines(Seq::<char>::empty()) =~= Seq::<Seq<char>>::empty());
    }
}

// ---------------------------------------------------------------------------
// Every line of a rendered view
// ---------------------------------------------------------------------------

/// Whether every text a table shows is measured plainly (see
/// `measured_plain`): its prelude lines, the labels and values of its
/// columns, and the empty value of a short row.
pub open spec fn table_texts_plain(t: TableV, o: RenderOptions, now: u64) -> bool {
    &&& forall|i: int| 0 <= i < t.prelude.len() ==> measured_plain(#[trigger] t.prelude[i])
    &&& forall|k: int|
        #![trigger t.columns[k]]
        0 <= k < t.columns.len() ==> {
            &&& measured_plain(format_value_spec(t.columns[k], label_cell(t.columns[k], Style::Accent), o, now))
            &&& measured_plain(format_value_spec(t.columns[k], label_cell(t.columns[k], Style::Muted), o, now))
            &&& measured_plain(format_value_spec(t.columns[k], cell_v(seq![], Style::Plain), o, now))
        }
    &&& forall|r: int, k: int|
        0 <= r < t.rows.len() && 0 <= k < t.columns.len() && k < t.rows[r].len() ==> measured_plain(
            format_value_spec(t.columns[k], #[trigger] t.rows[r][k], o, now),
        )
}

/// Whether every text a view shows is measured plainly (see
/// `measured_plain`).
pub open spec fn texts_plain(v: ContentV, o: RenderOptions, now: u64) -> bool {
    match v {
        ContentV::Table(t) => table_texts_plain(t, o, now),
        ContentV::Logs(rs) => forall|i: int| 0 <= i < rs.len() ==> #[trigger] record_plain(rs[i]),
    }
}

/// The widths at which a view's fixed parts fit: one column for a table
/// drawn one line per row, one cell beside the borders and padding for a
/// bordered table, and the timestamp and level columns with one column of
/// message for wide logs.
pub open spec fn leaves_room(v: ContentV, o: RenderOptions) -> bool {
    match v {
        ContentV::Table(t) => t.columns.len() == 0 || t.rows.len() == 0 || compact_borderless(o) || (uses_lines(o)
            && o.width >= 1) || o.width >= overhead_of(1, padding_of(o), o.border_style) + 1,
        ContentV::Logs(rs) => o.width < o.breakpoints.compact || log_prefix(
            capped(widest_timestamp(rs, rs.len() as int), 25),
            capped(widest_level(rs, rs.len() as int), 8),
        ) + 1 <= o.width,
    }
}

proof fn lemma_table_fits(t: TableV, o: RenderOptions, now: u64)
    requires
        table_renders(t, o),
        narrow_glyphs(o.border_style),
        table_texts_plain(t, o, now),
        leaves_room(ContentV::Table(t), o),
    ensures
        fits_by_lines(render_table_spec(t, o, now), o.width as int),
{
    let w = o.width as int;
    let pre = prelude_spec(t.prelude, o, t.prelude.len() as int);
    lemma_prelude_fits(t.prelude, o, t.prelude.len() as int);
    if t.columns.len() > 0 && t.rows.len() > 0 {
        let (sel, ws, p) = layout_spec(t, o, now);
        lemma_layout_shape(t, o, now);
        if compact_borderless(o) {
            let k = sel[0] as int;
            assert forall|r: int|
                0 <= r < t.rows.len() && k < t.rows[r].len() implies measured_plain(
                #[trigger] format_value_spec(t.columns[k], t.rows[r][k], o, now),
            ) by {}
            lemma_compact_rows_fit(t, k, o, now, t.rows.len() as int);
            lemma_lines_concat(pre, compact_rows(t, k, o, now, t.rows.len() as int), w);
        } else if uses_lines(o) {
            lemma_line_layout_fits(t, o, now);
            assert(sel == shown_columns(t.columns, o));
            assert forall|i: int| 0 <= i < sel.len() implies measured_plain(
                #[trigger] format_value_spec(t.columns[sel[i] as int], line_cell_at(t, true, seq![], sel[i] as int), o, now),
            ) by {
                let k = sel[i] as int;
                assert(t.columns[k] == t.columns[k]);
            }
            assert(line_values_plain(t, sel, true, seq![], o, now));
            assert forall|r: int| 0 <= r < t.rows.len() implies line_values_plain(t, sel, false, #[trigger] t.rows[r], o, now) by {
                assert forall|i: int| 0 <= i < sel.len() implies measured_plain(
                    #[trigger] format_value_spec(t.columns[sel[i] as int], line_cell_at(t, false, t.rows[r], sel[i] as int), o, now),
                ) by {
                    let k = sel[i] as int;
                    assert(k < t.rows[r].len());
                    assert(t.rows[r][k] == t.rows[r][k]);
                }
            }
            let head = table_line_spec(t, sel, ws, p, true, seq![], o, now);
            let body = line_rows(t, sel, ws, p, o, now, t.rows.len() as int);
            lemma_table_line_fits(t, sel, ws, p, true, seq![], o, now);
            lemma_line_rows_fit(t, sel, ws, p, o, now, t.rows.len() as int);
            lemma_lines_concat(head, body, w);
            lemma_lines_concat(pre, head + body, w);
            assert(pre + head + body =~= pre + (head + body));
        } else {
            lemma_layout_fits_width(t, o, now);
            assert forall|i: int| 0 <= i < sel.len() implies measured_plain(
                #[trigger] format_value_spec(t.columns[sel[i] as int], bordered_cell_at(t, true, seq![], sel[i] as int), o, now),
            ) by {
                let k = sel[i] as int;
                assert(t.columns[k] == t.columns[k]);
            }
            assert forall|r: int| 0 <= r < t.rows.len() implies bordered_values_plain(t, sel, false, #[trigger] t.rows[r], o, now) by {
                assert forall|i: int| 0 <= i < sel.len() implies measured_plain(
                    #[trigger] format_value_spec(t.columns[sel[i] as int], bordered_cell_at(t, false, t.rows[r], sel[i] as int), o, now),
                ) by {
                    let k = sel[i] as int;
                    assert(t.columns[k] == t.columns[k]);
                    if k < t.rows[r].len() {
                        assert(t.rows[r][k] == t.rows[r][k]);
                    }
                }
            }
            lemma_bordered_table_fits(t, sel, ws, p, o, now);
            lemma_lines_concat(pre, bordered_table_spec(t, sel, ws, p, o, now), w);
        }
    }
}

/// Every line of a rendered view shows at most the width asked for:
/// borders, padding, gaps and cut cells are all counted, and escape
/// sequences take no column. This holds at every width that leaves room
/// for the view's fixed parts, for text whose width as a string is not
/// below the sum of its characters' widths, and where spaces, the ellipsis
/// and the border glyphs take one column each.
pub proof fn lemma_rendered_lines_fit(v: ContentV, o: RenderOptions, now: u64)
    requires
        renders(v, o),
        narrow_glyphs(o.border_style),
        texts_plain(v, o, now),
        leaves_room(v, o),
    ensures
        forall|i: int|
            0 <= i < lines(render_spec(v, o, now)).len() ==> visible_width_spec(
                #[trigger] lines(render_spec(v, o, now))[i],
            ) <= o.width,
{
    match v {
        ContentV::Table(t) => lemma_table_fits(t, o, now),
        ContentV::Logs(rs) => {
            lemma_log_lines_fit(
                rs,
                capped(widest_timestamp(rs, rs.len() as int), 25),
                capped(widest_level(rs, rs.len() as int), 8),
                o,
                rs.len() as int,
            );
        },
    }
}

/// Printable ASCII or the box-drawing block.
spec fn drawn_glyph(c: char) -> bool {
    (0x20 <= (c as u32) < 0x7F) || (0x2500 <= (c as u32) <= 0x257F)
}

proof fn lemma_glyph_codes(style: BorderStyle)
    ensures
        ({
            let g = glyphs_of(style);
            &&& drawn_glyph(g.top_left) && drawn_glyph(g.top_join) && drawn_glyph(g.top_right)
            &&& drawn_glyph(g.middle_left) && drawn_glyph(g.middle_join) && drawn_glyph(g.middle_right)
            &&& drawn_glyph(g.bottom_left) && drawn_glyph(g.bottom_join) && drawn_glyph(g.bottom_right)
            &&& drawn_glyph(g.horizontal) && drawn_glyph(g.vertical)
        }),
{
    match style {
        BorderStyle::Rounded => {},
        BorderStyle::Light => {},
        BorderStyle::Heavy => {},
        BorderStyle::Double => {},
        _ => {},
    }
}

fn takes_one_column(c: char) -> (r: bool)
    ensures
        r == one_column(c),
        drawn_glyph(c) ==> r,
{
    c != '\u{1b}' && c != '\n' && match crate::render::char_width(c) {
        Some(w) => w == 1,
        None => false,
    }
}

/// Whether spaces, the ellipsis and the glyphs of a border style take one
/// column each, as the width tables give them; they always do.
pub fn glyphs_take_one_column(style: BorderStyle) -> (r: bool)
    ensures
        r == narrow_glyphs(style),
        r,
{
    let g = crate::render::border_glyphs(style);
    proof {
        lemma_glyph_codes(style);
    }
    let ellipsis = match crate::render::char_width('…') {
        Some(w) => w == 1,
        None => false,
    };
    takes_one_column(' ') && ellipsis && takes_one_column(g.top_left) && takes_one_column(g.top_join)
        && takes_one_column(g.top_right) && takes_one_column(g.middle_left) && takes_one_column(g.middle_join)
        && takes_one_column(g.middle_right) && takes_one_column(g.bottom_left) && takes_one_column(g.bottom_join)
        && takes_one_column(g.bottom_right) && takes_one_column(g.horizontal) && takes_one_column(g.vertical)
}

// ---------------------------------------------------------------------------
// Checking the conditions
// ---------------------------------------------------------------------------

/// Whether a text is measured plainly (see `measured_plain`), found by
/// measuring each of its prefixes, alone and with an ellipsis after it.
pub fn measures_plainly(s: &[char]) -> (r: bool)
    ensures
        r == measured_plain(s@),
{
    let mut i: usize = 0;
    while i < s.len()
        invariant
            i <= s.len(),
            forall|j: int| 0 <= j < i ==> #[trigger] s@[j] != '\u{1b}' && s@[j] != '\n',
        decreases s.len() - i,
    {
        if s[i] == '\u{1b}' || s[i] == '\n' {
            return false;
        }
        i += 1;
    }
    assert(clean(s@));
    let mut seen: u128 = 0;
    let mut k: usize = 0;
    loop
        invariant
            k <= s.len(),
            clean(s@),
            seen == shown(s@.take(k as int)),
            seen <= 3 * k,
            forall|j: int|
                0 <= j < k ==> shown(#[trigger] s@.take(j)) <= text_width(s@.take(j)) && shown(s@.take(j)) + 1
                    <= text_width(s@.take(j).push('…')),
        decreases s.len() - k,
    {
        let prefix = crate::text::slice_of(s, 0, k);
        assert(prefix@ =~= s@.take(k as int));
        let plain = crate::render::display_width(crate::text::string_of(prefix.as_slice()).as_str());
        let mut cut = prefix;
        cut.push('…');
        let ended = crate::render::display_width(crate::text::string_of(cut.as_slice()).as_str());
        if !(seen <= plain as u128 && seen + 1 <= ended as u128) {
            return false;
        }
        if k == s.len() {
            assert forall|j: int| 0 <= j <= s@.len() implies shown(#[trigger] s@.take(j)) <= text_width(s@.take(j))
                && shown(s@.take(j)) + 1 <= text_width(s@.take(j).push('…')) by {
                if j == k {
                }
            }
            return true;
        }
        let w = match crate::render::char_width(s[k]) {
            Some(w) => w,
            None => 0,
        };
        proof {
            assert(clean(s@.take(k as int)));
            lemma_shown_push(s@.take(k as int), s@[k as int]);
            assert(s@.take(k + 1) =~= s@.take(k as int).push(s@[k as int]));
        }
        seen = seen + w as u128;
        k += 1;
    }
}

/// Whether a view's fixed parts fit at the width asked for (see
/// `leaves_room`).
pub fn has_room(view: &Content, options: &RenderOptions) -> (r: bool)
    ensures
        r == leaves_room(view@, *options),
{
    match view {
        Content::Table(t) => {
            let borderless = options.border_style == BorderStyle::Borderless;
            let p = crate::render::padding_for(options);
            t.columns.len() == 0 || t.rows.len() == 0 || (options.width < options.breakpoints.compact && borderless)
                || ((borderless || options.width < 5) && options.width >= 1) || options.width as u128
                >= crate::render::overhead_for(1, p, options.border_style) + 1
        },
        Content::Logs(records) => {
            if options.width < options.breakpoints.compact {
                return true;
            }
            let (tw, lw) = crate::render::log_widths(records);
            let prefix: u128 = tw as u128 + lw as u128 + (if tw > 0 {
                1u128
            } else {
                0u128
            }) + (if lw > 0 {
                1u128
            } else {
                0u128
            });
            prefix + 1 <= options.width as u128
        },
    }
}

fn value_measures_plainly(column: &Column, cell: &Cell, options: &RenderOptions, now: u64) -> (r: bool)
    ensures
        r == measured_plain(format_value_spec(column@, cell@, *options, now)),
{
    let v = crate::render::format_cell_value(column, cell, options, now);
    measures_plainly(v.as_slice())
}

fn table_measures_plainly(t: &Table, options: &RenderOptions, now: u64) -> (r: bool)
    ensures
        r == table_texts_plain(t@, *options, now),
{
    let ghost tv = t@;
    let mut i: usize = 0;
    while i < t.prelude.len()
        invariant
            i <= t.prelude.len(),
            tv == t@,
            forall|j: int| 0 <= j < i ==> measured_plain(#[trigger] tv.prelude[j]),
        decreases t.prelude.len() - i,
    {
        let c = crate::text::chars_of(t.prelude[i].as_str());
        assert(tv.prelude[i as int] == c@);
        if !measures_plainly(c.as_slice()) {
            return false;
        }
        i += 1;
    }
    let mut k: usize = 0;
    while k < t.columns.len()
        invariant
            k <= t.columns.len(),
            tv == t@,
            forall|j: int|
                #![trigger tv.columns[j]]
                0 <= j < k ==> {
                    &&& measured_plain(format_value_spec(tv.columns[j], label_cell(tv.columns[j], Style::Accent), *options, now))
                    &&& measured_plain(format_value_spec(tv.columns[j], label_cell(tv.columns[j], Style::Muted), *options, now))
                    &&& measured_plain(format_value_spec(tv.columns[j], cell_v(seq![], Style::Plain), *options, now))
                },
        decreases t.columns.len() - k,
    {
        let column = &t.columns[k];
        let label = crate::text::chars_of(column.label.as_str());
        let accent = Cell::from_chars(label.as_slice(), Style::Accent);
        let muted = Cell::from_chars(label.as_slice(), Style::Muted);
        let none: Vec<char> = Vec::new();
        let empty = Cell::from_chars(none.as_slice(), Style::Plain);
        assert(none@ =~= seq![]);
        assert(tv.columns[k as int] == column@);
        if !value_measures_plainly(column, &accent, options, now) || !value_measures_plainly(column, &muted, options, now)
            || !value_measures_plainly(column, &empty, options, now) {
            return false;
        }
        k += 1;
    }
    let mut r: usize = 0;
    while r < t.rows.len()
        invariant
            r <= t.rows.len(),
            tv == t@,
            forall|r2: int, k2: int|
                0 <= r2 < r && 0 <= k2 < tv.columns.len() && k2 < tv.rows[r2].len() ==> measured_plain(
                    format_value_spec(tv.columns[k2], #[trigger] tv.rows[r2][k2], *options, now),
                ),
        decreases t.rows.len() - r,
    {
        let row = &t.rows[r];
        assert(tv.rows[r as int] == crate::model::row_view(*row));
        let mut k: usize = 0;
        while k < t.columns.len() && k < row.len()
            invariant
                k <= t.columns.len(),
                r < t.rows.len(),
                tv == t@,
                row == &t.rows[r as int],
                tv.rows[r as int] == crate::model::row_view(*row),
                forall|k2: int|
                    0 <= k2 < k && k2 < tv.rows[r as int].len() ==> measured_plain(
                        format_value_spec(tv.columns[k2], #[trigger] tv.rows[r as int][k2], *options, now),
                    ),
            decreases t.columns.len() - k,
        {
            assert(tv.columns[k as int] == t.columns[k as int]@);
            assert(tv.rows[r as int][k as int] == row[k as int]@);
            if !value_measures_plainly(&t.columns[k], &row[k], options, now) {
                return false;
            }
            k += 1;
        }
        assert forall|r2: int, k2: int|
            0 <= r2 < r + 1 && 0 <= k2 < tv.columns.len() && k2 < tv.rows[r2].len() implies measured_plain(
                format_value_spec(tv.columns[k2], #[trigger] tv.rows[r2][k2], *options, now),
            ) by {
            if r2 == r {
                assert(k2 < k);
            }
        }
        r += 1;
    }
    true
}

fn record_measures_plainly(record: &LogRecord) -> (r: bool)
    ensures
        r == record_plain(record@),
{
    let ghost rv = record@;
    let mut parts: Vec<Vec<char>> = Vec::new();
    let ts = match &record.timestamp {
        Some(t) => crate::text::chars_of(t.as_str()),
        None => Vec::new(),
    };
    let level = match &record.level {
        Some(l) => crate::text::chars_of(l.as_str()),
        None => Vec::new(),
    };
    assert(ts@ =~= or_empty(rv.timestamp));
    assert(level@ =~= or_empty(rv.level));
    match &record.timestamp {
        Some(t) => crate::text::push_text(&mut parts, crate::text::chars_of(t.as_str())),
        None => {},
    }
    match &record.level {
        Some(l) => crate::text::push_text(&mut parts, crate::text::chars_of(l.as_str())),
        None => {},
    }
    let message = crate::text::chars_of(record.message.as_str());
    crate::text::push_text(&mut parts, crate::text::chars_of(record.message.as_str()));
    assert(parts.deep_view() =~= log_parts(rv));
    let sep = vec![' '];
    assert(sep@ =~= seq![' ']);
    let joined = crate::text::join_with(&parts, sep.as_slice());
    reveal(record_plain);
    measures_plainly(joined.as_slice()) && measures_plainly(ts.as_slice()) && measures_plainly(level.as_slice())
        && measures_plainly(message.as_slice())
}

/// One record with a text that is not measured plainly is enough.
proof fn lemma_some_record_not_plain(rs: Seq<LogRecordV>, o: RenderOptions, now: u64, i: int)
    requires
        0 <= i < rs.len(),
        !record_plain(rs[i]),
    ensures
        !texts_plain(ContentV::Logs(rs), o, now),
{
    let v = ContentV::Logs(rs);
    match v {
        ContentV::Logs(q) => {
            assert(q == rs);
            assert(texts_plain(v, o, now) ==> record_plain(q[i]));
        },
        _ => {},
    }
}

/// Whether every text a view shows is measured plainly (see
/// `texts_plain`).
pub fn texts_measure_plainly(view: &Content, options: &RenderOptions, now: u64) -> (r: bool)
    ensures
        r == texts_plain(view@, *options, now),
{
    match view {
        Content::Table(t) => table_measures_plainly(t, options, now),
        Content::Logs(records) => {
            let ghost rs = records@.map_values(|x: LogRecord| x@);
            assert(view@ == ContentV::Logs(rs));
            let mut i: usize = 0;
            while i < records.len()
                invariant
                    i <= records.len(),
                    view@ == ContentV::Logs(rs),
                    rs == records@.map_values(|x: LogRecord| x@),
                    forall|j: int| 0 <= j < i ==> record_plain(#[trigger] rs[j]),
                decreases records.len() - i,
            {
                assert(rs[i as int] == records[i as int]@);
                if !record_measures_plainly(&records[i]) {
                    assert(view@ == ContentV::Logs(rs));
                    proof {
                        lemma_some_record_not_plain(rs, *options, now, i as int);
                    }
                    return false;
                }
                i += 1;
            }
            true
        },
    }
}

} // verus!

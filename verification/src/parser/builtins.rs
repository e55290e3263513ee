//! Parsers for the output of well-known commands.
use vstd::prelude::*;

use vstd::string::StringSliceAdditionalSpecFns;

use crate::model::{
    cell_v, column_v, row_view, Alignment, Cell, CellV, Column, ColumnV, Content, ContentV,
    Style, Table, TableV, ValueType,
};
use crate::parser::generic::{
    cells_v, lemma_rows_push, rows_view, strip_end_char, strip_leading, strip_start_char,
    strip_trailing, key_of, normalize_key,
};
use crate::parser::util::{
    byte_slice, col, field_at, get_byte_range, is_month_chars, is_permissions_chars, month,
    num_col, permissions, split_limit, split_limit_chars, table, ws_index, first_ws,
};
use crate::text::{
    blank, chars_of, contains_seq, contains_str, copy, eq_str, is_ascii_digit, is_ascii_hexdigit,
    is_ascii_ws, is_ascii_whitespace, is_digit, is_hex, join, join_with, lemma_deep_chars, lines,
    lower, nonblank, nonblank_lines, slice_of, split_lines, split_words, starts_with,
    starts_with_str, string_of, to_lower, to_upper, trim, trim_start, trimmed, trimmed_start,
    upper, words,
};

verus! {

// ---------------------------------------------------------------------------
// Shared shapes
// ---------------------------------------------------------------------------

/// A table without prelude, when there is at least one row.
pub open spec fn table_of(columns: Seq<ColumnV>, rows: Option<Seq<Seq<CellV>>>) -> Option<ContentV> {
    match rows {
        Some(rs) => if rs.len() > 0 {
            Some(ContentV::Table(TableV { columns, rows: rs, prelude: seq![] }))
        } else {
            None
        },
        None => None,
    }
}

pub open spec fn columns_view(cs: Seq<Column>) -> Seq<ColumnV> {
    cs.map_values(|c: Column| c@)
}

/// The first line (empty when there is none).
pub open spec fn first_line(fl: Seq<char>) -> Seq<char> {
    if lines(fl).len() > 0 {
        lines(fl)[0]
    } else {
        seq![]
    }
}

/// Builds the table of a parser from rows of the right width.
fn finish(columns: Vec<Column>, rows: Vec<Vec<Cell>>) -> (r: Option<Content>)
    requires
        forall|i: int| 0 <= i < rows@.len() ==> (#[trigger] rows@[i])@.len() == columns@.len(),
    ensures
        r.is_some() <==> rows@.len() > 0,
        r matches Some(c) ==> c@ == ContentV::Table(
            TableV { columns: columns_view(columns@), rows: rows_view(rows@), prelude: seq![] },
        ),
{
    let ghost cv = columns_view(columns@);
    let ghost rv = rows_view(rows@);
    match table(columns, rows) {
        Some(t) => {
            proof {
                crate::parser::generic::lemma_table_view(t);
                assert(t@.prelude =~= seq![]);
            }
            Some(Content::Table(t))
        },
        None => None,
    }
}

/// Whether some character is an ASCII digit.
fn has_digit(s: &[char]) -> (r: bool)
    ensures
        r == (exists|j: int| 0 <= j < s@.len() && is_digit(#[trigger] s@[j])),
{
    let mut i: usize = 0;
    while i < s.len()
        invariant
            i <= s@.len(),
            forall|j: int| 0 <= j < i ==> !is_digit(#[trigger] s@[j]),
        decreases s@.len() - i,
    {
        if is_ascii_digit(s[i]) {
            return true;
        }
        i += 1;
    }
    false
}

// ---------------------------------------------------------------------------
// du
// ---------------------------------------------------------------------------

/// `du` output: every line starts with a size holding a digit, then a path.
pub open spec fn du_detect(source: Seq<char>, fl: Seq<char>) -> bool {
    let ls = nonblank(lines(fl));
    source == "du"@ && forall|i: int|
        0 <= i < ls.len() ==> {
            let w = #[trigger] words(ls[i]);
            w.len() >= 2 && exists|j: int| 0 <= j < w[0].len() && is_digit(#[trigger] w[0][j])
        }
}

/// The size before the first whitespace and the trimmed path after it.
pub open spec fn du_row(l: Seq<char>) -> Option<Seq<CellV>> {
    let e = ws_index(l, 0);
    if e >= l.len() || trim(l.skip(e)).len() == 0 {
        None
    } else {
        Some(seq![cell_v(l.take(e), Style::Warning), cell_v(trim(l.skip(e)), Style::Accent)])
    }
}

pub open spec fn du_columns() -> Seq<ColumnV> {
    seq![
        column_v("size"@, "SIZE"@, 1, Alignment::Right),
        column_v("path"@, "PATH"@, 0, Alignment::Left),
    ]
}

pub open spec fn du_rows(ls: Seq<Seq<char>>) -> Option<Seq<Seq<CellV>>> {
    if forall|i: int| 0 <= i < ls.len() ==> (#[trigger] du_row(ls[i])).is_some() {
        Some(ls.map_values(|l: Seq<char>| du_row(l).unwrap()))
    } else {
        None
    }
}

pub open spec fn du_parse(input: Seq<char>) -> Option<ContentV> {
    table_of(du_columns(), du_rows(nonblank(lines(input))))
}

pub fn du_detect_exec(source: &[char], first_lines: &[char]) -> (r: bool)
    ensures
        r == du_detect(source@, first_lines@),
{
    if !eq_str(source, "du") {
        return false;
    }
    let ls = nonblank_lines(first_lines);
    let ghost lv = ls.deep_view();
    let mut i: usize = 0;
    while i < ls.len()
        invariant
            i <= ls@.len(),
            lv == ls.deep_view(),
            lv == nonblank(lines(first_lines@)),
            forall|k: int|
                0 <= k < i ==> {
                    let w = #[trigger] words(lv[k]);
                    w.len() >= 2 && exists|j: int| 0 <= j < w[0].len() && is_digit(#[trigger] w[0][j])
                },
        decreases ls@.len() - i,
    {
        proof {
            lemma_deep_chars(&ls@[i as int]);
        }
        let w = split_words(ls[i].as_slice());
        let ghost ww = words(lv[i as int]);
        proof {
            if w@.len() > 0 {
                lemma_deep_chars(&w@[0]);
                assert(w@[0]@ == ww[0]);
            }
        }
        if w.len() < 2 || !has_digit(w[0].as_slice()) {
            assert(!(ww.len() >= 2 && exists|j: int| 0 <= j < ww[0].len() && is_digit(#[trigger] ww[0][j])));
            return false;
        }
        assert(ww.len() >= 2 && exists|j: int| 0 <= j < ww[0].len() && is_digit(#[trigger] ww[0][j]));
        i += 1;
    }
    true
}

fn du_row_exec(l: &[char]) -> (r: Option<Vec<Cell>>)
    ensures
        match r {
            Some(row) => du_row(l@) == Some(row_view(row)) && row@.len() == 2,
            None => du_row(l@).is_none(),
        },
{
    let e = first_ws(l);
    if e >= l.len() {
        return None;
    }
    let rest = slice_of(l, e, l.len());
    let path = trimmed(rest.as_slice());
    assert(rest@ =~= l@.skip(e as int));
    if path.len() == 0 {
        return None;
    }
    let size = slice_of(l, 0, e);
    assert(size@ =~= l@.take(e as int));
    let mut row: Vec<Cell> = Vec::new();
    row.push(Cell::from_chars(size.as_slice(), Style::Warning));
    row.push(Cell::from_chars(path.as_slice(), Style::Accent));
    assert(row_view(row) =~= seq![
        cell_v(l@.take(e as int), Style::Warning),
        cell_v(trim(l@.skip(e as int)), Style::Accent),
    ]);
    Some(row)
}

fn du_columns_exec() -> (r: Vec<Column>)
    ensures
        columns_view(r@) == du_columns(),
{
    let mut c: Vec<Column> = Vec::new();
    c.push(num_col("size", "SIZE", 1));
    c.push(col("path", "PATH", 0));
    assert(columns_view(c@) =~= du_columns());
    c
}

pub fn du_parse_exec(input: &[char]) -> (r: Option<Content>)
    ensures
        crate::model::content_opt_view(r) == du_parse(input@),
{
    let ls = nonblank_lines(input);
    let ghost lv = ls.deep_view();
    let mut rows: Vec<Vec<Cell>> = Vec::new();
    let mut i: usize = 0;
    while i < ls.len()
        invariant
            i <= ls@.len(),
            lv == ls.deep_view(),
            lv == nonblank(lines(input@)),
            forall|j: int| 0 <= j < i ==> (#[trigger] du_row(lv[j])).is_some(),
            rows_view(rows@) == lv.take(i as int).map_values(|l: Seq<char>| du_row(l).unwrap()),
            forall|j: int| 0 <= j < rows@.len() ==> (#[trigger] rows@[j])@.len() == 2,
        decreases ls@.len() - i,
    {
        proof {
            lemma_deep_chars(&ls@[i as int]);
        }
        match du_row_exec(ls[i].as_slice()) {
            Some(row) => {
                proof {
                    lemma_rows_push(rows@, row);
                }
                rows.push(row);
            },
            None => {
                assert(du_row(lv[i as int]).is_none());
                assert(du_rows(lv).is_none());
                return None;
            },
        }
        i += 1;
        assert(lv.take(i as int).map_values(|l: Seq<char>| du_row(l).unwrap()) =~= lv.take(
            i - 1,
        ).map_values(|l: Seq<char>| du_row(l).unwrap()).push(du_row(lv[i - 1]).unwrap()));
    }
    assert(lv.take(ls@.len() as int) =~= lv);
    let columns = du_columns_exec();
    assert(columns@.len() == columns_view(columns@).len());
    finish(columns, rows)
}

// ---------------------------------------------------------------------------
// git log --oneline
// ---------------------------------------------------------------------------

/// A line that starts with a hexadecimal hash of 7 to 64 digits and a
/// whitespace character.
pub open spec fn hash_line(l: Seq<char>) -> bool {
    let e = ws_index(l, 0);
    e < l.len() && 7 <= e <= 64 && forall|j: int| 0 <= j < e ==> is_hex(#[trigger] l[j])
}

pub open spec fn git_log_detect(source: Seq<char>, fl: Seq<char>) -> bool {
    let ls = nonblank(lines(fl));
    source == "git"@ && forall|i: int| 0 <= i < ls.len() ==> #[trigger] hash_line(ls[i])
}

/// The text before the first whitespace character, and the trimmed rest.
pub open spec fn git_log_row(l: Seq<char>) -> Option<Seq<CellV>> {
    let e = ws_index(l, 0);
    if e < l.len() {
        Some(seq![cell_v(l.take(e), Style::Accent), cell_v(trim(l.skip(e + 1)), Style::Plain)])
    } else {
        None
    }
}

proof fn lemma_ws_index_scan(l: Seq<char>, i: int)
    requires
        0 <= i <= l.len(),
        forall|j: int| 0 <= j < i ==> !crate::text::is_ws(#[trigger] l[j]),
    ensures
        i <= ws_index(l, i) <= l.len(),
        ws_index(l, i) < l.len() ==> crate::text::is_ws(l[ws_index(l, i)]),
        forall|j: int| 0 <= j < ws_index(l, i) ==> !crate::text::is_ws(#[trigger] l[j]),
    decreases l.len() - i,
{
    if i < l.len() && !crate::text::is_ws(l[i]) {
        lemma_ws_index_scan(l, i + 1);
    }
}

/// A one-line log entry splits at its first whitespace: the commit is the
/// text before it, which holds no whitespace, and the subject is the rest
/// after that one character, trimmed; so the commit, the whitespace and the
/// untrimmed subject put back together give the line. A line without
/// whitespace is no entry.
pub proof fn lemma_git_log_splits_at_first_space(l: Seq<char>)
    ensures
        git_log_row(l) matches Some(row) ==> {
            let h = row[0].text;
            &&& row.len() == 2
            &&& h.len() < l.len()
            &&& forall|j: int| 0 <= j < h.len() ==> !crate::text::is_ws(#[trigger] h[j])
            &&& crate::text::is_ws(l[h.len() as int])
            &&& h + seq![l[h.len() as int]] + l.skip(h.len() as int + 1) == l
            &&& row[1].text == trim(l.skip(h.len() as int + 1))
        },
        git_log_row(l) is None <==> forall|j: int| 0 <= j < l.len() ==> !crate::text::is_ws(#[trigger] l[j]),
{
    lemma_ws_index_scan(l, 0);
    let e = ws_index(l, 0);
    if e < l.len() {
        assert(l.take(e) + seq![l[e]] + l.skip(e + 1) =~= l);
        assert(l.take(e).len() == e);
    }
}

pub open spec fn git_log_rows(ls: Seq<Seq<char>>) -> Option<Seq<Seq<CellV>>> {
    if forall|i: int| 0 <= i < ls.len() ==> (#[trigger] git_log_row(ls[i])).is_some() {
        Some(ls.map_values(|l: Seq<char>| git_log_row(l).unwrap()))
    } else {
        None
    }
}

pub open spec fn git_log_columns() -> Seq<ColumnV> {
    seq![
        column_v("commit"@, "COMMIT"@, 1, Alignment::Left),
        column_v("subject"@, "SUBJECT"@, 0, Alignment::Left),
    ]
}

pub open spec fn git_log_parse(input: Seq<char>) -> Option<ContentV> {
    table_of(git_log_columns(), git_log_rows(nonblank(lines(input))))
}

fn hash_line_exec(l: &[char]) -> (r: bool)
    ensures
        r == hash_line(l@),
{
    let e = first_ws(l);
    if e >= l.len() || e < 7 || e > 64 {
        return false;
    }
    let mut j: usize = 0;
    while j < e
        invariant
            j <= e < l@.len(),
            e as int == ws_index(l@, 0),
            7 <= e <= 64,
            forall|k: int| 0 <= k < j ==> is_hex(#[trigger] l@[k]),
        decreases e - j,
    {
        if !is_ascii_hexdigit(l[j]) {
            return false;
        }
        j += 1;
    }
    true
}

pub fn git_log_detect_exec(source: &[char], first_lines: &[char]) -> (r: bool)
    ensures
        r == git_log_detect(source@, first_lines@),
{
    if !eq_str(source, "git") {
        return false;
    }
    let ls = nonblank_lines(first_lines);
    let ghost lv = ls.deep_view();
    let mut i: usize = 0;
    while i < ls.len()
        invariant
            i <= ls@.len(),
            lv == ls.deep_view(),
            lv == nonblank(lines(first_lines@)),
            forall|k: int| 0 <= k < i ==> #[trigger] hash_line(lv[k]),
        decreases ls@.len() - i,
    {
        proof {
            lemma_deep_chars(&ls@[i as int]);
        }
        if !hash_line_exec(ls[i].as_slice()) {
            assert(!hash_line(lv[i as int]));
            return false;
        }
        i += 1;
    }
    true
}

fn git_log_row_exec(l: &[char]) -> (r: Option<Vec<Cell>>)
    ensures
        match r {
            Some(row) => git_log_row(l@) == Some(row_view(row)) && row@.len() == 2,
            None => git_log_row(l@).is_none(),
        },
{
    let e = first_ws(l);
    if e >= l.len() {
        return None;
    }
    let hash = slice_of(l, 0, e);
    let rest = slice_of(l, e + 1, l.len());
    let subject = trimmed(rest.as_slice());
    assert(hash@ =~= l@.take(e as int));
    assert(rest@ =~= l@.skip(e + 1));
    let mut row: Vec<Cell> = Vec::new();
    row.push(Cell::from_chars(hash.as_slice(), Style::Accent));
    row.push(Cell::from_chars(subject.as_slice(), Style::Plain));
    assert(row_view(row) =~= seq![
        cell_v(l@.take(e as int), Style::Accent),
        cell_v(trim(l@.skip(e + 1)), Style::Plain),
    ]);
    Some(row)
}

pub fn git_log_parse_exec(input: &[char]) -> (r: Option<Content>)
    ensures
        crate::model::content_opt_view(r) == git_log_parse(input@),
{
    let ls = nonblank_lines(input);
    let ghost lv = ls.deep_view();
    let mut rows: Vec<Vec<Cell>> = Vec::new();
    let mut i: usize = 0;
    while i < ls.len()
        invariant
            i <= ls@.len(),
            lv == ls.deep_view(),
            lv == nonblank(lines(input@)),
            forall|j: int| 0 <= j < i ==> (#[trigger] git_log_row(lv[j])).is_some(),
            rows_view(rows@) == lv.take(i as int).map_values(|l: Seq<char>| git_log_row(l).unwrap()),
            forall|j: int| 0 <= j < rows@.len() ==> (#[trigger] rows@[j])@.len() == 2,
        decreases ls@.len() - i,
    {
        proof {
            lemma_deep_chars(&ls@[i as int]);
        }
        match git_log_row_exec(ls[i].as_slice()) {
            Some(row) => {
                proof {
                    lemma_rows_push(rows@, row);
                }
                rows.push(row);
            },
            None => {
                assert(git_log_row(lv[i as int]).is_none());
                assert(git_log_rows(lv).is_none());
                return None;
            },
        }
        i += 1;
        assert(lv.take(i as int).map_values(|l: Seq<char>| git_log_row(l).unwrap()) =~= lv.take(
            i - 1,
        ).map_values(|l: Seq<char>| git_log_row(l).unwrap()).push(git_log_row(lv[i - 1]).unwrap()));
    }
    assert(lv.take(ls@.len() as int) =~= lv);
    let mut columns: Vec<Column> = Vec::new();
    columns.push(col("commit", "COMMIT", 1));
    columns.push(col("subject", "SUBJECT", 0));
    assert(columns_view(columns@) =~= git_log_columns());
    finish(columns, rows)
}

// ---------------------------------------------------------------------------
// git status --short
// ---------------------------------------------------------------------------

pub open spec fn status_char(c: char) -> bool {
    c == ' ' || c == 'M' || c == 'A' || c == 'D' || c == 'R' || c == 'C' || c == 'U' || c == '?'
        || c == '!'
}

/// Two status characters, a whitespace character and at least one more.
pub open spec fn status_line(l: Seq<char>) -> bool {
    l.len() >= 4 && status_char(l[0]) && status_char(l[1]) && is_ascii_ws(l[2])
}

pub open spec fn git_status_detect(source: Seq<char>, fl: Seq<char>) -> bool {
    let ls = lines(fl);
    source == "git"@ && forall|i: int| 0 <= i < ls.len() && (#[trigger] ls[i]).len() > 0 ==> status_line(ls[i])
}

/// The lines that are not empty.
pub open spec fn nonempty(ls: Seq<Seq<char>>) -> Seq<Seq<char>>
    decreases ls.len(),
{
    if ls.len() == 0 {
        seq![]
    } else if ls.last().len() == 0 {
        nonempty(ls.drop_last())
    } else {
        nonempty(ls.drop_last()).push(ls.last())
    }
}

pub open spec fn status_style(st: Seq<char>) -> Style {
    if st.contains('?') || st.contains('A') {
        Style::Good
    } else if st.contains('D') || st.contains('U') {
        Style::Error
    } else {
        Style::Warning
    }
}

/// The first two bytes as the status and the trimmed text from the fourth
/// byte on as the path, when both fall on character boundaries.
pub open spec fn git_status_row(l: Seq<char>) -> Option<Seq<CellV>> {
    let n = vstd::utf8::encode_utf8(l).len() as int;
    match (byte_slice(l, 0, 2), byte_slice(l, 3, n)) {
        (Some(st), Some(p)) => Some(seq![cell_v(st, status_style(st)), cell_v(trim(p), Style::Plain)]),
        _ => None,
    }
}

pub open spec fn git_status_rows(ls: Seq<Seq<char>>) -> Option<Seq<Seq<CellV>>> {
    if forall|i: int| 0 <= i < ls.len() ==> (#[trigger] git_status_row(ls[i])).is_some() {
        Some(ls.map_values(|l: Seq<char>| git_status_row(l).unwrap()))
    } else {
        None
    }
}

pub open spec fn git_status_columns() -> Seq<ColumnV> {
    seq![
        column_v("status"@, "STATUS"@, 1, Alignment::Left),
        column_v("path"@, "PATH"@, 0, Alignment::Left),
    ]
}

pub open spec fn git_status_parse(input: Seq<char>) -> Option<ContentV> {
    table_of(git_status_columns(), git_status_rows(nonempty(lines(input))))
}

fn status_char_exec(c: char) -> (r: bool)
    ensures
        r == status_char(c),
{
    c == ' ' || c == 'M' || c == 'A' || c == 'D' || c == 'R' || c == 'C' || c == 'U' || c == '?'
        || c == '!'
}

pub fn git_status_detect_exec(source: &[char], first_lines: &[char]) -> (r: bool)
    ensures
        r == git_status_detect(source@, first_lines@),
{
    if !eq_str(source, "git") {
        return false;
    }
    let ls = split_lines(first_lines);
    let ghost lv = ls.deep_view();
    let mut i: usize = 0;
    while i < ls.len()
        invariant
            i <= ls@.len(),
            lv == ls.deep_view(),
            lv == lines(first_lines@),
            forall|k: int| 0 <= k < i && (#[trigger] lv[k]).len() > 0 ==> status_line(lv[k]),
        decreases ls@.len() - i,
    {
        proof {
            lemma_deep_chars(&ls@[i as int]);
        }
        let l = ls[i].as_slice();
        if l.len() > 0 {
            let ok = l.len() >= 4 && status_char_exec(l[0]) && status_char_exec(l[1])
                && is_ascii_whitespace(l[2]);
            if !ok {
                assert(lv[i as int].len() > 0 && !status_line(lv[i as int]));
                return false;
            }
        }
        i += 1;
    }
    true
}

/// The lines that are not empty.
pub fn nonempty_lines(s: &[char]) -> (r: Vec<Vec<char>>)
    ensures
        r.deep_view() == nonempty(lines(s@)),
{
    let all = split_lines(s);
    let mut out: Vec<Vec<char>> = Vec::new();
    let mut i: usize = 0;
    while i < all.len()
        invariant
            i <= all@.len(),
            all.deep_view() == lines(s@),
            out.deep_view() == nonempty(all.deep_view().take(i as int)),
        decreases all@.len() - i,
    {
        assert(all.deep_view().take(i + 1).drop_last() =~= all.deep_view().take(i as int));
        proof {
            lemma_deep_chars(&all@[i as int]);
        }
        if all[i].len() > 0 {
            let ghost before = out.deep_view();
            let line = copy(all[i].as_slice());
            proof {
                lemma_deep_chars(&line);
            }
            out.push(line);
            assert(out.deep_view() =~= before.push(all.deep_view()[i as int]));
        }
        i += 1;
    }
    assert(all.deep_view().take(all@.len() as int) =~= all.deep_view());
    out
}

fn status_style_exec(st: &[char]) -> (r: Style)
    ensures
        r == status_style(st@),
{
    if crate::text::has_char(st, '?') || crate::text::has_char(st, 'A') {
        Style::Good
    } else if crate::text::has_char(st, 'D') || crate::text::has_char(st, 'U') {
        Style::Error
    } else {
        Style::Warning
    }
}

fn git_status_row_exec(l: &[char]) -> (r: Option<Vec<Cell>>)
    ensures
        match r {
            Some(row) => git_status_row(l@) == Some(row_view(row)) && row@.len() == 2,
            None => git_status_row(l@).is_none(),
        },
{
    let s = string_of(l);
    let text = s.as_str();
    let n = text.as_bytes().len();
    assert(text@ == l@);
    assert(text.spec_bytes() == vstd::utf8::encode_utf8(text@));
    assert(n as int == vstd::utf8::encode_utf8(l@).len());
    let status = get_byte_range(text, 0, 2);
    let path = get_byte_range(text, 3, n);
    if status.is_none() || path.is_none() {
        return None;
    }
    match (status, path) {
        (Some(st), Some(p)) => {
            let pt = trimmed(p.as_slice());
            let style = status_style_exec(st.as_slice());
            let mut row: Vec<Cell> = Vec::new();
            row.push(Cell::from_chars(st.as_slice(), style));
            row.push(Cell::from_chars(pt.as_slice(), Style::Plain));
            assert(row_view(row) =~= seq![
                cell_v(st@, status_style(st@)),
                cell_v(trim(p@), Style::Plain),
            ]);
            Some(row)
        },
        _ => None,
    }
}

pub fn git_status_parse_exec(input: &[char]) -> (r: Option<Content>)
    ensures
        crate::model::content_opt_view(r) == git_status_parse(input@),
{
    let ls = nonempty_lines(input);
    let ghost lv = ls.deep_view();
    let mut rows: Vec<Vec<Cell>> = Vec::new();
    let mut i: usize = 0;
    while i < ls.len()
        invariant
            i <= ls@.len(),
            lv == ls.deep_view(),
            lv == nonempty(lines(input@)),
            forall|j: int| 0 <= j < i ==> (#[trigger] git_status_row(lv[j])).is_some(),
            rows_view(rows@) == lv.take(i as int).map_values(
                |l: Seq<char>| git_status_row(l).unwrap(),
            ),
            forall|j: int| 0 <= j < rows@.len() ==> (#[trigger] rows@[j])@.len() == 2,
        decreases ls@.len() - i,
    {
        proof {
            lemma_deep_chars(&ls@[i as int]);
        }
        match git_status_row_exec(ls[i].as_slice()) {
            Some(row) => {
                proof {
                    lemma_rows_push(rows@, row);
                }
                rows.push(row);
            },
            None => {
                assert(git_status_row(lv[i as int]).is_none());
                assert(git_status_rows(lv).is_none());
                return None;
            },
        }
        i += 1;
        assert(lv.take(i as int).map_values(|l: Seq<char>| git_status_row(l).unwrap()) =~= lv.take(
            i - 1,
        ).map_values(|l: Seq<char>| git_status_row(l).unwrap()).push(
            git_status_row(lv[i - 1]).unwrap(),
        ));
    }
    assert(lv.take(ls@.len() as int) =~= lv);
    let mut columns: Vec<Column> = Vec::new();
    columns.push(col("status", "STATUS", 1));
    columns.push(col("path", "PATH", 0));
    assert(columns_view(columns@) =~= git_status_columns());
    finish(columns, rows)
}

// ---------------------------------------------------------------------------
// ls -l
// ---------------------------------------------------------------------------

/// A column description with the given value type.
pub open spec fn typed(c: ColumnV, value_type: ValueType) -> ColumnV {
    ColumnV {
        key: c.key,
        label: c.label,
        priority: c.priority,
        alignment: c.alignment,
        value_type,
    }
}

/// A line whose first word is a permission string.
pub open spec fn mode_line(l: Seq<char>) -> bool {
    words(l).len() > 0 && permissions(words(l)[0])
}

pub open spec fn ls_detect(source: Seq<char>, fl: Seq<char>) -> bool {
    source == "ls"@ && exists|i: int| 0 <= i < lines(fl).len() && #[trigger] mode_line(lines(fl)[i])
}

/// The index of the first month name at or after `k`.
pub open spec fn first_month_from(t: Seq<Seq<char>>, k: int) -> Option<int>
    decreases t.len() - k,
{
    if k < 0 || k >= t.len() {
        None
    } else if month(t[k]) {
        Some(k)
    } else {
        first_month_from(t, k + 1)
    }
}

pub enum LsLine {
    Prelude(Seq<char>),
    Row(Seq<CellV>),
    Bad,
}

pub open spec fn name_style(mode: Seq<char>) -> Style {
    if mode.len() > 0 && mode[0] == 'd' {
        Style::Accent
    } else if mode.len() > 0 && mode[0] == 'l' {
        Style::Info
    } else {
        Style::Plain
    }
}

/// The row of a long listing whose first month name is word `m`.
pub open spec fn ls_row(t: Seq<Seq<char>>, m: int) -> Seq<CellV> {
    seq![
        cell_v(t[0], Style::Muted),
        cell_v(t[1], Style::Plain),
        cell_v(t[2], Style::Plain),
        cell_v(t[3], Style::Plain),
        cell_v(t[m - 1], Style::Warning),
        cell_v(join(t.subrange(m, m + 3), " "@), Style::Plain),
        cell_v(join(t.skip(m + 3), " "@), name_style(t[0])),
    ]
}

/// A `total` line goes to the prelude; any other line must be a full entry.
pub open spec fn ls_line(l: Seq<char>) -> LsLine {
    if starts_with(trim_start(l), "total "@) {
        LsLine::Prelude(trim(l))
    } else {
        let t = words(l);
        if t.len() < 9 || !permissions(t[0]) {
            LsLine::Bad
        } else {
            match first_month_from(t, 0) {
                Some(m) => if m >= 5 && m + 3 < t.len() {
                    LsLine::Row(ls_row(t, m))
                } else {
                    LsLine::Bad
                },
                None => LsLine::Bad,
            }
        }
    }
}

/// Rows and prelude lines of the given lines, or `None` at a bad line.
pub open spec fn ls_fold(ls: Seq<Seq<char>>) -> Option<(Seq<Seq<CellV>>, Seq<Seq<char>>)>
    decreases ls.len(),
{
    if ls.len() == 0 {
        Some((seq![], seq![]))
    } else {
        match ls_fold(ls.drop_last()) {
            Some(acc) => match ls_line(ls.last()) {
                LsLine::Prelude(p) => Some((acc.0, acc.1.push(p))),
                LsLine::Row(r) => Some((acc.0.push(r), acc.1)),
                LsLine::Bad => None,
            },
            None => None,
        }
    }
}

pub open spec fn ls_columns() -> Seq<ColumnV> {
    seq![
        typed(column_v("mode"@, "MODE"@, 2, Alignment::Left), ValueType::Permissions),
        column_v("links"@, "LINKS"@, 3, Alignment::Right),
        column_v("owner"@, "OWNER"@, 2, Alignment::Left),
        column_v("group"@, "GROUP"@, 3, Alignment::Left),
        column_v("size"@, "SIZE"@, 1, Alignment::Right),
        typed(column_v("modified"@, "MODIFIED"@, 1, Alignment::Left), ValueType::Timestamp),
        column_v("name"@, "NAME"@, 0, Alignment::Left),
    ]
}

pub open spec fn ls_parse(input: Seq<char>) -> Option<ContentV> {
    match ls_fold(nonblank(lines(input))) {
        Some(acc) => if acc.0.len() > 0 {
            Some(ContentV::Table(TableV { columns: ls_columns(), rows: acc.0, prelude: acc.1 }))
        } else {
            None
        },
        None => None,
    }
}

proof fn lemma_first_month(t: Seq<Seq<char>>, k: int, m: int)
    requires
        0 <= k <= m < t.len(),
        month(t[m]),
        forall|j: int| k <= j < m ==> !month(#[trigger] t[j]),
    ensures
        first_month_from(t, k) == Some(m),
    decreases m - k,
{
    if k < m {
        lemma_first_month(t, k + 1, m);
    }
}

/// Each cell of a long-listing row sits under the column its words belong
/// to: the mode is the first word, the link count the second, the owner the
/// third and the group the fourth; the size is the word just before the
/// first month name, the modification time that month name and the two
/// words after it, and the name every word after those. The row has a cell
/// for every column.
pub proof fn lemma_ls_cells_under_their_columns(l: Seq<char>)
    ensures
        ls_line(l) matches LsLine::Row(r) ==> {
            &&& r.len() == ls_columns().len()
            &&& forall|i: int|
                0 <= i < r.len() ==> {
                    &&& ls_columns()[i].key == "mode"@ ==> r[i].text == words(l)[0]
                    &&& ls_columns()[i].key == "links"@ ==> r[i].text == words(l)[1]
                    &&& ls_columns()[i].key == "owner"@ ==> r[i].text == words(l)[2]
                    &&& ls_columns()[i].key == "group"@ ==> r[i].text == words(l)[3]
                }
            &&& forall|m: int|
                0 <= m < words(l).len() && month(#[trigger] words(l)[m]) && (forall|j: int|
                    0 <= j < m ==> !month(#[trigger] words(l)[j])) ==> {
                    &&& forall|i: int|
                        0 <= i < r.len() && ls_columns()[i].key == "size"@ ==> r[i].text == words(l)[m - 1]
                    &&& forall|i: int|
                        0 <= i < r.len() && ls_columns()[i].key == "modified"@ ==> r[i].text == join(
                            words(l).subrange(m, m + 3),
                            " "@,
                        )
                    &&& forall|i: int|
                        0 <= i < r.len() && ls_columns()[i].key == "name"@ ==> r[i].text == join(
                            words(l).skip(m + 3),
                            " "@,
                        )
                }
        },
{
    let t = words(l);
    assert forall|m: int|
        0 <= m < t.len() && month(#[trigger] t[m]) && (forall|j: int| 0 <= j < m ==> !month(#[trigger] t[j]))
            implies first_month_from(t, 0) == Some(m) by {
        lemma_first_month(t, 0, m);
    }
    reveal_strlit("mode");
    reveal_strlit("links");
    reveal_strlit("owner");
    reveal_strlit("group");
    reveal_strlit("size");
    reveal_strlit("modified");
    reveal_strlit("name");
    let c = ls_columns();
    assert(c[0].key == "mode"@ && c[1].key == "links"@ && c[2].key == "owner"@ && c[3].key == "group"@);
    assert(c[4].key == "size"@ && c[5].key == "modified"@ && c[6].key == "name"@);
    assert("mode"@[0] != "links"@[0] && "mode"@[0] != "owner"@[0] && "mode"@[0] != "group"@[0]);
    assert("links"@[0] != "owner"@[0] && "links"@[0] != "group"@[0] && "owner"@[0] != "group"@[0]);
    assert("size"@[0] != "mode"@[0] && "size"@[0] != "links"@[0] && "size"@[0] != "owner"@[0] && "size"@[0] != "group"@[0]);
    assert("modified"@.len() != "mode"@.len() && "modified"@[0] != "links"@[0] && "modified"@[0] != "owner"@[0] && "modified"@[0] != "group"@[0]);
    assert("name"@[0] != "mode"@[0] && "name"@[0] != "links"@[0] && "name"@[0] != "owner"@[0] && "name"@[0] != "group"@[0]);
    assert("size"@[0] != "modified"@[0] && "size"@[0] != "name"@[0] && "modified"@.len() != "name"@.len());
}

pub fn ls_detect_exec(source: &[char], first_lines: &[char]) -> (r: bool)
    ensures
        r == ls_detect(source@, first_lines@),
{
    if !eq_str(source, "ls") {
        return false;
    }
    let ls = split_lines(first_lines);
    let ghost lv = ls.deep_view();
    let mut i: usize = 0;
    while i < ls.len()
        invariant
            i <= ls@.len(),
            lv == ls.deep_view(),
            lv == lines(first_lines@),
            source@ == "ls"@,
            forall|k: int| 0 <= k < i ==> !#[trigger] mode_line(lv[k]),
        decreases ls@.len() - i,
    {
        proof {
            lemma_deep_chars(&ls@[i as int]);
        }
        let w = split_words(ls[i].as_slice());
        if w.len() > 0 {
            proof {
                lemma_deep_chars(&w@[0]);
            }
            if is_permissions_chars(w[0].as_slice()) {
                assert(w.deep_view()[0] == w@[0]@);
                assert(mode_line(lines(first_lines@)[i as int]));
                return true;
            }
        }
        i += 1;
    }
    false
}

/// The words `a..b`.
fn words_range(t: &Vec<Vec<char>>, a: usize, b: usize) -> (r: Vec<Vec<char>>)
    requires
        a <= b <= t@.len(),
    ensures
        r.deep_view() == t.deep_view().subrange(a as int, b as int),
{
    let mut out: Vec<Vec<char>> = Vec::new();
    let mut k: usize = a;
    while k < b
        invariant
            a <= k <= b <= t@.len(),
            out.deep_view() == t.deep_view().subrange(a as int, k as int),
        decreases b - k,
    {
        let w = copy(t[k].as_slice());
        let ghost before = out.deep_view();
        proof {
            lemma_deep_chars(&w);
            lemma_deep_chars(&t@[k as int]);
        }
        out.push(w);
        assert(out.deep_view() =~= before.push(t.deep_view()[k as int]));
        k += 1;
        assert(t.deep_view().subrange(a as int, k as int) =~= before.push(t.deep_view()[k - 1]));
    }
    out
}

fn first_month(t: &Vec<Vec<char>>) -> (r: Option<usize>)
    ensures
        match r {
            Some(m) => first_month_from(t.deep_view(), 0) == Some(m as int),
            None => first_month_from(t.deep_view(), 0).is_none(),
        },
{
    let ghost tv = t.deep_view();
    let mut k: usize = 0;
    while k < t.len()
        invariant
            k <= t@.len(),
            tv == t.deep_view(),
            first_month_from(tv, 0) == first_month_from(tv, k as int),
        decreases t@.len() - k,
    {
        proof {
            lemma_deep_chars(&t@[k as int]);
        }
        if is_month_chars(t[k].as_slice()) {
            return Some(k);
        }
        k += 1;
    }
    None
}

enum LsItem {
    Prelude(Vec<char>),
    Row(Vec<Cell>),
    Bad,
}

spec fn ls_item_view(item: LsItem) -> LsLine {
    match item {
        LsItem::Prelude(p) => LsLine::Prelude(p@),
        LsItem::Row(r) => LsLine::Row(row_view(r)),
        LsItem::Bad => LsLine::Bad,
    }
}

fn ls_line_exec(l: &[char]) -> (r: LsItem)
    ensures
        ls_item_view(r) == ls_line(l@),
        r matches LsItem::Row(row) ==> row@.len() == 7,
{
    let start = trimmed_start(l);
    if starts_with_str(start.as_slice(), "total ") {
        return LsItem::Prelude(trimmed(l));
    }
    let t = split_words(l);
    let ghost tv = t.deep_view();
    if t.len() < 9 {
        return LsItem::Bad;
    }
    proof {
        lemma_deep_chars(&t@[0]);
    }
    if !is_permissions_chars(t[0].as_slice()) {
        return LsItem::Bad;
    }
    let m = match first_month(&t) {
        Some(m) => m,
        None => {
            return LsItem::Bad;
        },
    };
    if m < 5 || m >= t.len() - 3 {
        return LsItem::Bad;
    }
    let space = chars_of(" ");
    let modified = join_with(&words_range(&t, m, m + 3), space.as_slice());
    let name = join_with(&words_range(&t, m + 3, t.len()), space.as_slice());
    let style = if t[0].len() > 0 && t[0][0] == 'd' {
        Style::Accent
    } else if t[0].len() > 0 && t[0][0] == 'l' {
        Style::Info
    } else {
        Style::Plain
    };
    proof {
        lemma_deep_chars(&t@[1]);
        lemma_deep_chars(&t@[2]);
        lemma_deep_chars(&t@[3]);
        lemma_deep_chars(&t@[m - 1]);
        assert(tv.skip(m + 3) =~= tv.subrange(m + 3, tv.len() as int));
    }
    let mut row: Vec<Cell> = Vec::new();
    row.push(Cell::from_chars(t[0].as_slice(), Style::Muted));
    row.push(Cell::from_chars(t[1].as_slice(), Style::Plain));
    row.push(Cell::from_chars(t[2].as_slice(), Style::Plain));
    row.push(Cell::from_chars(t[3].as_slice(), Style::Plain));
    row.push(Cell::from_chars(t[m - 1].as_slice(), Style::Warning));
    row.push(Cell::from_chars(modified.as_slice(), Style::Plain));
    row.push(Cell::from_chars(name.as_slice(), style));
    assert(row_view(row) =~= ls_row(tv, m as int));
    LsItem::Row(row)
}

fn ls_columns_exec() -> (r: Vec<Column>)
    ensures
        columns_view(r@) == ls_columns(),
{
    let mut c: Vec<Column> = Vec::new();
    c.push(col("mode", "MODE", 2).with_value_type(ValueType::Permissions));
    c.push(num_col("links", "LINKS", 3));
    c.push(col("owner", "OWNER", 2));
    c.push(col("group", "GROUP", 3));
    c.push(num_col("size", "SIZE", 1));
    c.push(col("modified", "MODIFIED", 1).with_value_type(ValueType::Timestamp));
    c.push(col("name", "NAME", 0));
    assert(columns_view(c@) =~= ls_columns());
    c
}

pub fn ls_parse_exec(input: &[char]) -> (r: Option<Content>)
    ensures
        crate::model::content_opt_view(r) == ls_parse(input@),
{
    let ls = nonblank_lines(input);
    let ghost lv = ls.deep_view();
    let mut rows: Vec<Vec<Cell>> = Vec::new();
    let mut prelude: Vec<String> = Vec::new();
    let mut i: usize = 0;
    while i < ls.len()
        invariant
            i <= ls@.len(),
            lv == ls.deep_view(),
            lv == nonblank(lines(input@)),
            ls_fold(lv.take(i as int)) == Some(
                (rows_view(rows@), prelude@.map_values(|p: String| p@)),
            ),
            forall|j: int| 0 <= j < rows@.len() ==> (#[trigger] rows@[j])@.len() == 7,
        decreases ls@.len() - i,
    {
        proof {
            lemma_deep_chars(&ls@[i as int]);
        }
        assert(lv.take(i + 1).drop_last() =~= lv.take(i as int));
        assert(lv.take(i + 1).last() == lv[i as int]);
        match ls_line_exec(ls[i].as_slice()) {
            LsItem::Prelude(p) => {
                let ghost before = prelude@;
                prelude.push(string_of(p.as_slice()));
                assert(prelude@.map_values(|q: String| q@) =~= before.map_values(|q: String| q@).push(
                    p@,
                ));
            },
            LsItem::Row(row) => {
                proof {
                    lemma_rows_push(rows@, row);
                }
                rows.push(row);
            },
            LsItem::Bad => {
                assert(ls_fold(lv.take(i + 1)).is_none());
                proof {
                    lemma_ls_fold_none(lv, i as int + 1);
                }
                assert(lv.take(lv.len() as int) =~= lv);
                return None;
            },
        }
        i += 1;
    }
    assert(lv.take(ls@.len() as int) =~= lv);
    if rows.len() == 0 {
        return None;
    }
    let columns = ls_columns_exec();
    assert(columns@.len() == columns_view(columns@).len());
    match table(columns, rows) {
        Some(t) => {
            let mut t = t;
            t.prelude = prelude;
            proof {
                crate::parser::generic::lemma_table_view(t);
            }
            Some(Content::Table(t))
        },
        None => None,
    }
}

/// Once a prefix of the lines fails, every longer prefix fails.
proof fn lemma_ls_fold_none(ls: Seq<Seq<char>>, k: int)
    requires
        0 <= k <= ls.len(),
        ls_fold(ls.take(k)).is_none(),
    ensures
        ls_fold(ls).is_none(),
    decreases ls.len() - k,
{
    if k < ls.len() {
        assert(ls.take(k + 1).drop_last() =~= ls.take(k));
        lemma_ls_fold_none(ls, k + 1);
    } else {
        assert(ls.take(k) =~= ls);
    }
}

// ---------------------------------------------------------------------------
// Rows of header-labelled fields
// ---------------------------------------------------------------------------

/// One cell per text, with the style given for its column.
fn styled_cells(texts: &Vec<Vec<char>>, styles: &Vec<Style>) -> (r: Vec<Cell>)
    requires
        texts@.len() == styles@.len(),
    ensures
        row_view(r) == Seq::new(
            texts@.len(),
            |k: int| cell_v(texts.deep_view()[k], styles@[k]),
        ),
        r@.len() == texts@.len(),
{
    let mut out: Vec<Cell> = Vec::new();
    let mut k: usize = 0;
    while k < texts.len()
        invariant
            k <= texts@.len(),
            texts@.len() == styles@.len(),
            row_view(out) == Seq::new(k as nat, |j: int| cell_v(texts.deep_view()[j], styles@[j])),
        decreases texts@.len() - k,
    {
        proof {
            lemma_deep_chars(&texts@[k as int]);
        }
        let ghost before = row_view(out);
        let c = Cell::from_chars(texts[k].as_slice(), styles[k]);
        out.push(c);
        assert(row_view(out) =~= before.push(c@));
        k += 1;
        assert(row_view(out) =~= Seq::new(k as nat, |j: int| cell_v(texts.deep_view()[j], styles@[j])));
    }
    out
}

// ---------------------------------------------------------------------------
// ps
// ---------------------------------------------------------------------------

pub open spec fn ps_detect(source: Seq<char>, fl: Seq<char>) -> bool {
    let h = first_line(fl);
    source == "ps"@ && contains_seq(h, "PID"@) && (contains_seq(h, "COMMAND"@) || contains_seq(
        h,
        "CMD"@,
    ))
}

pub open spec fn ps_style(u: Seq<char>) -> Style {
    if u == "PID"@ {
        Style::Accent
    } else if u == "%CPU"@ || u == "%MEM"@ {
        Style::Warning
    } else {
        Style::Plain
    }
}

/// As many whitespace-separated fields as there are labels, the last one
/// taking the rest of the line.
pub open spec fn ps_row(header: Seq<Seq<char>>, l: Seq<char>) -> Option<Seq<CellV>> {
    let f = split_limit(l, header.len() as int);
    if f.len() == header.len() {
        Some(Seq::new(header.len(), |k: int| cell_v(f[k], ps_style(upper(header[k])))))
    } else {
        None
    }
}

pub open spec fn ps_rows(header: Seq<Seq<char>>, ls: Seq<Seq<char>>) -> Option<Seq<Seq<CellV>>> {
    if forall|i: int| 0 <= i < ls.len() ==> (#[trigger] ps_row(header, ls[i])).is_some() {
        Some(ls.map_values(|l: Seq<char>| ps_row(header, l).unwrap()))
    } else {
        None
    }
}

pub open spec fn ps_priority(u: Seq<char>) -> u8 {
    if u == "COMMAND"@ || u == "CMD"@ {
        0
    } else if u == "PID"@ || u == "USER"@ || u == "%CPU"@ || u == "%MEM"@ {
        1
    } else if u == "STAT"@ || u == "START"@ || u == "STARTED"@ || u == "TIME"@ {
        2
    } else {
        3
    }
}

pub open spec fn ps_numeric(u: Seq<char>) -> bool {
    u == "PID"@ || u == "%CPU"@ || u == "%MEM"@ || u == "VSZ"@ || u == "RSS"@
}

pub open spec fn ps_column(label: Seq<char>) -> ColumnV {
    let u = upper(label);
    let c = column_v(
        lower(u),
        u,
        ps_priority(u),
        if ps_numeric(u) {
            Alignment::Right
        } else {
            Alignment::Left
        },
    );
    if u == "%CPU"@ || u == "%MEM"@ {
        typed(c, ValueType::Percentage)
    } else {
        c
    }
}

/// The header's words label the columns; every other line is a row.
pub open spec fn ps_parse(input: Seq<char>) -> Option<ContentV> {
    let ls = nonblank(lines(input));
    if ls.len() == 0 {
        None
    } else {
        let header = words(ls[0]);
        if header.len() < 3 {
            None
        } else {
            table_of(header.map_values(|h: Seq<char>| ps_column(h)), ps_rows(header, ls.skip(1)))
        }
    }
}

pub fn ps_detect_exec(source: &[char], first_lines: &[char]) -> (r: bool)
    ensures
        r == ps_detect(source@, first_lines@),
{
    if !eq_str(source, "ps") {
        return false;
    }
    let ls = split_lines(first_lines);
    let h = if ls.len() > 0 {
        proof {
            lemma_deep_chars(&ls@[0]);
        }
        copy(ls[0].as_slice())
    } else {
        Vec::new()
    };
    assert(h@ == first_line(first_lines@));
    contains_str(h.as_slice(), "PID") && (contains_str(h.as_slice(), "COMMAND") || contains_str(
        h.as_slice(),
        "CMD",
    ))
}

fn ps_style_exec(u: &[char]) -> (r: Style)
    ensures
        r == ps_style(u@),
{
    if eq_str(u, "PID") {
        Style::Accent
    } else if eq_str(u, "%CPU") || eq_str(u, "%MEM") {
        Style::Warning
    } else {
        Style::Plain
    }
}

fn ps_column_exec(label: &[char]) -> (r: Column)
    ensures
        r@ == ps_column(label@),
{
    let u = to_upper(label);
    let us = u.as_slice();
    let priority: u8 = if eq_str(us, "COMMAND") || eq_str(us, "CMD") {
        0
    } else if eq_str(us, "PID") || eq_str(us, "USER") || eq_str(us, "%CPU") || eq_str(us, "%MEM") {
        1
    } else if eq_str(us, "STAT") || eq_str(us, "START") || eq_str(us, "STARTED") || eq_str(us, "TIME") {
        2
    } else {
        3
    };
    let numeric = eq_str(us, "PID") || eq_str(us, "%CPU") || eq_str(us, "%MEM") || eq_str(us, "VSZ")
        || eq_str(us, "RSS");
    let key = to_lower(us);
    let c = Column::from_chars(
        key.as_slice(),
        us,
        priority,
        if numeric {
            Alignment::Right
        } else {
            Alignment::Left
        },
    );
    if eq_str(us, "%CPU") || eq_str(us, "%MEM") {
        c.with_value_type(ValueType::Percentage)
    } else {
        c
    }
}

/// The columns of a list of labels.
fn ps_columns_exec(header: &Vec<Vec<char>>) -> (r: Vec<Column>)
    ensures
        columns_view(r@) == header.deep_view().map_values(|h: Seq<char>| ps_column(h)),
{
    let mut out: Vec<Column> = Vec::new();
    let mut k: usize = 0;
    while k < header.len()
        invariant
            k <= header@.len(),
            columns_view(out@) == header.deep_view().take(k as int).map_values(
                |h: Seq<char>| ps_column(h),
            ),
        decreases header@.len() - k,
    {
        proof {
            lemma_deep_chars(&header@[k as int]);
        }
        let ghost before = out@;
        let c = ps_column_exec(header[k].as_slice());
        out.push(c);
        assert(columns_view(out@) =~= columns_view(before).push(c@));
        k += 1;
        assert(columns_view(out@) =~= header.deep_view().take(k as int).map_values(
            |h: Seq<char>| ps_column(h),
        ));
    }
    assert(header.deep_view().take(header@.len() as int) =~= header.deep_view());
    out
}

pub fn ps_parse_exec(input: &[char]) -> (r: Option<Content>)
    ensures
        crate::model::content_opt_view(r) == ps_parse(input@),
{
    let ls = nonblank_lines(input);
    let ghost lv = ls.deep_view();
    if ls.len() == 0 {
        return None;
    }
    proof {
        lemma_deep_chars(&ls@[0]);
    }
    let header = split_words(ls[0].as_slice());
    let ghost hv = header.deep_view();
    let n = header.len();
    if n < 3 {
        return None;
    }
    let mut styles: Vec<Style> = Vec::new();
    let mut k: usize = 0;
    while k < n
        invariant
            k <= n == header@.len(),
            hv == header.deep_view(),
            styles@.len() == k,
            forall|j: int| 0 <= j < k ==> styles@[j] == ps_style(upper(#[trigger] hv[j])),
        decreases n - k,
    {
        proof {
            lemma_deep_chars(&header@[k as int]);
        }
        let u = to_upper(header[k].as_slice());
        styles.push(ps_style_exec(u.as_slice()));
        k += 1;
    }
    let ghost body = lv.skip(1);
    let mut rows: Vec<Vec<Cell>> = Vec::new();
    let mut i: usize = 1;
    while i < ls.len()
        invariant
            1 <= i <= ls@.len(),
            lv == ls.deep_view(),
            lv == nonblank(lines(input@)),
            body == lv.skip(1),
            hv == header.deep_view(),
            hv == words(lv[0]),
            n == header@.len(),
            n >= 3,
            styles@.len() == n,
            forall|j: int| 0 <= j < n ==> styles@[j] == ps_style(upper(#[trigger] hv[j])),
            forall|j: int| 0 <= j < i - 1 ==> (#[trigger] ps_row(hv, body[j])).is_some(),
            rows_view(rows@) == body.take(i - 1).map_values(|l: Seq<char>| ps_row(hv, l).unwrap()),
            forall|j: int| 0 <= j < rows@.len() ==> (#[trigger] rows@[j])@.len() == n,
        decreases ls@.len() - i,
    {
        proof {
            lemma_deep_chars(&ls@[i as int]);
        }
        assert(body[i - 1] == lv[i as int]);
        let fields = split_limit_chars(ls[i].as_slice(), n);
        if fields.len() != n {
            assert(ps_row(hv, body[i - 1]).is_none());
            assert(ps_rows(hv, body).is_none());
            return None;
        }
        let row = styled_cells(&fields, &styles);
        assert(row_view(row) =~= ps_row(hv, body[i - 1]).unwrap());
        proof {
            lemma_rows_push(rows@, row);
        }
        rows.push(row);
        i += 1;
        assert(body.take(i - 1).map_values(|l: Seq<char>| ps_row(hv, l).unwrap()) =~= body.take(
            i - 2,
        ).map_values(|l: Seq<char>| ps_row(hv, l).unwrap()).push(ps_row(hv, body[i - 2]).unwrap()));
    }
    assert(body.take(ls@.len() - 1) =~= body);
    let columns = ps_columns_exec(&header);
    assert(columns@.len() == columns_view(columns@).len());
    finish(columns, rows)
}

// ---------------------------------------------------------------------------
// Small decimal numbers
// ---------------------------------------------------------------------------

/// The value of a string of decimal digits.
pub open spec fn digits_value(d: Seq<char>) -> int
    decreases d.len(),
{
    if d.len() == 0 {
        0
    } else {
        digits_value(d.drop_last()) * 10 + (d.last() as int - 48)
    }
}

pub open spec fn all_digits(d: Seq<char>) -> bool {
    forall|j: int| 0 <= j < d.len() ==> is_digit(#[trigger] d[j])
}

/// `u8::from_str`: an optional `+`, then at least one decimal digit, the
/// value at most 255.
pub open spec fn parse_u8(s: Seq<char>) -> Option<u8> {
    let d = if s.len() > 0 && s[0] == '+' {
        s.drop_first()
    } else {
        s
    };
    if d.len() > 0 && all_digits(d) && digits_value(d) <= 255 {
        Some(digits_value(d) as u8)
    } else {
        None
    }
}

pub proof fn lemma_digits_value_nonneg(d: Seq<char>)
    requires
        all_digits(d),
    ensures
        0 <= digits_value(d),
    decreases d.len(),
{
    if d.len() > 0 {
        assert forall|j: int| 0 <= j < d.drop_last().len() implies is_digit(
            #[trigger] d.drop_last()[j],
        ) by {
            assert(d.drop_last()[j] == d[j]);
        }
        lemma_digits_value_nonneg(d.drop_last());
        assert(is_digit(d.last()));
    }
}

pub proof fn lemma_digits_value_grows(d: Seq<char>, k: int)
    requires
        0 <= k <= d.len(),
        all_digits(d),
    ensures
        digits_value(d.take(k)) <= digits_value(d),
    decreases d.len() - k,
{
    if k < d.len() {
        lemma_digits_value_grows(d, k + 1);
        assert(d.take(k + 1).drop_last() =~= d.take(k));
        assert(is_digit(d[k]));
        assert forall|j: int| 0 <= j < d.take(k).len() implies is_digit(#[trigger] d.take(k)[j]) by {
            assert(d.take(k)[j] == d[j]);
        }
        lemma_digits_value_nonneg(d.take(k));
    } else {
        assert(d.take(k) =~= d);
    }
}

pub fn parse_u8_exec(s: &[char]) -> (r: Option<u8>)
    ensures
        r == parse_u8(s@),
{
    let start: usize = if s.len() > 0 && s[0] == '+' {
        1
    } else {
        0
    };
    let ghost d = if s@.len() > 0 && s@[0] == '+' {
        s@.drop_first()
    } else {
        s@
    };
    assert(d =~= s@.subrange(start as int, s@.len() as int));
    if start >= s.len() {
        return None;
    }
    let mut v: u32 = 0;
    let mut i: usize = start;
    while i < s.len()
        invariant
            start <= i <= s@.len(),
            d == s@.subrange(start as int, s@.len() as int),
            d == (if s@.len() > 0 && s@[0] == '+' {
                s@.drop_first()
            } else {
                s@
            }),
            v as int == digits_value(d.take(i - start)),
            v <= 255,
            forall|j: int| start <= j < i ==> is_digit(#[trigger] s@[j]),
        decreases s@.len() - i,
    {
        let c = s[i];
        if !is_ascii_digit(c) {
            assert(!is_digit(d[i - start]));
            return None;
        }
        let digit: u32 = (c as u32) - 48;
        assert(d.take(i - start + 1).drop_last() =~= d.take(i - start));
        let nv = v * 10 + digit;
        i += 1;
        if nv > 255 {
            proof {
                if all_digits(d) {
                    lemma_digits_value_grows(d, i - start);
                }
            }
            return None;
        }
        v = nv;
    }
    assert(d.take(i - start) =~= d);
    Some(v as u8)
}

// ---------------------------------------------------------------------------
// df
// ---------------------------------------------------------------------------

pub open spec fn df_detect(source: Seq<char>, fl: Seq<char>) -> bool {
    source == "df"@ && lines(fl).len() > 0 && contains_seq(lower(lines(fl)[0]), "filesystem"@) && (
    contains_seq(lines(fl)[0], "Mounted"@) || contains_seq(lines(fl)[0], "Capacity"@))
}

/// The index of the first label that reads `mounted` in any case, from `k`.
pub open spec fn first_mounted_from(raw: Seq<Seq<char>>, k: int) -> Option<int>
    decreases raw.len() - k,
{
    if k < 0 || k >= raw.len() {
        None
    } else if lower(raw[k]) == "mounted"@ {
        Some(k)
    } else {
        first_mounted_from(raw, k + 1)
    }
}

/// The labels before `mounted`, then the rest of the header joined.
pub open spec fn df_headers(raw: Seq<Seq<char>>, mi: int) -> Seq<Seq<char>> {
    raw.take(mi).push(join(raw.skip(mi), " "@))
}

pub open spec fn pct_label(lo: Seq<char>) -> bool {
    contains_seq(lo, "use%"@) || contains_seq(lo, "capacity"@) || contains_seq(lo, "%iused"@)
}

/// The style of a usage percentage: 90 and more is an error, 75 to 89 a
/// warning; a value that does not read as a number counts as 0.
pub open spec fn pct_style(v: Seq<char>) -> Style {
    let p: int = match parse_u8(strip_end_char(v, '%')) {
        Some(x) => x as int,
        None => 0,
    };
    if p >= 90 {
        Style::Error
    } else if p >= 75 {
        Style::Warning
    } else {
        Style::Good
    }
}

pub open spec fn df_style(headers: Seq<Seq<char>>, k: int, v: Seq<char>) -> Style {
    if k + 1 == headers.len() {
        Style::Accent
    } else if pct_label(lower(headers[k])) {
        pct_style(v)
    } else {
        Style::Plain
    }
}

pub open spec fn df_row(headers: Seq<Seq<char>>, l: Seq<char>) -> Option<Seq<CellV>> {
    let f = split_limit(l, headers.len() as int);
    if f.len() == headers.len() {
        Some(Seq::new(headers.len(), |k: int| cell_v(f[k], df_style(headers, k, f[k]))))
    } else {
        None
    }
}

pub open spec fn df_rows(headers: Seq<Seq<char>>, ls: Seq<Seq<char>>) -> Option<Seq<Seq<CellV>>> {
    if forall|i: int| 0 <= i < ls.len() ==> (#[trigger] df_row(headers, ls[i])).is_some() {
        Some(ls.map_values(|l: Seq<char>| df_row(headers, l).unwrap()))
    } else {
        None
    }
}

pub open spec fn df_key(lo: Seq<char>) -> Seq<char> {
    if lo == "filesystem"@ {
        "filesystem"@
    } else if lo == "avail"@ || lo == "available"@ {
        "available"@
    } else if lo == "use%"@ {
        "use"@
    } else if lo == "mounted on"@ || lo == "mounted"@ {
        "mounted"@
    } else {
        key_of(strip_start_char(lo, '%'))
    }
}

pub open spec fn df_display(label: Seq<char>, lo: Seq<char>) -> Seq<char> {
    if lo == "filesystem"@ {
        "FILESYSTEM"@
    } else if lo == "used"@ {
        "USED"@
    } else if lo == "avail"@ || lo == "available"@ {
        "AVAILABLE"@
    } else if lo == "mounted on"@ || lo == "mounted"@ {
        "MOUNTED ON"@
    } else {
        label
    }
}

/// The standard label of a `df` column key (empty for keys shown under
/// their own header).
pub open spec fn df_standard_label(key: Seq<char>) -> Seq<char> {
    if key == "filesystem"@ {
        "FILESYSTEM"@
    } else if key == "used"@ {
        "USED"@
    } else if key == "available"@ {
        "AVAILABLE"@
    } else if key == "mounted"@ {
        "MOUNTED ON"@
    } else {
        seq![]
    }
}

/// A `df` column is labelled by what it holds: either its header as
/// written, or the standard label of its key, so a column labelled `USED`
/// holds the used space and one labelled `AVAILABLE` the available space;
/// and only an `Avail` or `Available` header (in any case) gives the
/// label `AVAILABLE`.
pub proof fn lemma_df_labels_follow_keys(label: Seq<char>, k: int, n: int)
    ensures
        ({
            let c = df_column(label, k, n);
            &&& c.label == label || (c.label == df_standard_label(c.key) && c.label.len() > 0)
            &&& c.label == "AVAILABLE"@ ==> (lower(label) == "avail"@ || lower(label) == "available"@)
        }),
{
    reveal_strlit("filesystem");
    reveal_strlit("FILESYSTEM");
    reveal_strlit("used");
    reveal_strlit("USED");
    reveal_strlit("avail");
    reveal_strlit("available");
    reveal_strlit("AVAILABLE");
    reveal_strlit("mounted");
    reveal_strlit("mounted on");
    reveal_strlit("MOUNTED ON");
    reveal_strlit("use%");
    let lo = lower(label);
    let c = df_column(label, k, n);
    assert(c.label == df_display(label, lo) && c.key == df_key(lo));
    if lo == "filesystem"@ {
        assert(c.key == "filesystem"@);
    } else if lo == "used"@ {
        assert(crate::parser::generic::strip_start_char(lo, '%') == lo);
        assert(crate::parser::generic::key_of(lo) =~= "used"@);
        assert("used"@.len() != "filesystem"@.len());
        assert("used"@.len() != "avail"@.len() && "used"@.len() != "available"@.len());
        assert("used"@[3] != "use%"@[3]);
        assert("used"@.len() != "mounted on"@.len() && "used"@.len() != "mounted"@.len());
        assert(c.key == "used"@);
    } else if lo == "avail"@ || lo == "available"@ {
        assert("available"@.len() != "filesystem"@.len() && "available"@.len() != "used"@.len());
        assert(c.key == "available"@);
    } else if lo == "mounted on"@ || lo == "mounted"@ {
        assert("mounted"@.len() != "filesystem"@.len() && "mounted"@.len() != "used"@.len() && "mounted"@.len() != "available"@.len());
        assert("mounted on"@[0] != "filesystem"@[0] && "mounted on"@.len() != "avail"@.len());
        assert("mounted on"@.len() != "available"@.len() && "mounted on"@.len() != "use%"@.len());
        assert("mounted"@.len() != "avail"@.len() && "mounted"@.len() != "use%"@.len());
        assert(c.key == "mounted"@);
    } else {
        assert(c.label == label);
        if label == "AVAILABLE"@ {
            assert(lower(label) =~= "available"@);
        }
    }
}

pub open spec fn df_priority(lo: Seq<char>, k: int, n: int) -> u8 {
    if k + 1 == n {
        0
    } else if lo == "filesystem"@ || contains_seq(lo, "use%"@) || contains_seq(lo, "capacity"@) {
        1
    } else if lo == "iused"@ || lo == "ifree"@ || lo == "%iused"@ {
        3
    } else {
        2
    }
}

pub open spec fn df_column(label: Seq<char>, k: int, n: int) -> ColumnV {
    let lo = lower(label);
    let c = column_v(
        df_key(lo),
        df_display(label, lo),
        df_priority(lo, k, n),
        if k == 0 || k + 1 == n {
            Alignment::Left
        } else {
            Alignment::Right
        },
    );
    if pct_label(lo) {
        typed(c, ValueType::Percentage)
    } else {
        c
    }
}

/// The header ends with `Mounted on` (in any case) after at least four
/// labels; every other line is a row of that many fields.
pub open spec fn df_parse(input: Seq<char>) -> Option<ContentV> {
    let ls = nonblank(lines(input));
    if ls.len() == 0 {
        None
    } else {
        let raw = words(ls[0]);
        match first_mounted_from(raw, 0) {
            Some(mi) => if mi < 4 {
                None
            } else {
                let h = df_headers(raw, mi);
                table_of(
                    Seq::new(h.len(), |k: int| df_column(h[k], k, h.len() as int)),
                    df_rows(h, ls.skip(1)),
                )
            },
            None => None,
        }
    }
}

pub fn df_detect_exec(source: &[char], first_lines: &[char]) -> (r: bool)
    ensures
        r == df_detect(source@, first_lines@),
{
    if !eq_str(source, "df") {
        return false;
    }
    let ls = split_lines(first_lines);
    if ls.len() == 0 {
        return false;
    }
    proof {
        lemma_deep_chars(&ls@[0]);
    }
    let l = ls[0].as_slice();
    let lo = to_lower(l);
    contains_str(lo.as_slice(), "filesystem") && (contains_str(l, "Mounted") || contains_str(
        l,
        "Capacity",
    ))
}

fn first_mounted(raw: &Vec<Vec<char>>) -> (r: Option<usize>)
    ensures
        match r {
            Some(m) => first_mounted_from(raw.deep_view(), 0) == Some(m as int),
            None => first_mounted_from(raw.deep_view(), 0).is_none(),
        },
{
    let ghost rv = raw.deep_view();
    let mut k: usize = 0;
    while k < raw.len()
        invariant
            k <= raw@.len(),
            rv == raw.deep_view(),
            first_mounted_from(rv, 0) == first_mounted_from(rv, k as int),
        decreases raw@.len() - k,
    {
        proof {
            lemma_deep_chars(&raw@[k as int]);
        }
        let lo = to_lower(raw[k].as_slice());
        if eq_str(lo.as_slice(), "mounted") {
            return Some(k);
        }
        k += 1;
    }
    None
}

fn pct_label_exec(lo: &[char]) -> (r: bool)
    ensures
        r == pct_label(lo@),
{
    contains_str(lo, "use%") || contains_str(lo, "capacity") || contains_str(lo, "%iused")
}

fn pct_style_exec(v: &[char]) -> (r: Style)
    ensures
        r == pct_style(v@),
{
    let stripped = strip_trailing(v, '%');
    let p: u8 = match parse_u8_exec(stripped.as_slice()) {
        Some(x) => x,
        None => 0,
    };
    if p >= 90 {
        Style::Error
    } else if p >= 75 {
        Style::Warning
    } else {
        Style::Good
    }
}

fn df_column_exec(label: &[char], k: usize, n: usize) -> (r: Column)
    requires
        k < n,
    ensures
        r@ == df_column(label@, k as int, n as int),
{
    let lo = to_lower(label);
    let l = lo.as_slice();
    let key: Vec<char> = if eq_str(l, "filesystem") {
        chars_of("filesystem")
    } else if eq_str(l, "avail") || eq_str(l, "available") {
        chars_of("available")
    } else if eq_str(l, "use%") {
        chars_of("use")
    } else if eq_str(l, "mounted on") || eq_str(l, "mounted") {
        chars_of("mounted")
    } else {
        normalize_key(strip_leading(l, '%').as_slice())
    };
    let display: Vec<char> = if eq_str(l, "filesystem") {
        chars_of("FILESYSTEM")
    } else if eq_str(l, "used") {
        chars_of("USED")
    } else if eq_str(l, "avail") || eq_str(l, "available") {
        chars_of("AVAILABLE")
    } else if eq_str(l, "mounted on") || eq_str(l, "mounted") {
        chars_of("MOUNTED ON")
    } else {
        copy(label)
    };
    let priority: u8 = if k + 1 == n {
        0
    } else if eq_str(l, "filesystem") || contains_str(l, "use%") || contains_str(l, "capacity") {
        1
    } else if eq_str(l, "iused") || eq_str(l, "ifree") || eq_str(l, "%iused") {
        3
    } else {
        2
    };
    let alignment = if k == 0 || k + 1 == n {
        Alignment::Left
    } else {
        Alignment::Right
    };
    let c = Column::from_chars(key.as_slice(), display.as_slice(), priority, alignment);
    if pct_label_exec(l) {
        c.with_value_type(ValueType::Percentage)
    } else {
        c
    }
}

pub fn df_parse_exec(input: &[char]) -> (r: Option<Content>)
    ensures
        crate::model::content_opt_view(r) == df_parse(input@),
{
    let ls = nonblank_lines(input);
    let ghost lv = ls.deep_view();
    if ls.len() == 0 {
        return None;
    }
    proof {
        lemma_deep_chars(&ls@[0]);
    }
    let raw = split_words(ls[0].as_slice());
    let ghost rv = raw.deep_view();
    let mi = match first_mounted(&raw) {
        Some(m) => m,
        None => {
            return None;
        },
    };
    if mi < 4 {
        return None;
    }
    proof {
        lemma_first_mounted_bound(rv, 0);
    }
    let space = chars_of(" ");
    let mut headers = words_range(&raw, 0, mi);
    let tail = join_with(&words_range(&raw, mi, raw.len()), space.as_slice());
    let ghost before = headers.deep_view();
    proof {
        lemma_deep_chars(&tail);
    }
    headers.push(tail);
    let ghost hv = headers.deep_view();
    assert(hv =~= df_headers(rv, mi as int)) by {
        assert(hv =~= before.push(tail@));
        assert(rv.skip(mi as int) =~= rv.subrange(mi as int, rv.len() as int));
        assert(rv.take(mi as int) =~= rv.subrange(0, mi as int));
    }
    let n = headers.len();
    let mut styles_pct: Vec<bool> = Vec::new();
    let mut k: usize = 0;
    while k < n
        invariant
            k <= n == headers@.len(),
            hv == headers.deep_view(),
            styles_pct@.len() == k,
            forall|j: int| 0 <= j < k ==> styles_pct@[j] == pct_label(lower(#[trigger] hv[j])),
        decreases n - k,
    {
        proof {
            lemma_deep_chars(&headers@[k as int]);
        }
        let lo = to_lower(headers[k].as_slice());
        styles_pct.push(pct_label_exec(lo.as_slice()));
        k += 1;
    }
    let ghost body = lv.skip(1);
    let mut rows: Vec<Vec<Cell>> = Vec::new();
    let mut i: usize = 1;
    while i < ls.len()
        invariant
            1 <= i <= ls@.len(),
            lv == ls.deep_view(),
            lv == nonblank(lines(input@)),
            body == lv.skip(1),
            hv == headers.deep_view(),
            rv == words(lv[0]),
            first_mounted_from(rv, 0) == Some(mi as int),
            mi >= 4,
            hv == df_headers(rv, mi as int),
            n == headers@.len(),
            n >= 1,
            styles_pct@.len() == n,
            forall|j: int| 0 <= j < n ==> styles_pct@[j] == pct_label(lower(#[trigger] hv[j])),
            forall|j: int| 0 <= j < i - 1 ==> (#[trigger] df_row(hv, body[j])).is_some(),
            rows_view(rows@) == body.take(i - 1).map_values(|l: Seq<char>| df_row(hv, l).unwrap()),
            forall|j: int| 0 <= j < rows@.len() ==> (#[trigger] rows@[j])@.len() == n,
        decreases ls@.len() - i,
    {
        proof {
            lemma_deep_chars(&ls@[i as int]);
        }
        assert(body[i - 1] == lv[i as int]);
        let fields = split_limit_chars(ls[i].as_slice(), n);
        let ghost fv = fields.deep_view();
        if fields.len() != n {
            assert(df_row(hv, body[i - 1]).is_none());
            assert(df_rows(hv, body).is_none());
            return None;
        }
        let mut styles: Vec<Style> = Vec::new();
        let mut k: usize = 0;
        while k < n
            invariant
                k <= n == fields@.len(),
                n == hv.len(),
                fv == fields.deep_view(),
                styles_pct@.len() == n,
                forall|j: int| 0 <= j < n ==> styles_pct@[j] == pct_label(lower(#[trigger] hv[j])),
                styles@.len() == k,
                forall|j: int| 0 <= j < k ==> #[trigger] styles@[j] == df_style(hv, j, fv[j]),
            decreases n - k,
        {
            proof {
                lemma_deep_chars(&fields@[k as int]);
            }
            let st = if k + 1 == n {
                Style::Accent
            } else if styles_pct[k] {
                pct_style_exec(fields[k].as_slice())
            } else {
                Style::Plain
            };
            styles.push(st);
            k += 1;
        }
        let row = styled_cells(&fields, &styles);
        assert(row_view(row) =~= df_row(hv, body[i - 1]).unwrap());
        proof {
            lemma_rows_push(rows@, row);
        }
        rows.push(row);
        i += 1;
        assert(body.take(i - 1).map_values(|l: Seq<char>| df_row(hv, l).unwrap()) =~= body.take(
            i - 2,
        ).map_values(|l: Seq<char>| df_row(hv, l).unwrap()).push(df_row(hv, body[i - 2]).unwrap()));
    }
    assert(body.take(ls@.len() - 1) =~= body);
    let mut columns: Vec<Column> = Vec::new();
    let mut k: usize = 0;
    while k < n
        invariant
            k <= n == headers@.len(),
            hv == headers.deep_view(),
            columns_view(columns@) == Seq::new(
                k as nat,
                |j: int| df_column(hv[j], j, n as int),
            ),
        decreases n - k,
    {
        proof {
            lemma_deep_chars(&headers@[k as int]);
        }
        let ghost before = columns@;
        let c = df_column_exec(headers[k].as_slice(), k, n);
        columns.push(c);
        assert(columns_view(columns@) =~= columns_view(before).push(c@));
        k += 1;
        assert(columns_view(columns@) =~= Seq::new(k as nat, |j: int| df_column(hv[j], j, n as int)));
    }
    assert(columns@.len() == columns_view(columns@).len());
    finish(columns, rows)
}

proof fn lemma_first_mounted_bound(raw: Seq<Seq<char>>, k: int)
    ensures
        first_mounted_from(raw, k) matches Some(m) ==> k <= m < raw.len(),
    decreases raw.len() - k,
{
    if 0 <= k < raw.len() && lower(raw[k]) != "mounted"@ {
        lemma_first_mounted_bound(raw, k + 1);
    }
}

// ---------------------------------------------------------------------------
// docker ps
// ---------------------------------------------------------------------------

pub open spec fn docker_detect(source: Seq<char>, fl: Seq<char>) -> bool {
    source == "docker"@ && lines(fl).len() > 0 && contains_seq(lines(fl)[0], "CONTAINER ID"@)
        && contains_seq(lines(fl)[0], "IMAGE"@) && contains_seq(lines(fl)[0], "STATUS"@)
}

/// The byte offsets of the header's columns.
pub open spec fn docker_starts(header: Seq<char>) -> Seq<usize> {
    crate::parser::util::starts_from(vstd::utf8::encode_utf8(header), 0, 0, 0)
}

/// The text of each column of a line.
pub open spec fn fields_at(l: Seq<char>, starts: Seq<usize>) -> Seq<Seq<char>> {
    Seq::new(starts.len(), |k: int| field_at(l, starts, k))
}

pub open spec fn docker_style(label: Seq<char>, v: Seq<char>) -> Style {
    if label == "CONTAINER ID"@ {
        Style::Accent
    } else if label == "STATUS"@ {
        if starts_with(lower(v), "up"@) {
            Style::Good
        } else {
            Style::Warning
        }
    } else {
        Style::Plain
    }
}

pub open spec fn docker_row(h: Seq<Seq<char>>, starts: Seq<usize>, l: Seq<char>) -> Seq<CellV> {
    let f = fields_at(l, starts);
    Seq::new(h.len(), |k: int| cell_v(f[k], docker_style(h[k], f[k])))
}

pub open spec fn docker_priority(label: Seq<char>) -> u8 {
    if label == "NAMES"@ {
        0
    } else if label == "CONTAINER ID"@ || label == "IMAGE"@ || label == "STATUS"@ {
        1
    } else if label == "PORTS"@ {
        2
    } else {
        3
    }
}

/// Every occurrence of `from` replaced by `to`.
pub open spec fn replace_char(s: Seq<char>, from: char, to: char) -> Seq<char> {
    s.map_values(|c: char| if c == from { to } else { c })
}

pub open spec fn docker_column(label: Seq<char>) -> ColumnV {
    column_v(replace_char(lower(label), ' ', '_'), label, docker_priority(label), Alignment::Left)
}

/// Columns start where the header's labels start, labels being separated by
/// at least two blanks; each line is cut at those byte offsets.
pub open spec fn docker_parse(input: Seq<char>) -> Option<ContentV> {
    let ls = nonblank(lines(input));
    if ls.len() == 0 {
        None
    } else {
        let st = docker_starts(ls[0]);
        let h = fields_at(ls[0], st);
        if h.len() < 5 {
            None
        } else {
            table_of(
                h.map_values(|x: Seq<char>| docker_column(x)),
                Some(ls.skip(1).map_values(|l: Seq<char>| docker_row(h, st, l))),
            )
        }
    }
}

pub fn docker_detect_exec(source: &[char], first_lines: &[char]) -> (r: bool)
    ensures
        r == docker_detect(source@, first_lines@),
{
    if !eq_str(source, "docker") {
        return false;
    }
    let ls = split_lines(first_lines);
    if ls.len() == 0 {
        return false;
    }
    proof {
        lemma_deep_chars(&ls@[0]);
    }
    let l = ls[0].as_slice();
    contains_str(l, "CONTAINER ID") && contains_str(l, "IMAGE") && contains_str(l, "STATUS")
}

pub fn replace_char_exec(s: &[char], from: char, to: char) -> (r: Vec<char>)
    ensures
        r@ == replace_char(s@, from, to),
{
    let mut out: Vec<char> = Vec::new();
    let mut i: usize = 0;
    while i < s.len()
        invariant
            i <= s@.len(),
            out@ == replace_char(s@.take(i as int), from, to),
        decreases s@.len() - i,
    {
        out.push(if s[i] == from { to } else { s[i] });
        i += 1;
        assert(out@ =~= replace_char(s@.take(i as int), from, to));
    }
    assert(s@.take(s@.len() as int) =~= s@);
    out
}

/// The columns of a line cut at the given byte offsets.
fn fields_at_exec(l: &[char], starts: &Vec<usize>) -> (r: Vec<Vec<char>>)
    ensures
        r.deep_view() == fields_at(l@, starts@),
{
    let text = string_of(l);
    let parts = crate::parser::util::split_at_starts(text.as_str(), starts.as_slice());
    let mut out: Vec<Vec<char>> = Vec::new();
    let mut k: usize = 0;
    while k < parts.len()
        invariant
            k <= parts@.len() == starts@.len(),
            text@ == l@,
            forall|j: int| 0 <= j < starts@.len() ==> (#[trigger] parts@[j])@ == field_at(l@, starts@, j),
            out.deep_view() == fields_at(l@, starts@).take(k as int),
        decreases parts@.len() - k,
    {
        let v = chars_of(parts[k].as_str());
        let ghost before = out.deep_view();
        proof {
            lemma_deep_chars(&v);
        }
        out.push(v);
        assert(out.deep_view() =~= before.push(v@));
        k += 1;
        assert(out.deep_view() =~= fields_at(l@, starts@).take(k as int));
    }
    assert(fields_at(l@, starts@).take(k as int) =~= fields_at(l@, starts@));
    out
}

fn docker_style_exec(label: &[char], v: &[char]) -> (r: Style)
    ensures
        r == docker_style(label@, v@),
{
    if eq_str(label, "CONTAINER ID") {
        Style::Accent
    } else if eq_str(label, "STATUS") {
        let lo = to_lower(v);
        if starts_with_str(lo.as_slice(), "up") {
            Style::Good
        } else {
            Style::Warning
        }
    } else {
        Style::Plain
    }
}

fn docker_column_exec(label: &[char]) -> (r: Column)
    ensures
        r@ == docker_column(label@),
{
    let lo = to_lower(label);
    let key = replace_char_exec(lo.as_slice(), ' ', '_');
    let priority: u8 = if eq_str(label, "NAMES") {
        0
    } else if eq_str(label, "CONTAINER ID") || eq_str(label, "IMAGE") || eq_str(label, "STATUS") {
        1
    } else if eq_str(label, "PORTS") {
        2
    } else {
        3
    };
    Column::from_chars(key.as_slice(), label, priority, Alignment::Left)
}

pub fn docker_parse_exec(input: &[char]) -> (r: Option<Content>)
    ensures
        crate::model::content_opt_view(r) == docker_parse(input@),
{
    let ls = nonblank_lines(input);
    let ghost lv = ls.deep_view();
    if ls.len() == 0 {
        return None;
    }
    proof {
        lemma_deep_chars(&ls@[0]);
    }
    let header_text = string_of(ls[0].as_slice());
    let starts = crate::parser::util::aligned_starts(header_text.as_str());
    assert(starts@ == docker_starts(lv[0]));
    let headers = fields_at_exec(ls[0].as_slice(), &starts);
    let ghost hv = headers.deep_view();
    let n = headers.len();
    if n < 5 {
        return None;
    }
    let ghost body = lv.skip(1);
    let mut rows: Vec<Vec<Cell>> = Vec::new();
    let mut i: usize = 1;
    while i < ls.len()
        invariant
            1 <= i <= ls@.len(),
            lv == ls.deep_view(),
            lv == nonblank(lines(input@)),
            body == lv.skip(1),
            starts@ == docker_starts(lv[0]),
            hv == headers.deep_view(),
            hv == fields_at(lv[0], starts@),
            n == hv.len(),
            rows_view(rows@) == body.take(i - 1).map_values(|l: Seq<char>| docker_row(hv, starts@, l)),
            forall|j: int| 0 <= j < rows@.len() ==> (#[trigger] rows@[j])@.len() == n,
        decreases ls@.len() - i,
    {
        proof {
            lemma_deep_chars(&ls@[i as int]);
        }
        assert(body[i - 1] == lv[i as int]);
        let values = fields_at_exec(ls[i].as_slice(), &starts);
        let ghost fv = values.deep_view();
        assert(values@.len() == fv.len() && fv.len() == starts@.len() && hv.len() == starts@.len());
        let mut styles: Vec<Style> = Vec::new();
        let mut k: usize = 0;
        while k < n
            invariant
                k <= n == hv.len() == values@.len(),
                hv == headers.deep_view(),
                fv == values.deep_view(),
                styles@.len() == k,
                forall|j: int| 0 <= j < k ==> #[trigger] styles@[j] == docker_style(hv[j], fv[j]),
            decreases n - k,
        {
            proof {
                lemma_deep_chars(&headers@[k as int]);
                lemma_deep_chars(&values@[k as int]);
            }
            styles.push(docker_style_exec(headers[k].as_slice(), values[k].as_slice()));
            k += 1;
        }
        let row = styled_cells(&values, &styles);
        assert(row_view(row) =~= docker_row(hv, starts@, body[i - 1]));
        proof {
            lemma_rows_push(rows@, row);
        }
        rows.push(row);
        i += 1;
        assert(body.take(i - 1).map_values(|l: Seq<char>| docker_row(hv, starts@, l)) =~= body.take(
            i - 2,
        ).map_values(|l: Seq<char>| docker_row(hv, starts@, l)).push(docker_row(hv, starts@, body[i - 2])));
    }
    assert(body.take(ls@.len() - 1) =~= body);
    let mut columns: Vec<Column> = Vec::new();
    let mut k: usize = 0;
    while k < n
        invariant
            k <= n == headers@.len(),
            hv == headers.deep_view(),
            columns_view(columns@) == hv.take(k as int).map_values(|x: Seq<char>| docker_column(x)),
        decreases n - k,
    {
        proof {
            lemma_deep_chars(&headers@[k as int]);
        }
        let ghost before = columns@;
        let c = docker_column_exec(headers[k].as_slice());
        columns.push(c);
        assert(columns_view(columns@) =~= columns_view(before).push(c@));
        k += 1;
        assert(columns_view(columns@) =~= hv.take(k as int).map_values(|x: Seq<char>| docker_column(x)));
    }
    assert(hv.take(n as int) =~= hv);
    assert(columns@.len() == columns_view(columns@).len());
    finish(columns, rows)
}

// ---------------------------------------------------------------------------
// free
// ---------------------------------------------------------------------------

pub open spec fn free_header_line(l: Seq<char>) -> bool {
    let lo = lower(l);
    contains_seq(lo, "total"@) && contains_seq(lo, "used"@) && contains_seq(lo, "available"@)
}

pub open spec fn mem_line(l: Seq<char>) -> bool {
    starts_with(trim_start(l), "Mem:"@)
}

pub open spec fn free_detect(source: Seq<char>, fl: Seq<char>) -> bool {
    let ls = lines(fl);
    &&& source == "free"@
    &&& exists|i: int| 0 <= i < ls.len() && #[trigger] free_header_line(ls[i])
    &&& exists|i: int| 0 <= i < ls.len() && #[trigger] mem_line(ls[i])
}

pub open spec fn free_style(h: Seq<Seq<char>>, k: int) -> Style {
    if k == 0 {
        Style::Accent
    } else if h[k - 1] == "used"@ {
        Style::Warning
    } else if h[k - 1] == "free"@ || h[k - 1] == "available"@ {
        Style::Good
    } else {
        Style::Plain
    }
}

/// A row label and one value per header label, missing values empty and
/// trailing colons dropped; at least a label and one value are needed.
pub open spec fn free_row(h: Seq<Seq<char>>, l: Seq<char>) -> Option<Seq<CellV>> {
    let n: int = h.len() as int + 1;
    let f = split_limit(l, n);
    if f.len() < 2 {
        None
    } else {
        Some(
            Seq::new(
                n as nat,
                |k: int|
                    cell_v(
                        strip_end_char(
                            if k < f.len() {
                                f[k]
                            } else {
                                seq![]
                            },
                            ':',
                        ),
                        free_style(h, k),
                    ),
            ),
        )
    }
}

pub open spec fn free_rows(h: Seq<Seq<char>>, ls: Seq<Seq<char>>) -> Option<Seq<Seq<CellV>>> {
    if forall|i: int| 0 <= i < ls.len() ==> (#[trigger] free_row(h, ls[i])).is_some() {
        Some(ls.map_values(|l: Seq<char>| free_row(h, l).unwrap()))
    } else {
        None
    }
}

pub open spec fn free_column(label: Seq<char>) -> ColumnV {
    column_v(
        label,
        upper(label),
        if label == "total"@ || label == "used"@ || label == "available"@ {
            1
        } else {
            2
        },
        Alignment::Right,
    )
}

/// A `TYPE` column, then one column per header label.
pub open spec fn free_parse(input: Seq<char>) -> Option<ContentV> {
    let ls = nonblank(lines(input));
    if ls.len() == 0 {
        None
    } else {
        let h = words(ls[0]);
        if h.len() < 3 || h.len() >= usize::MAX {
            None
        } else {
            table_of(
                seq![column_v("type"@, "TYPE"@, 0, Alignment::Left)] + h.map_values(
                    |x: Seq<char>| free_column(x),
                ),
                free_rows(h, ls.skip(1)),
            )
        }
    }
}

pub fn free_detect_exec(source: &[char], first_lines: &[char]) -> (r: bool)
    ensures
        r == free_detect(source@, first_lines@),
{
    if !eq_str(source, "free") {
        return false;
    }
    let ls = split_lines(first_lines);
    let ghost lv = ls.deep_view();
    let mut header = false;
    let mut mem = false;
    let mut i: usize = 0;
    while i < ls.len()
        invariant
            i <= ls@.len(),
            lv == ls.deep_view(),
            lv == lines(first_lines@),
            header == exists|k: int| 0 <= k < i && #[trigger] free_header_line(lv[k]),
            mem == exists|k: int| 0 <= k < i && #[trigger] mem_line(lv[k]),
        decreases ls@.len() - i,
    {
        proof {
            lemma_deep_chars(&ls@[i as int]);
        }
        let l = ls[i].as_slice();
        let lo = to_lower(l);
        let h = contains_str(lo.as_slice(), "total") && contains_str(lo.as_slice(), "used")
            && contains_str(lo.as_slice(), "available");
        let start = trimmed_start(l);
        let m = starts_with_str(start.as_slice(), "Mem:");
        assert(h == free_header_line(lv[i as int]));
        assert(m == mem_line(lv[i as int]));
        header = header || h;
        mem = mem || m;
        i += 1;
    }
    header && mem
}

fn free_column_exec(label: &[char]) -> (r: Column)
    ensures
        r@ == free_column(label@),
{
    let up = to_upper(label);
    let priority: u8 = if eq_str(label, "total") || eq_str(label, "used") || eq_str(label, "available") {
        1
    } else {
        2
    };
    Column::from_chars(label, up.as_slice(), priority, Alignment::Right)
}

pub fn free_parse_exec(input: &[char]) -> (r: Option<Content>)
    ensures
        crate::model::content_opt_view(r) == free_parse(input@),
{
    let ls = nonblank_lines(input);
    let ghost lv = ls.deep_view();
    if ls.len() == 0 {
        return None;
    }
    proof {
        lemma_deep_chars(&ls@[0]);
    }
    let headers = split_words(ls[0].as_slice());
    let ghost hv = headers.deep_view();
    let n = headers.len();
    if n < 3 || n == usize::MAX {
        return None;
    }
    let width = n + 1;
    let mut styles: Vec<Style> = Vec::new();
    let mut k: usize = 0;
    while k < width
        invariant
            k <= width == n + 1,
            n == headers@.len(),
            hv == headers.deep_view(),
            styles@.len() == k,
            forall|j: int| 0 <= j < k ==> #[trigger] styles@[j] == free_style(hv, j),
        decreases width - k,
    {
        let st = if k == 0 {
            Style::Accent
        } else {
            proof {
                lemma_deep_chars(&headers@[k - 1]);
            }
            let h = headers[k - 1].as_slice();
            if eq_str(h, "used") {
                Style::Warning
            } else if eq_str(h, "free") || eq_str(h, "available") {
                Style::Good
            } else {
                Style::Plain
            }
        };
        styles.push(st);
        k += 1;
    }
    let ghost body = lv.skip(1);
    let mut rows: Vec<Vec<Cell>> = Vec::new();
    let mut i: usize = 1;
    while i < ls.len()
        invariant
            1 <= i <= ls@.len(),
            lv == ls.deep_view(),
            lv == nonblank(lines(input@)),
            body == lv.skip(1),
            hv == headers.deep_view(),
            hv == words(lv[0]),
            n == hv.len(),
            3 <= n < usize::MAX,
            width == n + 1,
            styles@.len() == width,
            forall|j: int| 0 <= j < width ==> #[trigger] styles@[j] == free_style(hv, j),
            forall|j: int| 0 <= j < i - 1 ==> (#[trigger] free_row(hv, body[j])).is_some(),
            rows_view(rows@) == body.take(i - 1).map_values(|l: Seq<char>| free_row(hv, l).unwrap()),
            forall|j: int| 0 <= j < rows@.len() ==> (#[trigger] rows@[j])@.len() == width,
        decreases ls@.len() - i,
    {
        proof {
            lemma_deep_chars(&ls@[i as int]);
        }
        assert(body[i - 1] == lv[i as int]);
        let fields = split_limit_chars(ls[i].as_slice(), width);
        let ghost fv = fields.deep_view();
        if fields.len() < 2 {
            assert(free_row(hv, body[i - 1]).is_none());
            assert(free_rows(hv, body).is_none());
            return None;
        }
        let mut texts: Vec<Vec<char>> = Vec::new();
        let mut k: usize = 0;
        while k < width
            invariant
                k <= width,
                fv == fields.deep_view(),
                texts.deep_view() == Seq::new(
                    k as nat,
                    |j: int|
                        strip_end_char(
                            if j < fv.len() {
                                fv[j]
                            } else {
                                seq![]
                            },
                            ':',
                        ),
                ),
            decreases width - k,
        {
            let t = if k < fields.len() {
                proof {
                    lemma_deep_chars(&fields@[k as int]);
                }
                strip_trailing(fields[k].as_slice(), ':')
            } else {
                Vec::new()
            };
            let ghost before = texts.deep_view();
            proof {
                lemma_deep_chars(&t);
                if k >= fields.len() {
                    assert(t@ =~= strip_end_char(seq![], ':'));
                }
            }
            texts.push(t);
            assert(texts.deep_view() =~= before.push(t@));
            k += 1;
            assert(texts.deep_view() =~= Seq::new(
                k as nat,
                |j: int|
                    strip_end_char(
                        if j < fv.len() {
                            fv[j]
                        } else {
                            seq![]
                        },
                        ':',
                    ),
            ));
        }
        let row = styled_cells(&texts, &styles);
        assert(row_view(row) =~= free_row(hv, body[i - 1]).unwrap());
        proof {
            lemma_rows_push(rows@, row);
        }
        rows.push(row);
        i += 1;
        assert(body.take(i - 1).map_values(|l: Seq<char>| free_row(hv, l).unwrap()) =~= body.take(
            i - 2,
        ).map_values(|l: Seq<char>| free_row(hv, l).unwrap()).push(free_row(hv, body[i - 2]).unwrap()));
    }
    assert(body.take(ls@.len() - 1) =~= body);
    let mut columns: Vec<Column> = Vec::new();
    columns.push(col("type", "TYPE", 0));
    let mut k: usize = 0;
    while k < n
        invariant
            k <= n == headers@.len(),
            hv == headers.deep_view(),
            columns_view(columns@) == seq![column_v("type"@, "TYPE"@, 0, Alignment::Left)] + hv.take(
                k as int,
            ).map_values(|x: Seq<char>| free_column(x)),
        decreases n - k,
    {
        proof {
            lemma_deep_chars(&headers@[k as int]);
        }
        let ghost before = columns@;
        let c = free_column_exec(headers[k].as_slice());
        columns.push(c);
        assert(columns_view(columns@) =~= columns_view(before).push(c@));
        k += 1;
        assert(columns_view(columns@) =~= seq![column_v("type"@, "TYPE"@, 0, Alignment::Left)]
            + hv.take(k as int).map_values(|x: Seq<char>| free_column(x)));
    }
    assert(hv.take(n as int) =~= hv);
    assert(columns@.len() == columns_view(columns@).len());
    finish(columns, rows)
}

// ---------------------------------------------------------------------------
// lsblk
// ---------------------------------------------------------------------------

pub open spec fn lsblk_detect(source: Seq<char>, fl: Seq<char>) -> bool {
    source == "lsblk"@ && lines(fl).len() > 0 && words(lines(fl)[0]).contains("NAME"@) && words(
        lines(fl)[0],
    ).contains("TYPE"@)
}

/// The values of a line over `n` columns: a lone value after the first row
/// continues the last column; otherwise missing values are empty.
pub open spec fn lsblk_values(f: Seq<Seq<char>>, n: int, continues: bool) -> Seq<Seq<char>> {
    if f.len() == 1 && continues {
        Seq::new(n as nat, |k: int| if k == n - 1 { f[0] } else { seq![] })
    } else {
        Seq::new(n as nat, |k: int| if k < f.len() { f[k] } else { seq![] })
    }
}

pub open spec fn lsblk_style(label: Seq<char>) -> Style {
    if label == "NAME"@ {
        Style::Accent
    } else if label == "MOUNTPOINT"@ || label == "MOUNTPOINTS"@ {
        Style::Good
    } else if label == "SIZE"@ {
        Style::Warning
    } else {
        Style::Plain
    }
}

pub open spec fn lsblk_row(h: Seq<Seq<char>>, vals: Seq<Seq<char>>) -> Seq<CellV> {
    Seq::new(h.len(), |k: int| cell_v(vals[k], lsblk_style(h[k])))
}

/// The rows of the given lines; a line without fields yields none.
pub open spec fn lsblk_fold(h: Seq<Seq<char>>, ls: Seq<Seq<char>>) -> Seq<Seq<CellV>>
    decreases ls.len(),
{
    if ls.len() == 0 {
        seq![]
    } else {
        let rows = lsblk_fold(h, ls.drop_last());
        let f = split_limit(ls.last(), h.len() as int);
        if f.len() == 0 {
            rows
        } else {
            rows.push(lsblk_row(h, lsblk_values(f, h.len() as int, rows.len() > 0)))
        }
    }
}

pub open spec fn lsblk_column(label: Seq<char>) -> ColumnV {
    column_v(
        replace_char(lower(label), ':', '_'),
        label,
        if label == "NAME"@ {
            0
        } else if label == "SIZE"@ || label == "TYPE"@ || label == "MOUNTPOINT"@ || label
            == "MOUNTPOINTS"@ {
            1
        } else if label == "RM"@ || label == "RO"@ {
            2
        } else {
            3
        },
        if label == "RM"@ || label == "RO"@ {
            Alignment::Right
        } else {
            Alignment::Left
        },
    )
}

pub open spec fn lsblk_parse(input: Seq<char>) -> Option<ContentV> {
    let ls = nonblank(lines(input));
    if ls.len() == 0 {
        None
    } else {
        let h = words(ls[0]);
        if h.len() < 2 {
            None
        } else {
            table_of(h.map_values(|x: Seq<char>| lsblk_column(x)), Some(lsblk_fold(h, ls.skip(1))))
        }
    }
}

/// Whether one of the words reads `w`.
fn has_word(ws: &Vec<Vec<char>>, w: &str) -> (r: bool)
    ensures
        r == ws.deep_view().contains(w@),
{
    let mut i: usize = 0;
    while i < ws.len()
        invariant
            i <= ws@.len(),
            forall|j: int| 0 <= j < i ==> ws.deep_view()[j] != w@,
        decreases ws@.len() - i,
    {
        proof {
            lemma_deep_chars(&ws@[i as int]);
        }
        if eq_str(ws[i].as_slice(), w) {
            assert(ws.deep_view()[i as int] == w@);
            return true;
        }
        i += 1;
    }
    false
}

pub fn lsblk_detect_exec(source: &[char], first_lines: &[char]) -> (r: bool)
    ensures
        r == lsblk_detect(source@, first_lines@),
{
    if !eq_str(source, "lsblk") {
        return false;
    }
    let ls = split_lines(first_lines);
    if ls.len() == 0 {
        return false;
    }
    proof {
        lemma_deep_chars(&ls@[0]);
    }
    let w = split_words(ls[0].as_slice());
    has_word(&w, "NAME") && has_word(&w, "TYPE")
}

fn lsblk_column_exec(label: &[char]) -> (r: Column)
    ensures
        r@ == lsblk_column(label@),
{
    let lo = to_lower(label);
    let key = replace_char_exec(lo.as_slice(), ':', '_');
    let priority: u8 = if eq_str(label, "NAME") {
        0
    } else if eq_str(label, "SIZE") || eq_str(label, "TYPE") || eq_str(label, "MOUNTPOINT")
        || eq_str(label, "MOUNTPOINTS") {
        1
    } else if eq_str(label, "RM") || eq_str(label, "RO") {
        2
    } else {
        3
    };
    let alignment = if eq_str(label, "RM") || eq_str(label, "RO") {
        Alignment::Right
    } else {
        Alignment::Left
    };
    Column::from_chars(key.as_slice(), label, priority, alignment)
}

pub fn lsblk_parse_exec(input: &[char]) -> (r: Option<Content>)
    ensures
        crate::model::content_opt_view(r) == lsblk_parse(input@),
{
    let ls = nonblank_lines(input);
    let ghost lv = ls.deep_view();
    if ls.len() == 0 {
        return None;
    }
    proof {
        lemma_deep_chars(&ls@[0]);
    }
    let headers = split_words(ls[0].as_slice());
    let ghost hv = headers.deep_view();
    let n = headers.len();
    if n < 2 {
        return None;
    }
    let mut styles: Vec<Style> = Vec::new();
    let mut k: usize = 0;
    while k < n
        invariant
            k <= n == headers@.len(),
            hv == headers.deep_view(),
            styles@.len() == k,
            forall|j: int| 0 <= j < k ==> #[trigger] styles@[j] == lsblk_style(hv[j]),
        decreases n - k,
    {
        proof {
            lemma_deep_chars(&headers@[k as int]);
        }
        let h = headers[k].as_slice();
        let st = if eq_str(h, "NAME") {
            Style::Accent
        } else if eq_str(h, "MOUNTPOINT") || eq_str(h, "MOUNTPOINTS") {
            Style::Good
        } else if eq_str(h, "SIZE") {
            Style::Warning
        } else {
            Style::Plain
        };
        styles.push(st);
        k += 1;
    }
    let ghost body = lv.skip(1);
    let mut rows: Vec<Vec<Cell>> = Vec::new();
    let mut i: usize = 1;
    while i < ls.len()
        invariant
            1 <= i <= ls@.len(),
            lv == ls.deep_view(),
            body == lv.skip(1),
            hv == headers.deep_view(),
            n == hv.len(),
            n >= 2,
            styles@.len() == n,
            forall|j: int| 0 <= j < n ==> #[trigger] styles@[j] == lsblk_style(hv[j]),
            rows_view(rows@) == lsblk_fold(hv, body.take(i - 1)),
            forall|j: int| 0 <= j < rows@.len() ==> (#[trigger] rows@[j])@.len() == n,
        decreases ls@.len() - i,
    {
        proof {
            lemma_deep_chars(&ls@[i as int]);
        }
        assert(body.take(i as int).drop_last() =~= body.take(i - 1));
        assert(body.take(i as int).last() == lv[i as int]);
        let fields = split_limit_chars(ls[i].as_slice(), n);
        let ghost fv = fields.deep_view();
        if fields.len() > 0 {
            let continues = rows.len() > 0;
            let mut vals: Vec<Vec<char>> = Vec::new();
            let mut k: usize = 0;
            while k < n
                invariant
                    k <= n,
                    fv == fields.deep_view(),
                    fv.len() > 0,
                    vals.deep_view() == lsblk_values(fv, n as int, continues).take(k as int),
                decreases n - k,
            {
                let v = if fields.len() == 1 && continues {
                    if k == n - 1 {
                        proof {
                            lemma_deep_chars(&fields@[0]);
                        }
                        copy(fields[0].as_slice())
                    } else {
                        Vec::new()
                    }
                } else if k < fields.len() {
                    proof {
                        lemma_deep_chars(&fields@[k as int]);
                    }
                    copy(fields[k].as_slice())
                } else {
                    Vec::new()
                };
                let ghost before = vals.deep_view();
                proof {
                    lemma_deep_chars(&v);
                }
                vals.push(v);
                assert(vals.deep_view() =~= before.push(v@));
                k += 1;
                assert(vals.deep_view() =~= lsblk_values(fv, n as int, continues).take(k as int));
            }
            assert(lsblk_values(fv, n as int, continues).take(n as int) =~= lsblk_values(
                fv,
                n as int,
                continues,
            ));
            let row = styled_cells(&vals, &styles);
            assert(row_view(row) =~= lsblk_row(hv, lsblk_values(fv, n as int, continues)));
            proof {
                lemma_rows_push(rows@, row);
            }
            rows.push(row);
        }
        i += 1;
    }
    assert(body.take(ls@.len() - 1) =~= body);
    let mut columns: Vec<Column> = Vec::new();
    let mut k: usize = 0;
    while k < n
        invariant
            k <= n == headers@.len(),
            hv == headers.deep_view(),
            columns_view(columns@) == hv.take(k as int).map_values(|x: Seq<char>| lsblk_column(x)),
        decreases n - k,
    {
        proof {
            lemma_deep_chars(&headers@[k as int]);
        }
        let ghost before = columns@;
        let c = lsblk_column_exec(headers[k].as_slice());
        columns.push(c);
        assert(columns_view(columns@) =~= columns_view(before).push(c@));
        k += 1;
        assert(columns_view(columns@) =~= hv.take(k as int).map_values(|x: Seq<char>| lsblk_column(x)));
    }
    assert(hv.take(n as int) =~= hv);
    assert(columns@.len() == columns_view(columns@).len());
    finish(columns, rows)
}

// ---------------------------------------------------------------------------
// ip route
// ---------------------------------------------------------------------------

pub open spec fn route_words_ok(w: Seq<Seq<char>>) -> bool {
    w.contains("dev"@) && (w.contains("via"@) || w.contains("scope"@) || (w.len() > 0 && w[0]
        == "default"@))
}

pub open spec fn ip_detect(source: Seq<char>, fl: Seq<char>) -> bool {
    let ls = nonblank(lines(fl));
    source == "ip"@ && exists|i: int| 0 <= i < ls.len() && #[trigger] route_words_ok(words(ls[i]))
}

/// The attributes read from a route line.
pub struct RouteV {
    pub via: Seq<char>,
    pub dev: Seq<char>,
    pub proto: Seq<char>,
    pub scope: Seq<char>,
    pub src: Seq<char>,
    pub metric: Seq<char>,
    pub details: Seq<Seq<char>>,
}

/// The attribute a keyword sets: 1 `via`, 2 `dev`, 3 `proto`, 4 `scope`,
/// 5 `src`, 6 `metric`, 0 none.
pub open spec fn route_key(w: Seq<char>) -> int {
    if w == "via"@ {
        1
    } else if w == "dev"@ {
        2
    } else if w == "proto"@ {
        3
    } else if w == "scope"@ {
        4
    } else if w == "src"@ {
        5
    } else if w == "metric"@ {
        6
    } else {
        0
    }
}

pub open spec fn route_set(acc: RouteV, key: int, v: Seq<char>) -> RouteV {
    RouteV {
        via: if key == 1 { v } else { acc.via },
        dev: if key == 2 { v } else { acc.dev },
        proto: if key == 3 { v } else { acc.proto },
        scope: if key == 4 { v } else { acc.scope },
        src: if key == 5 { v } else { acc.src },
        metric: if key == 6 { v } else { acc.metric },
        details: acc.details,
    }
}

/// Reads the words from `pos`: a keyword followed by a word sets that
/// attribute (the last one wins); any other word is a detail.
pub open spec fn route_scan(w: Seq<Seq<char>>, pos: int, acc: RouteV) -> RouteV
    decreases w.len() - pos,
{
    if pos < 0 || pos >= w.len() {
        acc
    } else if route_key(w[pos]) != 0 && pos + 1 < w.len() {
        route_scan(w, pos + 2, route_set(acc, route_key(w[pos]), w[pos + 1]))
    } else {
        route_scan(
            w,
            pos + 1,
            RouteV { details: acc.details.push(w[pos]), ..acc },
        )
    }
}

pub open spec fn route_special(w: Seq<char>) -> bool {
    w == "local"@ || w == "broadcast"@ || w == "unreachable"@ || w == "blackhole"@ || w
        == "prohibit"@ || w == "throw"@
}

pub open spec fn empty_route() -> RouteV {
    RouteV {
        via: seq![],
        dev: seq![],
        proto: seq![],
        scope: seq![],
        src: seq![],
        metric: seq![],
        details: seq![],
    }
}

pub open spec fn route_row(w: Seq<Seq<char>>) -> Seq<CellV> {
    let special = route_special(w[0]) && w.len() > 1;
    let dest = if special {
        w[0] + " "@ + w[1]
    } else {
        w[0]
    };
    let a = route_scan(
        w,
        if special {
            2
        } else {
            1
        },
        empty_route(),
    );
    seq![
        cell_v(dest, Style::Accent),
        cell_v(a.via, Style::Info),
        cell_v(a.dev, Style::Good),
        cell_v(a.proto, Style::Plain),
        cell_v(a.scope, Style::Plain),
        cell_v(a.src, Style::Plain),
        cell_v(a.metric, Style::Plain),
        cell_v(join(a.details, " "@), Style::Muted),
    ]
}

/// One row per line that has words.
pub open spec fn ip_fold(ls: Seq<Seq<char>>) -> Seq<Seq<CellV>>
    decreases ls.len(),
{
    if ls.len() == 0 {
        seq![]
    } else if words(ls.last()).len() == 0 {
        ip_fold(ls.drop_last())
    } else {
        ip_fold(ls.drop_last()).push(route_row(words(ls.last())))
    }
}

pub open spec fn ip_columns() -> Seq<ColumnV> {
    seq![
        column_v("destination"@, "DESTINATION"@, 0, Alignment::Left),
        column_v("gateway"@, "GATEWAY"@, 1, Alignment::Left),
        column_v("device"@, "DEVICE"@, 1, Alignment::Left),
        column_v("protocol"@, "PROTOCOL"@, 2, Alignment::Left),
        column_v("scope"@, "SCOPE"@, 2, Alignment::Left),
        column_v("source"@, "SOURCE"@, 2, Alignment::Left),
        column_v("metric"@, "METRIC"@, 3, Alignment::Right),
        column_v("details"@, "DETAILS"@, 3, Alignment::Left),
    ]
}

pub open spec fn ip_parse(input: Seq<char>) -> Option<ContentV> {
    table_of(ip_columns(), Some(ip_fold(nonblank(lines(input)))))
}

pub fn ip_detect_exec(source: &[char], first_lines: &[char]) -> (r: bool)
    ensures
        r == ip_detect(source@, first_lines@),
{
    if !eq_str(source, "ip") {
        return false;
    }
    let ls = nonblank_lines(first_lines);
    let ghost lv = ls.deep_view();
    let mut i: usize = 0;
    while i < ls.len()
        invariant
            i <= ls@.len(),
            lv == ls.deep_view(),
            lv == nonblank(lines(first_lines@)),
            source@ == "ip"@,
            forall|k: int| 0 <= k < i ==> !#[trigger] route_words_ok(words(lv[k])),
        decreases ls@.len() - i,
    {
        proof {
            lemma_deep_chars(&ls@[i as int]);
        }
        let w = split_words(ls[i].as_slice());
        let first_default = if w.len() > 0 {
            proof {
                lemma_deep_chars(&w@[0]);
            }
            eq_str(w[0].as_slice(), "default")
        } else {
            false
        };
        if has_word(&w, "dev") && (has_word(&w, "via") || has_word(&w, "scope") || first_default) {
            assert(route_words_ok(words(lv[i as int])));
            return true;
        }
        i += 1;
    }
    false
}

fn route_key_exec(w: &[char]) -> (r: u8)
    ensures
        r as int == route_key(w@),
{
    if eq_str(w, "via") {
        1
    } else if eq_str(w, "dev") {
        2
    } else if eq_str(w, "proto") {
        3
    } else if eq_str(w, "scope") {
        4
    } else if eq_str(w, "src") {
        5
    } else if eq_str(w, "metric") {
        6
    } else {
        0
    }
}

fn route_row_exec(w: &Vec<Vec<char>>) -> (r: Vec<Cell>)
    requires
        w@.len() > 0,
    ensures
        row_view(r) == route_row(w.deep_view()),
        r@.len() == 8,
{
    let ghost wv = w.deep_view();
    proof {
        lemma_deep_chars(&w@[0]);
    }
    let special = route_special_exec(w[0].as_slice()) && w.len() > 1;
    let mut dest = copy(w[0].as_slice());
    let mut pos: usize = 1;
    if special {
        proof {
            lemma_deep_chars(&w@[1]);
        }
        dest.push(' ');
        crate::text::extend(&mut dest, w[1].as_slice());
        pos = 2;
        proof {
            reveal_strlit(" ");
        }
        assert(dest@ =~= wv[0] + " "@ + wv[1]);
    }
    let mut via: Vec<char> = Vec::new();
    let mut dev: Vec<char> = Vec::new();
    let mut proto: Vec<char> = Vec::new();
    let mut scope: Vec<char> = Vec::new();
    let mut src: Vec<char> = Vec::new();
    let mut metric: Vec<char> = Vec::new();
    let mut details: Vec<Vec<char>> = Vec::new();
    let ghost start = pos;
    assert(details.deep_view() =~= seq![]);
    assert(via@ =~= seq![] && dev@ =~= seq![] && proto@ =~= seq![] && scope@ =~= seq![]);
    assert(src@ =~= seq![] && metric@ =~= seq![]);
    while pos < w.len()
        invariant
            wv == w.deep_view(),
            1 <= start <= pos,
            route_scan(wv, start as int, empty_route()) == route_scan(
                wv,
                pos as int,
                RouteV {
                    via: via@,
                    dev: dev@,
                    proto: proto@,
                    scope: scope@,
                    src: src@,
                    metric: metric@,
                    details: details.deep_view(),
                },
            ),
        decreases w@.len() - pos,
    {
        proof {
            lemma_deep_chars(&w@[pos as int]);
        }
        let key = route_key_exec(w[pos].as_slice());
        if key != 0 && pos + 1 < w.len() {
            proof {
                lemma_deep_chars(&w@[pos + 1]);
            }
            let v = copy(w[pos + 1].as_slice());
            if key == 1 {
                via = v;
            } else if key == 2 {
                dev = v;
            } else if key == 3 {
                proto = v;
            } else if key == 4 {
                scope = v;
            } else if key == 5 {
                src = v;
            } else {
                metric = v;
            }
            pos += 2;
        } else {
            let d = copy(w[pos].as_slice());
            let ghost before = details.deep_view();
            proof {
                lemma_deep_chars(&d);
            }
            details.push(d);
            assert(details.deep_view() =~= before.push(wv[pos as int]));
            pos += 1;
        }
    }
    let space = chars_of(" ");
    let joined = join_with(&details, space.as_slice());
    let mut row: Vec<Cell> = Vec::new();
    row.push(Cell::from_chars(dest.as_slice(), Style::Accent));
    row.push(Cell::from_chars(via.as_slice(), Style::Info));
    row.push(Cell::from_chars(dev.as_slice(), Style::Good));
    row.push(Cell::from_chars(proto.as_slice(), Style::Plain));
    row.push(Cell::from_chars(scope.as_slice(), Style::Plain));
    row.push(Cell::from_chars(src.as_slice(), Style::Plain));
    row.push(Cell::from_chars(metric.as_slice(), Style::Plain));
    row.push(Cell::from_chars(joined.as_slice(), Style::Muted));
    assert(row_view(row) =~= route_row(wv));
    row
}

fn route_special_exec(w: &[char]) -> (r: bool)
    ensures
        r == route_special(w@),
{
    eq_str(w, "local") || eq_str(w, "broadcast") || eq_str(w, "unreachable") || eq_str(
        w,
        "blackhole",
    ) || eq_str(w, "prohibit") || eq_str(w, "throw")
}

fn ip_columns_exec() -> (r: Vec<Column>)
    ensures
        columns_view(r@) == ip_columns(),
{
    let mut c: Vec<Column> = Vec::new();
    c.push(col("destination", "DESTINATION", 0));
    c.push(col("gateway", "GATEWAY", 1));
    c.push(col("device", "DEVICE", 1));
    c.push(col("protocol", "PROTOCOL", 2));
    c.push(col("scope", "SCOPE", 2));
    c.push(col("source", "SOURCE", 2));
    c.push(num_col("metric", "METRIC", 3));
    c.push(col("details", "DETAILS", 3));
    assert(columns_view(c@) =~= ip_columns());
    c
}

pub fn ip_parse_exec(input: &[char]) -> (r: Option<Content>)
    ensures
        crate::model::content_opt_view(r) == ip_parse(input@),
{
    let ls = nonblank_lines(input);
    let ghost lv = ls.deep_view();
    let mut rows: Vec<Vec<Cell>> = Vec::new();
    let mut i: usize = 0;
    while i < ls.len()
        invariant
            i <= ls@.len(),
            lv == ls.deep_view(),
            rows_view(rows@) == ip_fold(lv.take(i as int)),
            forall|j: int| 0 <= j < rows@.len() ==> (#[trigger] rows@[j])@.len() == 8,
        decreases ls@.len() - i,
    {
        proof {
            lemma_deep_chars(&ls@[i as int]);
        }
        assert(lv.take(i + 1).drop_last() =~= lv.take(i as int));
        assert(lv.take(i + 1).last() == lv[i as int]);
        let w = split_words(ls[i].as_slice());
        if w.len() > 0 {
            let row = route_row_exec(&w);
            proof {
                lemma_rows_push(rows@, row);
            }
            rows.push(row);
        }
        i += 1;
    }
    assert(lv.take(ls@.len() as int) =~= lv);
    let columns = ip_columns_exec();
    assert(columns@.len() == columns_view(columns@).len());
    finish(columns, rows)
}

} // verus!

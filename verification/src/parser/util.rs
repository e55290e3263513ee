use vstd::prelude::*;

use vstd::string::StringSliceAdditionalSpecFns;
use crate::model::{Alignment, Cell, Column, Style, Table};
use crate::text::{
    chars_of, eq_str, is_ascii_digit, is_digit, is_whitespace, is_ws, lemma_deep_chars, lower,
    slice_of, string_of, to_lower, to_upper, trim, trim_start, trimmed, trimmed_start, upper,
};

verus! {

pub open spec fn is_kind_char(c: char) -> bool {
    c == '-' || c == 'd' || c == 'l' || c == 'b' || c == 'c' || c == 'p' || c == 's'
}

pub open spec fn is_mode_char(c: char) -> bool {
    c == 'r' || c == 'w' || c == 'x' || c == 's' || c == 'S' || c == 't' || c == 'T' || c == '-'
}

/// A symbolic permission string such as `drwxr-xr-x`: a file-kind character
/// followed by nine mode characters (anything may follow).
pub open spec fn permissions(s: Seq<char>) -> bool {
    &&& s.len() >= 10
    &&& is_kind_char(s[0])
    &&& forall|j: int| 1 <= j < 10 ==> is_mode_char(#[trigger] s[j])
}

pub fn is_permissions_chars(s: &[char]) -> (r: bool)
    ensures
        r == permissions(s@),
{
    if s.len() < 10 {
        return false;
    }
    let c = s[0];
    if !(c == '-' || c == 'd' || c == 'l' || c == 'b' || c == 'c' || c == 'p' || c == 's') {
        return false;
    }
    let mut i: usize = 1;
    while i < 10
        invariant
            1 <= i <= 10 <= s@.len(),
            forall|j: int| 1 <= j < i ==> is_mode_char(#[trigger] s@[j]),
        decreases 10 - i,
    {
        let m = s[i];
        if !(m == 'r' || m == 'w' || m == 'x' || m == 's' || m == 'S' || m == 't' || m == 'T' || m
            == '-') {
            return false;
        }
        i += 1;
    }
    true
}

pub fn is_permissions(value: &str) -> (r: bool)
    ensures
        r == permissions(value@),
{
    let v = chars_of(value);
    is_permissions_chars(v.as_slice())
}

/// An English three-letter month abbreviation, in any letter case.
pub open spec fn month(s: Seq<char>) -> bool {
    let l = lower(s);
    ||| l == "jan"@
    ||| l == "feb"@
    ||| l == "mar"@
    ||| l == "apr"@
    ||| l == "may"@
    ||| l == "jun"@
    ||| l == "jul"@
    ||| l == "aug"@
    ||| l == "sep"@
    ||| l == "oct"@
    ||| l == "nov"@
    ||| l == "dec"@
}

pub fn is_month_chars(s: &[char]) -> (r: bool)
    ensures
        r == month(s@),
{
    let l = to_lower(s);
    let l = l.as_slice();
    eq_str(l, "jan") || eq_str(l, "feb") || eq_str(l, "mar") || eq_str(l, "apr") || eq_str(l, "may")
        || eq_str(l, "jun") || eq_str(l, "jul") || eq_str(l, "aug") || eq_str(l, "sep") || eq_str(
        l,
        "oct",
    ) || eq_str(l, "nov") || eq_str(l, "dec")
}

pub fn is_month(value: &str) -> (r: bool)
    ensures
        r == month(value@),
{
    let v = chars_of(value);
    is_month_chars(v.as_slice())
}

/// The style of a log level name, in any letter case.
pub open spec fn level_style(s: Seq<char>) -> Style {
    let u = upper(s);
    if u == "ERROR"@ || u == "ERR"@ || u == "FATAL"@ || u == "CRITICAL"@ {
        Style::Error
    } else if u == "WARN"@ || u == "WARNING"@ {
        Style::Warning
    } else if u == "INFO"@ || u == "NOTICE"@ {
        Style::Info
    } else if u == "DEBUG"@ || u == "TRACE"@ {
        Style::Debug
    } else {
        Style::Plain
    }
}

pub fn style_for_level_chars(level: &[char]) -> (r: Style)
    ensures
        r == level_style(level@),
{
    let u = to_upper(level);
    let u = u.as_slice();
    if eq_str(u, "ERROR") || eq_str(u, "ERR") || eq_str(u, "FATAL") || eq_str(u, "CRITICAL") {
        Style::Error
    } else if eq_str(u, "WARN") || eq_str(u, "WARNING") {
        Style::Warning
    } else if eq_str(u, "INFO") || eq_str(u, "NOTICE") {
        Style::Info
    } else if eq_str(u, "DEBUG") || eq_str(u, "TRACE") {
        Style::Debug
    } else {
        Style::Plain
    }
}

pub fn style_for_level(level: &str) -> (r: Style)
    ensures
        r == level_style(level@),
{
    let v = chars_of(level);
    style_for_level_chars(v.as_slice())
}

/// Every row has one cell per column.
pub open spec fn rectangular(columns: Seq<Column>, rows: Seq<Vec<Cell>>) -> bool {
    forall|i: int| 0 <= i < rows.len() ==> (#[trigger] rows[i])@.len() == columns.len()
}

/// A table of the given columns and rows, when there is at least one row
/// and every row has one cell per column.
pub fn table(columns: Vec<Column>, rows: Vec<Vec<Cell>>) -> (r: Option<Table>)
    ensures
        r.is_some() <==> (rows@.len() > 0 && rectangular(columns@, rows@)),
        r matches Some(t) ==> t.columns == columns && t.rows == rows && t.prelude@.len() == 0,
{
    if rows.len() == 0 {
        return None;
    }
    let mut i: usize = 0;
    while i < rows.len()
        invariant
            i <= rows@.len(),
            forall|j: int| 0 <= j < i ==> (#[trigger] rows@[j])@.len() == columns@.len(),
        decreases rows@.len() - i,
    {
        if rows[i].len() != columns.len() {
            return None;
        }
        i += 1;
    }
    Some(Table { columns, rows, prelude: Vec::new() })
}

pub fn col(key: &str, label: &str, priority: u8) -> (c: Column)
    ensures
        c.key@ == key@,
        c.label@ == label@,
        c.priority == priority,
        c.alignment == Alignment::Left,
        c.value_type == crate::model::ValueType::Text,
{
    Column::new(key, label, priority, Alignment::Left)
}

pub fn num_col(key: &str, label: &str, priority: u8) -> (c: Column)
    ensures
        c.key@ == key@,
        c.label@ == label@,
        c.priority == priority,
        c.alignment == Alignment::Right,
        c.value_type == crate::model::ValueType::Text,
{
    Column::new(key, label, priority, Alignment::Right)
}

pub open spec fn is_ascii_ws_byte(b: u8) -> bool {
    b == 32 || b == 9 || b == 10 || b == 12 || b == 13
}

/// Column starts of an aligned header, scanning its bytes from `i`. `mode` is
/// 0 while looking for a column, 1 inside a column, 2 inside a whitespace run
/// that began at `run`. A new column starts after a run of two or more
/// whitespace bytes.
pub open spec fn starts_from(b: Seq<u8>, i: int, mode: int, run: int) -> Seq<usize>
    decreases b.len() - i,
{
    if i < 0 || i >= b.len() {
        seq![]
    } else if mode == 0 {
        if is_ascii_ws_byte(b[i]) {
            starts_from(b, i + 1, 0, run)
        } else {
            seq![i as usize] + starts_from(b, i + 1, 1, run)
        }
    } else if mode == 1 {
        if is_ascii_ws_byte(b[i]) {
            starts_from(b, i + 1, 2, i)
        } else {
            starts_from(b, i + 1, 1, run)
        }
    } else {
        if is_ascii_ws_byte(b[i]) {
            starts_from(b, i + 1, 2, run)
        } else if i - run >= 2 {
            seq![i as usize] + starts_from(b, i + 1, 1, run)
        } else {
            starts_from(b, i + 1, 1, run)
        }
    }
}

/// The byte offsets at which the columns of an aligned header begin: the
/// first non-whitespace byte, and every byte that follows a run of at least
/// two whitespace bytes.
pub fn aligned_starts(header: &str) -> (starts: Vec<usize>)
    ensures
        starts@ == starts_from(header.spec_bytes(), 0, 0, 0),
{
    let b = header.as_bytes();
    let mut starts: Vec<usize> = Vec::new();
    let mut i: usize = 0;
    let mut mode: usize = 0;
    let mut run: usize = 0;
    while i < b.len()
        invariant
            i <= b@.len(),
            mode <= 2,
            run <= i,
            b@ == header.spec_bytes(),
            starts_from(b@, 0, 0, 0) == starts@ + starts_from(b@, i as int, mode as int, run as int),
        decreases b@.len() - i,
    {
        let byte = b[i];
        let ws = byte == 32 || byte == 9 || byte == 10 || byte == 12 || byte == 13;
        let ghost before = starts@;
        if mode == 0 {
            if !ws {
                starts.push(i);
                mode = 1;
            }
        } else if mode == 1 {
            if ws {
                mode = 2;
                run = i;
            }
        } else {
            if !ws {
                if i - run >= 2 {
                    starts.push(i);
                }
                mode = 1;
            }
        }
        assert(starts_from(b@, 0, 0, 0) == starts@ + starts_from(
            b@,
            i + 1,
            mode as int,
            run as int,
        )) by {
            assert(starts@ =~= before || starts@ =~= before + seq![i]);
            if starts@ =~= before + seq![i] {
                assert(before + seq![i] + starts_from(b@, i + 1, mode as int, run as int) =~= before
                    + (seq![i] + starts_from(b@, i + 1, mode as int, run as int)));
            }
        }
        i += 1;
    }
    assert(starts@ + starts_from(b@, i as int, mode as int, run as int) =~= starts@);
    starts
}

/// `line.get(lo..hi)`: the characters between two byte offsets, when both lie
/// on character boundaries and `lo <= hi <= len`.
pub open spec fn byte_slice(line: Seq<char>, lo: int, hi: int) -> Option<Seq<char>> {
    let b = vstd::utf8::encode_utf8(line);
    if 0 <= lo <= hi <= b.len() && vstd::utf8::is_char_boundary(b, lo)
        && vstd::utf8::is_char_boundary(b, hi) {
        Some(vstd::utf8::decode_utf8(b.subrange(lo, hi)))
    } else {
        None
    }
}

/// The trimmed text of column `k` of `line`, the columns starting at the given
/// byte offsets (empty when the column lies outside the line or does not
/// fall on character boundaries).
pub open spec fn field_at(line: Seq<char>, starts: Seq<usize>, k: int) -> Seq<char> {
    let len = vstd::utf8::encode_utf8(line).len() as int;
    let start = starts[k] as int;
    let end = if k + 1 < starts.len() { starts[k + 1] as int } else { len };
    let end = if end < len { end } else { len };
    if start >= len {
        seq![]
    } else {
        match byte_slice(line, start, end) {
            Some(s) => trim(s),
            None => seq![],
        }
    }
}

/// The characters of the bytes `lo..hi` of `line`, if they lie on boundaries.
pub fn get_byte_range(line: &str, lo: usize, hi: usize) -> (r: Option<Vec<char>>)
    ensures
        match r {
            Some(v) => byte_slice(line@, lo as int, hi as int) == Some(v@),
            None => byte_slice(line@, lo as int, hi as int).is_none(),
        },
{
    let len = line.as_bytes().len();
    proof {
        broadcast use vstd::utf8::is_char_boundary_start_end_of_seq;

    }
    assert(len == line.spec_bytes().len());
    if !(lo <= hi && hi <= len) {
        return None;
    }
    if !line.is_char_boundary(lo) || !line.is_char_boundary(hi) {
        return None;
    }
    let (_, tail) = line.split_at(lo);
    proof {
        let b = line.spec_bytes();
        vstd::utf8::encode_utf8_valid_utf8(line@);
        vstd::utf8::valid_utf8_split(b, lo as int);
        let t = b.subrange(lo as int, b.len() as int);
        assert(tail.spec_bytes() =~= t);
        if hi < len {
            vstd::utf8::is_char_boundary_iff_not_is_continuation_byte(b, hi as int);
            vstd::utf8::is_char_boundary_iff_not_is_continuation_byte(t, (hi - lo) as int);
            assert(t[hi - lo] == b[hi as int]);
        } else {
            vstd::utf8::is_char_boundary_start_end_of_seq(t);
        }
    }
    let (middle, _) = tail.split_at(hi - lo);
    proof {
        vstd::utf8::encode_utf8_decode_utf8(middle@);
        assert(middle.spec_bytes() =~= line.spec_bytes().subrange(lo as int, hi as int));
    }
    Some(chars_of(middle))
}

/// `split_at_starts`: the trimmed text of each column of `line`.
pub fn split_at_starts(line: &str, starts: &[usize]) -> (r: Vec<String>)
    ensures
        r@.len() == starts@.len(),
        forall|k: int| 0 <= k < starts@.len() ==> (#[trigger] r@[k])@ == field_at(line@, starts@, k),
{
    let len = line.as_bytes().len();
    let mut out: Vec<String> = Vec::new();
    let mut k: usize = 0;
    while k < starts.len()
        invariant
            k <= starts@.len(),
            len == line.spec_bytes().len(),
            out@.len() == k,
            forall|j: int| 0 <= j < k ==> (#[trigger] out@[j])@ == field_at(line@, starts@, j),
        decreases starts@.len() - k,
    {
        let start = starts[k];
        let mut end = if k + 1 < starts.len() { starts[k + 1] } else { len };
        if end > len {
            end = len;
        }
        let value = if start >= len {
            String::new()
        } else {
            match get_byte_range(line, start, end) {
                Some(v) => string_of(trimmed(v.as_slice()).as_slice()),
                None => String::new(),
            }
        };
        out.push(value);
        k += 1;
    }
    out
}

/// The index of the first whitespace character at or after `i` (or the length).
pub open spec fn ws_index(s: Seq<char>, i: int) -> int
    decreases s.len() - i,
{
    if i < 0 || i >= s.len() {
        s.len() as int
    } else if is_ws(s[i]) {
        i
    } else {
        ws_index(s, i + 1)
    }
}

/// Splitting `rest` into at most `n` whitespace-separated fields, the last
/// field taking the remainder of the text.
pub open spec fn limit_fields(rest: Seq<char>, n: int) -> Seq<Seq<char>>
    decreases n,
{
    if n > 1 && ws_index(rest, 0) < rest.len() {
        let e = ws_index(rest, 0);
        seq![rest.take(e)] + limit_fields(trim_start(rest.skip(e)), n - 1)
    } else if rest.len() > 0 {
        seq![rest]
    } else {
        seq![]
    }
}

/// `split_whitespace_limit`: at most `fields` fields of the trimmed input.
pub open spec fn split_limit(input: Seq<char>, fields: int) -> Seq<Seq<char>> {
    if fields <= 0 {
        seq![]
    } else {
        limit_fields(trim(input), fields)
    }
}

pub fn first_ws(s: &[char]) -> (r: usize)
    ensures
        r as int == ws_index(s@, 0),
        r <= s@.len(),
{
    let mut i: usize = 0;
    while i < s.len() && !is_whitespace(s[i])
        invariant
            i <= s@.len(),
            ws_index(s@, 0) == ws_index(s@, i as int),
        decreases s@.len() - i,
    {
        i += 1;
    }
    i
}

pub fn split_limit_chars(input: &[char], fields: usize) -> (r: Vec<Vec<char>>)
    ensures
        r.deep_view() == split_limit(input@, fields as int),
{
    let mut result: Vec<Vec<char>> = Vec::new();
    if fields == 0 {
        return result;
    }
    let mut rest = trimmed(input);
    let mut done = false;
    while !done && result.len() + 1 < fields
        invariant
            result@.len() < fields,
            split_limit(input@, fields as int) == result.deep_view() + limit_fields(
                rest@,
                fields - result@.len(),
            ),
            done ==> ws_index(rest@, 0) >= rest@.len(),
        decreases fields - result@.len(), if done { 0int } else { 1int },
    {
        let end = first_ws(rest.as_slice());
        if end >= rest.len() {
            done = true;
        } else {
            let word = slice_of(rest.as_slice(), 0, end);
            let tail = slice_of(rest.as_slice(), end, rest.len());
            let next = trimmed_start(tail.as_slice());
            let ghost before = result.deep_view();
            proof {
                lemma_deep_chars(&word);
                assert(rest@.skip(end as int) =~= tail@);
                assert(word@ =~= rest@.take(end as int));
            }
            result.push(word);
            assert(result.deep_view() =~= before + seq![word@]);
            rest = next;
        }
    }
    let ghost before = result.deep_view();
    let ghost rv = rest@;
    if rest.len() > 0 {
        proof {
            lemma_deep_chars(&rest);
        }
        result.push(rest);
        assert(result.deep_view() =~= before + seq![rv]);
    } else {
        assert(before + limit_fields(rv, fields - before.len()) =~= before);
    }
    result
}

pub fn split_whitespace_limit(input: &str, fields: usize) -> (r: Vec<String>)
    ensures
        r@.len() == split_limit(input@, fields as int).len(),
        forall|k: int| 0 <= k < r@.len() ==> (#[trigger] r@[k])@ == split_limit(input@, fields as int)[k],
{
    let v = chars_of(input);
    let parts = split_limit_chars(v.as_slice(), fields);
    strings_of(&parts)
}

/// Strings holding each piece.
pub fn strings_of(parts: &Vec<Vec<char>>) -> (r: Vec<String>)
    ensures
        r@.len() == parts@.len(),
        forall|k: int| 0 <= k < r@.len() ==> (#[trigger] r@[k])@ == parts.deep_view()[k],
{
    let mut out: Vec<String> = Vec::new();
    let mut k: usize = 0;
    while k < parts.len()
        invariant
            k <= parts@.len(),
            out@.len() == k,
            forall|j: int| 0 <= j < k ==> (#[trigger] out@[j])@ == parts.deep_view()[j],
        decreases parts@.len() - k,
    {
        out.push(string_of(parts[k].as_slice()));
        proof { lemma_deep_chars(&parts@[k as int]); }
        k += 1;
    }
    out
}

pub open spec fn is_numeric_punct(c: char) -> bool {
    c == '%' || c == '+' || c == '-' || c == '.' || c == ','
}

pub open spec fn strip_punct_start(s: Seq<char>) -> Seq<char>
    decreases s.len(),
{
    if s.len() > 0 && is_numeric_punct(s[0]) {
        strip_punct_start(s.drop_first())
    } else {
        s
    }
}

pub open spec fn strip_punct_end(s: Seq<char>) -> Seq<char>
    decreases s.len(),
{
    if s.len() > 0 && is_numeric_punct(s.last()) {
        strip_punct_end(s.drop_last())
    } else {
        s
    }
}

/// Digits, possibly surrounded by `%`, `+`, `-`, `.` and `,` characters.
pub open spec fn numeric(s: Seq<char>) -> bool {
    let t = strip_punct_end(strip_punct_start(s));
    t.len() > 0 && forall|j: int| 0 <= j < t.len() ==> is_digit(#[trigger] t[j])
}

pub fn looks_numeric_chars(s: &[char]) -> (r: bool)
    ensures
        r == numeric(s@),
{
    let mut a: usize = 0;
    assert(s@.skip(0) =~= s@);
    while a < s.len() && (s[a] == '%' || s[a] == '+' || s[a] == '-' || s[a] == '.' || s[a] == ',')
        invariant
            a <= s@.len(),
            strip_punct_start(s@) == strip_punct_start(s@.skip(a as int)),
        decreases s@.len() - a,
    {
        assert(s@.skip(a as int).drop_first() =~= s@.skip(a + 1));
        a += 1;
    }
    let ghost t0 = s@.skip(a as int);
    assert(strip_punct_start(s@) == t0);
    let mut b: usize = s.len();
    assert(t0 =~= s@.subrange(a as int, b as int));
    while b > a && (s[b - 1] == '%' || s[b - 1] == '+' || s[b - 1] == '-' || s[b - 1] == '.' || s[b
        - 1] == ',')
        invariant
            a <= b <= s@.len(),
            t0 == s@.subrange(a as int, s@.len() as int),
            strip_punct_end(t0) == strip_punct_end(s@.subrange(a as int, b as int)),
        decreases b,
    {
        assert(s@.subrange(a as int, b as int).drop_last() =~= s@.subrange(a as int, b - 1));
        b -= 1;
    }
    let ghost t = s@.subrange(a as int, b as int);
    assert(strip_punct_end(t0) == t);
    if a == b {
        assert(t.len() == 0);
        assert(strip_punct_end(strip_punct_start(s@)) == t);
        return false;
    }
    let mut i = a;
    while i < b
        invariant
            a <= i <= b <= s@.len(),
            t == s@.subrange(a as int, b as int),
            strip_punct_end(strip_punct_start(s@)) == t,
            forall|j: int| 0 <= j < i - a ==> is_digit(#[trigger] t[j]),
        decreases b - i,
    {
        if !is_ascii_digit(s[i]) {
            assert(!is_digit(t[i - a]));
            return false;
        }
        i += 1;
    }
    true
}

pub fn looks_numeric(value: &str) -> (r: bool)
    ensures
        r == numeric(value@),
{
    let v = chars_of(value);
    looks_numeric_chars(v.as_slice())
}

} // verus!

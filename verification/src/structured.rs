//! Parsed views as JSON, CSV or YAML.
use vstd::prelude::*;

use crate::model::{row_view, CellV, Column, ColumnV, Content, ContentV, LogRecord, LogRecordV, Table, TableV};
use crate::text::{chars_of, eq_str, extend, extend_str, join, push_text, string_of};

verus! {

#[derive(Debug, Clone, Copy, PartialEq, Eq, Structural)]
pub enum StructuredFormat {
    Json,
    Csv,
    Yaml,
}

impl StructuredFormat {
    /// `json`, `csv`, and `yaml` or `yml`.
    pub fn from_name(name: &str) -> (r: Option<Self>)
        ensures
            name@ == "json"@ ==> r == Some(StructuredFormat::Json),
            name@ == "csv"@ ==> r == Some(StructuredFormat::Csv),
            (name@ == "yaml"@ || name@ == "yml"@) ==> r == Some(StructuredFormat::Yaml),
            !(name@ == "json"@ || name@ == "csv"@ || name@ == "yaml"@ || name@ == "yml"@) ==> r.is_none(),
    {
        let v = chars_of(name);
        let s = v.as_slice();
        proof {
            reveal_strlit("json");
            reveal_strlit("csv");
            reveal_strlit("yaml");
            reveal_strlit("yml");
            assert("csv"@.len() != "json"@.len());
            assert("yaml"@[0] != "json"@[0]);
            assert("yaml"@.len() != "csv"@.len());
            assert("yml"@.len() != "json"@.len());
            assert("yml"@[0] != "csv"@[0]);
        }
        if eq_str(s, "json") {
            Some(StructuredFormat::Json)
        } else if eq_str(s, "csv") {
            Some(StructuredFormat::Csv)
        } else if eq_str(s, "yaml") || eq_str(s, "yml") {
            Some(StructuredFormat::Yaml)
        } else {
            None
        }
    }
}

/// The pieces one after the other.
pub open spec fn concat(parts: Seq<Seq<char>>) -> Seq<char>
    decreases parts.len(),
{
    if parts.len() == 0 {
        seq![]
    } else {
        concat(parts.drop_last()) + parts.last()
    }
}

pub open spec fn lower_hex(d: int) -> char {
    if d < 10 {
        ((d + 48) as u8) as char
    } else {
        ((d + 87) as u8) as char
    }
}

/// A character inside a JSON string literal.
pub open spec fn json_char(c: char) -> Seq<char> {
    if c == '"' {
        seq!['\\', '"']
    } else if c == '\\' {
        seq!['\\', '\\']
    } else if c == '\n' {
        seq!['\\', 'n']
    } else if c == '\r' {
        seq!['\\', 'r']
    } else if c == '\t' {
        seq!['\\', 't']
    } else if c == '\u{8}' {
        seq!['\\', 'b']
    } else if c == '\u{c}' {
        seq!['\\', 'f']
    } else if (c as u32) < 0x20 {
        seq!['\\', 'u', '0', '0', lower_hex((c as u32) as int / 16), lower_hex((c as u32) as int % 16)]
    } else {
        seq![c]
    }
}

pub open spec fn json_chars(v: Seq<char>) -> Seq<char>
    decreases v.len(),
{
    if v.len() == 0 {
        seq![]
    } else {
        json_chars(v.drop_last()) + json_char(v.last())
    }
}

/// A JSON string literal.
pub open spec fn json_lit(v: Seq<char>) -> Seq<char> {
    seq!['"'] + json_chars(v) + seq!['"']
}

fn hex_digit(d: u32) -> (c: char)
    requires
        d < 16,
    ensures
        c == lower_hex(d as int),
{
    if d < 10 {
        ((d as u8) + 48) as char
    } else {
        ((d as u8) + 87) as char
    }
}

fn write_json_string(out: &mut Vec<char>, value: &[char])
    ensures
        final(out)@ == old(out)@ + json_lit(value@),
{
    let ghost start = out@;
    out.push('"');
    let mut i: usize = 0;
    while i < value.len()
        invariant
            i <= value@.len(),
            out@ == start + seq!['"'] + json_chars(value@.take(i as int)),
        decreases value@.len() - i,
    {
        let c = value[i];
        if c == '"' {
            out.push('\\');
            out.push('"');
        } else if c == '\\' {
            out.push('\\');
            out.push('\\');
        } else if c == '\n' {
            out.push('\\');
            out.push('n');
        } else if c == '\r' {
            out.push('\\');
            out.push('r');
        } else if c == '\t' {
            out.push('\\');
            out.push('t');
        } else if c == '\u{8}' {
            out.push('\\');
            out.push('b');
        } else if c == '\u{c}' {
            out.push('\\');
            out.push('f');
        } else if (c as u32) < 0x20 {
            out.push('\\');
            out.push('u');
            out.push('0');
            out.push('0');
            out.push(hex_digit((c as u32) / 16));
            out.push(hex_digit((c as u32) % 16));
        } else {
            out.push(c);
        }
        assert(value@.take(i + 1).drop_last() =~= value@.take(i as int));
        i += 1;
        assert(out@ =~= start + seq!['"'] + json_chars(value@.take(i as int)));
    }
    assert(value@.take(value@.len() as int) =~= value@);
    out.push('"');
    assert(out@ =~= start + json_lit(value@));
}

/// The text of cell `k` of a row, empty when the row is shorter.
pub open spec fn cell_text(row: Seq<CellV>, k: int) -> Seq<char> {
    if 0 <= k < row.len() {
        row[k].text
    } else {
        seq![]
    }
}

/// `"key": "value"` for column `k` of a row.
pub open spec fn json_pair(cols: Seq<ColumnV>, row: Seq<CellV>, k: int) -> Seq<char> {
    json_lit(cols[k].key) + ": "@ + json_lit(cell_text(row, k))
}

/// The pairs of the first `n` columns, separated by `, `.
pub open spec fn json_pairs(cols: Seq<ColumnV>, row: Seq<CellV>, n: int) -> Seq<char>
    decreases n,
{
    if n <= 0 {
        seq![]
    } else if n == 1 {
        json_pair(cols, row, 0)
    } else {
        json_pairs(cols, row, n - 1) + ", "@ + json_pair(cols, row, n - 1)
    }
}

pub open spec fn comma_if(more: bool) -> Seq<char> {
    if more {
        seq![',']
    } else {
        seq![]
    }
}

pub open spec fn json_opt(o: Option<Seq<char>>) -> Seq<char> {
    match o {
        Some(v) => json_lit(v),
        None => "null"@,
    }
}

pub open spec fn json_record(r: LogRecordV) -> Seq<char> {
    "  {\"timestamp\": "@ + json_opt(r.timestamp) + ", \"level\": "@ + json_opt(r.level)
        + ", \"message\": "@ + json_lit(r.message) + seq!['}']
}

/// The JSON lines of the first `n` rows.
pub open spec fn json_table_lines(t: TableV, n: int) -> Seq<char>
    decreases n,
{
    if n <= 0 {
        seq![]
    } else {
        json_table_lines(t, n - 1) + "  {"@ + json_pairs(t.columns, t.rows[n - 1], t.columns.len() as int)
            + seq!['}'] + comma_if(n < t.rows.len()) + seq!['\n']
    }
}

/// The JSON lines of the first `n` records.
pub open spec fn json_log_lines(rs: Seq<LogRecordV>, n: int) -> Seq<char>
    decreases n,
{
    if n <= 0 {
        seq![]
    } else {
        json_log_lines(rs, n - 1) + json_record(rs[n - 1]) + comma_if(n < rs.len()) + seq!['\n']
    }
}

/// One object per row (or record), keys in column order, one per line.
pub open spec fn to_json_spec(v: ContentV) -> Seq<char> {
    "[\n"@ + match v {
        ContentV::Table(t) => json_table_lines(t, t.rows.len() as int),
        ContentV::Logs(rs) => json_log_lines(rs, rs.len() as int),
    } + "]\n"@
}

/// A CSV field: quoted, with doubled quotes, when it holds a comma, a
/// quote or a line break.
pub open spec fn csv_field(v: Seq<char>) -> Seq<char> {
    if v.contains(',') || v.contains('"') || v.contains('\n') || v.contains('\r') {
        seq!['"'] + doubled_quotes(v) + seq!['"']
    } else {
        v
    }
}

pub open spec fn doubled_quotes(v: Seq<char>) -> Seq<char>
    decreases v.len(),
{
    if v.len() == 0 {
        seq![]
    } else {
        doubled_quotes(v.drop_last()) + if v.last() == '"' {
            seq!['"', '"']
        } else {
            seq![v.last()]
        }
    }
}

pub open spec fn csv_row(values: Seq<Seq<char>>) -> Seq<char> {
    join(values.map_values(|v: Seq<char>| csv_field(v)), seq![',']) + seq!['\n']
}

pub open spec fn opt_or_empty(o: Option<Seq<char>>) -> Seq<char> {
    match o {
        Some(v) => v,
        None => seq![],
    }
}

pub open spec fn row_texts(cols: Seq<ColumnV>, row: Seq<CellV>) -> Seq<Seq<char>> {
    Seq::new(cols.len(), |k: int| cell_text(row, k))
}

pub open spec fn csv_table_lines(t: TableV, n: int) -> Seq<char>
    decreases n,
{
    if n <= 0 {
        seq![]
    } else {
        csv_table_lines(t, n - 1) + csv_row(row_texts(t.columns, t.rows[n - 1]))
    }
}

pub open spec fn record_texts(r: LogRecordV) -> Seq<Seq<char>> {
    seq![opt_or_empty(r.timestamp), opt_or_empty(r.level), r.message]
}

pub open spec fn csv_log_lines(rs: Seq<LogRecordV>, n: int) -> Seq<char>
    decreases n,
{
    if n <= 0 {
        seq![]
    } else {
        csv_log_lines(rs, n - 1) + csv_row(record_texts(rs[n - 1]))
    }
}

/// A header line of keys, then one line per row (or record).
pub open spec fn to_csv_spec(v: ContentV) -> Seq<char> {
    match v {
        ContentV::Table(t) => csv_row(t.columns.map_values(|c: ColumnV| c.key)) + csv_table_lines(
            t,
            t.rows.len() as int,
        ),
        ContentV::Logs(rs) => csv_row(seq!["timestamp"@, "level"@, "message"@]) + csv_log_lines(
            rs,
            rs.len() as int,
        ),
    }
}

pub open spec fn yaml_opt(o: Option<Seq<char>>) -> Seq<char> {
    match o {
        Some(v) => json_lit(v) + seq!['\n'],
        None => "null\n"@,
    }
}

/// The YAML lines of the first `n` fields of a row.
pub open spec fn yaml_fields(cols: Seq<ColumnV>, row: Seq<CellV>, n: int) -> Seq<char>
    decreases n,
{
    if n <= 0 {
        seq![]
    } else {
        yaml_fields(cols, row, n - 1) + (if n == 1 {
            "- "@
        } else {
            "  "@
        }) + json_pair(cols, row, n - 1) + seq!['\n']
    }
}

pub open spec fn yaml_table_lines(t: TableV, n: int) -> Seq<char>
    decreases n,
{
    if n <= 0 {
        seq![]
    } else {
        yaml_table_lines(t, n - 1) + yaml_fields(t.columns, t.rows[n - 1], t.columns.len() as int)
    }
}

pub open spec fn yaml_record(r: LogRecordV) -> Seq<char> {
    "- timestamp: "@ + yaml_opt(r.timestamp) + "  level: "@ + yaml_opt(r.level) + "  message: "@
        + json_lit(r.message) + seq!['\n']
}

pub open spec fn yaml_log_lines(rs: Seq<LogRecordV>, n: int) -> Seq<char>
    decreases n,
{
    if n <= 0 {
        seq![]
    } else {
        yaml_log_lines(rs, n - 1) + yaml_record(rs[n - 1])
    }
}

/// One list item per row (or record), one line per field.
pub open spec fn to_yaml_spec(v: ContentV) -> Seq<char> {
    match v {
        ContentV::Table(t) => yaml_table_lines(t, t.rows.len() as int),
        ContentV::Logs(rs) => yaml_log_lines(rs, rs.len() as int),
    }
}

pub open spec fn serialize_spec(v: ContentV, format: StructuredFormat) -> Seq<char> {
    match format {
        StructuredFormat::Json => to_json_spec(v),
        StructuredFormat::Csv => to_csv_spec(v),
        StructuredFormat::Yaml => to_yaml_spec(v),
    }
}

// ---------------------------------------------------------------------------
// Writing
// ---------------------------------------------------------------------------

fn cell_chars(row: &Vec<crate::model::Cell>, k: usize) -> (r: Vec<char>)
    ensures
        r@ == cell_text(row_view(*row), k as int),
{
    if k < row.len() {
        chars_of(row[k].text.as_str())
    } else {
        Vec::new()
    }
}

fn write_json_pair(out: &mut Vec<char>, t: &Table, row: usize, k: usize)
    requires
        row < t.rows@.len(),
        k < t.columns@.len(),
    ensures
        final(out)@ == old(out)@ + json_pair(t@.columns, t@.rows[row as int], k as int),
{
    let key = chars_of(t.columns[k].key.as_str());
    write_json_string(out, key.as_slice());
    extend_str(out, ": ");
    let text = cell_chars(&t.rows[row], k);
    write_json_string(out, text.as_slice());
    proof {
        assert(t@.rows[row as int] == row_view(t.rows@[row as int]));
        assert(t@.columns[k as int] == t.columns@[k as int]@);
    }
}

fn write_json_table(out: &mut Vec<char>, t: &Table)
    ensures
        final(out)@ == old(out)@ + json_table_lines(t@, t@.rows.len() as int),
{
    let ghost start = out@;
    let mut i: usize = 0;
    while i < t.rows.len()
        invariant
            i <= t.rows@.len(),
            t@.rows.len() == t.rows@.len(),
            t@.columns.len() == t.columns@.len(),
            out@ == start + json_table_lines(t@, i as int),
        decreases t.rows@.len() - i,
    {
        let ghost before_row = out@;
        extend_str(out, "  {");
        let mut k: usize = 0;
        while k < t.columns.len()
            invariant
                i < t.rows@.len(),
                k <= t.columns@.len(),
                t@.columns.len() == t.columns@.len(),
                out@ == before_row + "  {"@ + json_pairs(t@.columns, t@.rows[i as int], k as int),
            decreases t.columns@.len() - k,
        {
            if k > 0 {
                extend_str(out, ", ");
            }
            write_json_pair(out, t, i, k);
            k += 1;
        }
        out.push('}');
        if i + 1 < t.rows.len() {
            out.push(',');
        }
        out.push('\n');
        i += 1;
        assert(out@ =~= start + json_table_lines(t@, i as int));
    }
}

fn opt_chars(o: &Option<String>) -> (r: Option<Vec<char>>)
    ensures
        match r {
            Some(v) => crate::model::opt_view(*o) == Some(v@),
            None => crate::model::opt_view(*o).is_none(),
        },
{
    match o {
        Some(s) => Some(chars_of(s.as_str())),
        None => None,
    }
}

fn write_json_opt(out: &mut Vec<char>, o: &Option<String>)
    ensures
        final(out)@ == old(out)@ + json_opt(crate::model::opt_view(*o)),
{
    match opt_chars(o) {
        Some(v) => write_json_string(out, v.as_slice()),
        None => extend_str(out, "null"),
    }
}

fn write_json_record(out: &mut Vec<char>, r: &LogRecord)
    ensures
        final(out)@ == old(out)@ + json_record(r@),
{
    let ghost start = out@;
    extend_str(out, "  {\"timestamp\": ");
    write_json_opt(out, &r.timestamp);
    extend_str(out, ", \"level\": ");
    write_json_opt(out, &r.level);
    extend_str(out, ", \"message\": ");
    let m = chars_of(r.message.as_str());
    write_json_string(out, m.as_slice());
    out.push('}');
    assert(out@ =~= start + json_record(r@));
}

fn write_json_logs(out: &mut Vec<char>, records: &Vec<LogRecord>)
    ensures
        final(out)@ == old(out)@ + json_log_lines(
            records@.map_values(|r: LogRecord| r@),
            records@.len() as int,
        ),
{
    let ghost start = out@;
    let ghost rs = records@.map_values(|r: LogRecord| r@);
    let mut i: usize = 0;
    while i < records.len()
        invariant
            i <= records@.len(),
            rs == records@.map_values(|r: LogRecord| r@),
            out@ == start + json_log_lines(rs, i as int),
        decreases records@.len() - i,
    {
        write_json_record(out, &records[i]);
        if i + 1 < records.len() {
            out.push(',');
        }
        out.push('\n');
        i += 1;
        assert(out@ =~= start + json_log_lines(rs, i as int));
    }
}

fn to_json(view: &Content) -> (r: Vec<char>)
    ensures
        r@ == to_json_spec(view@),
{
    let mut out = chars_of("[\n");
    match view {
        Content::Table(t) => write_json_table(&mut out, t),
        Content::Logs(records) => write_json_logs(&mut out, records),
    }
    extend_str(&mut out, "]\n");
    out
}

fn write_csv_field(out: &mut Vec<char>, v: &[char])
    ensures
        final(out)@ == old(out)@ + csv_field(v@),
{
    let ghost start = out@;
    let special = crate::text::has_char(v, ',') || crate::text::has_char(v, '"')
        || crate::text::has_char(v, '\n') || crate::text::has_char(v, '\r');
    if special {
        out.push('"');
        let mut i: usize = 0;
        while i < v.len()
            invariant
                i <= v@.len(),
                out@ == start + seq!['"'] + doubled_quotes(v@.take(i as int)),
            decreases v@.len() - i,
        {
            if v[i] == '"' {
                out.push('"');
                out.push('"');
            } else {
                out.push(v[i]);
            }
            assert(v@.take(i + 1).drop_last() =~= v@.take(i as int));
            i += 1;
            assert(out@ =~= start + seq!['"'] + doubled_quotes(v@.take(i as int)));
        }
        assert(v@.take(v@.len() as int) =~= v@);
        out.push('"');
        assert(out@ =~= start + csv_field(v@));
    } else {
        extend(out, v);
    }
}

fn write_csv_row(out: &mut Vec<char>, values: &Vec<Vec<char>>)
    ensures
        final(out)@ == old(out)@ + csv_row(values.deep_view()),
{
    let ghost start = out@;
    let ghost vs = values.deep_view();
    let mut i: usize = 0;
    while i < values.len()
        invariant
            i <= values@.len(),
            vs == values.deep_view(),
            out@ == start + join(vs.take(i as int).map_values(|v: Seq<char>| csv_field(v)), seq![',']),
        decreases values@.len() - i,
    {
        let ghost parts = vs.take(i as int).map_values(|v: Seq<char>| csv_field(v));
        assert(vs.take(i + 1).map_values(|v: Seq<char>| csv_field(v)) =~= parts.push(csv_field(vs[i as int])));
        assert(parts.push(csv_field(vs[i as int])).drop_last() =~= parts);
        if i > 0 {
            out.push(',');
        }
        proof {
            crate::text::lemma_deep_chars(&values@[i as int]);
        }
        write_csv_field(out, values[i].as_slice());
        i += 1;
        assert(out@ =~= start + join(vs.take(i as int).map_values(|v: Seq<char>| csv_field(v)), seq![',']));
    }
    assert(vs.take(values@.len() as int) =~= vs);
    out.push('\n');
}

fn to_csv(view: &Content) -> (r: Vec<char>)
    ensures
        r@ == to_csv_spec(view@),
{
    let mut out: Vec<char> = Vec::new();
    match view {
        Content::Table(t) => {
            let mut keys: Vec<Vec<char>> = Vec::new();
            let mut k: usize = 0;
            while k < t.columns.len()
                invariant
                    k <= t.columns@.len(),
                    keys.deep_view() == t@.columns.map_values(|c: ColumnV| c.key).take(k as int),
                decreases t.columns@.len() - k,
            {
                push_text(&mut keys, chars_of(t.columns[k].key.as_str()));
                k += 1;
                assert(keys.deep_view() =~= t@.columns.map_values(|c: ColumnV| c.key).take(k as int));
            }
            assert(t@.columns.map_values(|c: ColumnV| c.key).take(t.columns@.len() as int)
                =~= t@.columns.map_values(|c: ColumnV| c.key));
            write_csv_row(&mut out, &keys);
            let ghost start = out@;
            let mut i: usize = 0;
            while i < t.rows.len()
                invariant
                    i <= t.rows@.len(),
                    t@.rows.len() == t.rows@.len(),
                    out@ == start + csv_table_lines(t@, i as int),
                decreases t.rows@.len() - i,
            {
                let mut vals: Vec<Vec<char>> = Vec::new();
                let mut k: usize = 0;
                while k < t.columns.len()
                    invariant
                        i < t.rows@.len(),
                        k <= t.columns@.len(),
                        t@.columns.len() == t.columns@.len(),
                        vals.deep_view() == row_texts(t@.columns, t@.rows[i as int]).take(k as int),
                    decreases t.columns@.len() - k,
                {
                    assert(t@.rows[i as int] == row_view(t.rows@[i as int]));
                    push_text(&mut vals, cell_chars(&t.rows[i], k));
                    k += 1;
                    assert(vals.deep_view() =~= row_texts(t@.columns, t@.rows[i as int]).take(k as int));
                }
                assert(row_texts(t@.columns, t@.rows[i as int]).take(t.columns@.len() as int)
                    =~= row_texts(t@.columns, t@.rows[i as int]));
                write_csv_row(&mut out, &vals);
                i += 1;
            }
        },
        Content::Logs(records) => {
            let mut header: Vec<Vec<char>> = Vec::new();
            push_text(&mut header, chars_of("timestamp"));
            push_text(&mut header, chars_of("level"));
            push_text(&mut header, chars_of("message"));
            assert(header.deep_view() =~= seq!["timestamp"@, "level"@, "message"@]);
            write_csv_row(&mut out, &header);
            let ghost start = out@;
            let ghost rs = records@.map_values(|r: LogRecord| r@);
            let mut i: usize = 0;
            while i < records.len()
                invariant
                    i <= records@.len(),
                    rs == records@.map_values(|r: LogRecord| r@),
                    out@ == start + csv_log_lines(rs, i as int),
                decreases records@.len() - i,
            {
                let r = &records[i];
                let mut vals: Vec<Vec<char>> = Vec::new();
                push_text(&mut vals, match opt_chars(&r.timestamp) { Some(v) => v, None => Vec::new() });
                push_text(&mut vals, match opt_chars(&r.level) { Some(v) => v, None => Vec::new() });
                push_text(&mut vals, chars_of(r.message.as_str()));
                assert(vals.deep_view() =~= record_texts(rs[i as int]));
                write_csv_row(&mut out, &vals);
                i += 1;
            }
        },
    }
    out
}

fn write_yaml_opt(out: &mut Vec<char>, o: &Option<String>)
    ensures
        final(out)@ == old(out)@ + yaml_opt(crate::model::opt_view(*o)),
{
    match opt_chars(o) {
        Some(v) => {
            write_json_string(out, v.as_slice());
            out.push('\n');
        },
        None => extend_str(out, "null\n"),
    }
}

fn write_yaml_record(out: &mut Vec<char>, r: &LogRecord)
    ensures
        final(out)@ == old(out)@ + yaml_record(r@),
{
    let ghost start = out@;
    extend_str(out, "- timestamp: ");
    write_yaml_opt(out, &r.timestamp);
    extend_str(out, "  level: ");
    write_yaml_opt(out, &r.level);
    extend_str(out, "  message: ");
    let m = chars_of(r.message.as_str());
    write_json_string(out, m.as_slice());
    out.push('\n');
    assert(out@ =~= start + yaml_record(r@));
}

fn to_yaml(view: &Content) -> (r: Vec<char>)
    ensures
        r@ == to_yaml_spec(view@),
{
    let mut out: Vec<char> = Vec::new();
    match view {
        Content::Table(t) => {
            let mut i: usize = 0;
            while i < t.rows.len()
                invariant
                    i <= t.rows@.len(),
                    t@.rows.len() == t.rows@.len(),
                    t@.columns.len() == t.columns@.len(),
                    out@ == yaml_table_lines(t@, i as int),
                decreases t.rows@.len() - i,
            {
                let ghost before_row = out@;
                let mut k: usize = 0;
                while k < t.columns.len()
                    invariant
                        i < t.rows@.len(),
                        k <= t.columns@.len(),
                        t@.columns.len() == t.columns@.len(),
                        out@ == before_row + yaml_fields(t@.columns, t@.rows[i as int], k as int),
                    decreases t.columns@.len() - k,
                {
                    if k == 0 {
                        extend_str(&mut out, "- ");
                    } else {
                        extend_str(&mut out, "  ");
                    }
                    write_json_pair(&mut out, t, i, k);
                    out.push('\n');
                    k += 1;
                }
                i += 1;
            }
        },
        Content::Logs(records) => {
            let ghost rs = records@.map_values(|r: LogRecord| r@);
            let mut i: usize = 0;
            while i < records.len()
                invariant
                    i <= records@.len(),
                    rs == records@.map_values(|r: LogRecord| r@),
                    out@ == yaml_log_lines(rs, i as int),
                decreases records@.len() - i,
            {
                write_yaml_record(&mut out, &records[i]);
                i += 1;
            }
        },
    }
    out
}

/// The view in the given format.
pub fn serialize(view: &Content, format: StructuredFormat) -> (r: String)
    ensures
        r@ == serialize_spec(view@, format),
{
    let out = match format {
        StructuredFormat::Json => to_json(view),
        StructuredFormat::Csv => to_csv(view),
        StructuredFormat::Yaml => to_yaml(view),
    };
    string_of(out.as_slice())
}

} // verus!

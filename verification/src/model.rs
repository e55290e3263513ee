use vstd::prelude::*;

verus! {

/// Horizontal alignment of a column's cells.
#[derive(Debug, Clone, Copy, PartialEq, Eq, Structural)]
pub enum Alignment {
    Left,
    Right,
}

/// How a column's values are displayed beyond plain text.
#[derive(Debug, Clone, Copy, PartialEq, Eq, Structural)]
pub enum ValueType {
    Text,
    Percentage,
    Timestamp,
    Permissions,
}

/// Semantic style of a cell or log record.
#[derive(Debug, Clone, Copy, PartialEq, Eq, Structural)]
pub enum Style {
    Plain,
    Muted,
    Accent,
    Good,
    Warning,
    Error,
    Info,
    Debug,
}

/// How a row differs from an earlier result.
#[derive(Debug, Clone, Copy, PartialEq, Eq, Structural)]
pub enum ChangeKind {
    Added,
    Removed,
    Changed,
}

#[derive(Debug, Clone)]
pub struct Column {
    pub key: String,
    pub label: String,
    pub priority: u8,
    pub alignment: Alignment,
    pub value_type: ValueType,
}

impl Column {
    pub fn new(key: &str, label: &str, priority: u8, alignment: Alignment) -> (c: Self)
        ensures
            c.key@ == key@,
            c.label@ == label@,
            c.priority == priority,
            c.alignment == alignment,
            c.value_type == ValueType::Text,
    {
        Column {
            key: key.to_owned(),
            label: label.to_owned(),
            priority,
            alignment,
            value_type: ValueType::Text,
        }
    }

    pub fn with_value_type(self, value_type: ValueType) -> (c: Self)
        ensures
            c.key == self.key,
            c.label == self.label,
            c.priority == self.priority,
            c.alignment == self.alignment,
            c.value_type == value_type,
    {
        let mut column = self;
        column.value_type = value_type;
        column
    }
}

#[derive(Debug, Clone)]
pub struct Cell {
    pub text: String,
    pub style: Style,
    pub change: Option<ChangeKind>,
    pub trend: Vec<u64>,
}

impl Cell {
    pub fn plain(text: &str) -> (c: Self)
        ensures
            c.text@ == text@,
            c.style == Style::Plain,
            c.change.is_none(),
            c.trend@.len() == 0,
    {
        Cell { text: text.to_owned(), style: Style::Plain, change: None, trend: Vec::new() }
    }

    pub fn styled(text: &str, style: Style) -> (c: Self)
        ensures
            c.text@ == text@,
            c.style == style,
            c.change.is_none(),
            c.trend@.len() == 0,
    {
        Cell { text: text.to_owned(), style, change: None, trend: Vec::new() }
    }

    pub fn with_change(self, change: ChangeKind) -> (c: Self)
        ensures
            c.text == self.text,
            c.style == self.style,
            c.change == Some(change),
            c.trend == self.trend,
    {
        let mut cell = self;
        cell.change = Some(change);
        cell
    }

    pub fn with_trend(self, trend: Vec<u64>) -> (c: Self)
        ensures
            c.text == self.text,
            c.style == self.style,
            c.change == self.change,
            c.trend == trend,
    {
        let mut cell = self;
        cell.trend = trend;
        cell
    }
}

#[derive(Debug, Clone)]
pub struct Table {
    pub columns: Vec<Column>,
    pub rows: Vec<Vec<Cell>>,
    pub prelude: Vec<String>,
}

#[derive(Debug, Clone)]
pub struct LogRecord {
    pub timestamp: Option<String>,
    pub level: Option<String>,
    pub message: String,
    pub style: Style,
}

#[derive(Debug, Clone)]
pub enum Content {
    Table(Table),
    Logs(Vec<LogRecord>),
}

/// A parsed view with the confidence of the parser that produced it,
/// in hundredths (96 stands for a confidence of 0.96).
#[derive(Debug, Clone)]
pub struct ParsedView {
    pub view: Content,
    pub confidence: u8,
}

// ---------------------------------------------------------------------------
// Mathematical models
// ---------------------------------------------------------------------------

pub struct ColumnV {
    pub key: Seq<char>,
    pub label: Seq<char>,
    pub priority: u8,
    pub alignment: Alignment,
    pub value_type: ValueType,
}

pub struct CellV {
    pub text: Seq<char>,
    pub style: Style,
    pub change: Option<ChangeKind>,
    pub trend: Seq<u64>,
}

pub struct TableV {
    pub columns: Seq<ColumnV>,
    pub rows: Seq<Seq<CellV>>,
    pub prelude: Seq<Seq<char>>,
}

pub struct LogRecordV {
    pub timestamp: Option<Seq<char>>,
    pub level: Option<Seq<char>>,
    pub message: Seq<char>,
    pub style: Style,
}

pub enum ContentV {
    Table(TableV),
    Logs(Seq<LogRecordV>),
}

impl View for Column {
    type V = ColumnV;

    open spec fn view(&self) -> ColumnV {
        ColumnV {
            key: self.key@,
            label: self.label@,
            priority: self.priority,
            alignment: self.alignment,
            value_type: self.value_type,
        }
    }
}

impl View for Cell {
    type V = CellV;

    open spec fn view(&self) -> CellV {
        CellV { text: self.text@, style: self.style, change: self.change, trend: self.trend@ }
    }
}

pub open spec fn opt_view(o: Option<String>) -> Option<Seq<char>> {
    match o {
        Some(s) => Some(s@),
        None => None,
    }
}

pub open spec fn row_view(row: Vec<Cell>) -> Seq<CellV> {
    row@.map_values(|c: Cell| c@)
}

impl View for Table {
    type V = TableV;

    open spec fn view(&self) -> TableV {
        TableV {
            columns: self.columns@.map_values(|c: Column| c@),
            rows: self.rows@.map_values(|r: Vec<Cell>| row_view(r)),
            prelude: self.prelude@.map_values(|l: String| l@),
        }
    }
}

impl View for LogRecord {
    type V = LogRecordV;

    open spec fn view(&self) -> LogRecordV {
        LogRecordV {
            timestamp: opt_view(self.timestamp),
            level: opt_view(self.level),
            message: self.message@,
            style: self.style,
        }
    }
}

impl View for Content {
    type V = ContentV;

    open spec fn view(&self) -> ContentV {
        match self {
            Content::Table(t) => ContentV::Table(t@),
            Content::Logs(records) => ContentV::Logs(records@.map_values(|r: LogRecord| r@)),
        }
    }
}

pub open spec fn content_opt_view(o: Option<Content>) -> Option<ContentV> {
    match o {
        Some(c) => Some(c@),
        None => None,
    }
}

pub open spec fn cell_v(text: Seq<char>, style: Style) -> CellV {
    CellV { text, style, change: None, trend: seq![] }
}

pub open spec fn column_v(key: Seq<char>, label: Seq<char>, priority: u8, alignment: Alignment) -> ColumnV {
    ColumnV { key, label, priority, alignment, value_type: ValueType::Text }
}

impl Cell {
    pub fn from_chars(text: &[char], style: Style) -> (c: Self)
        ensures
            c@ == cell_v(text@, style),
    {
        Cell { text: crate::text::string_of(text), style, change: None, trend: Vec::new() }
    }
}

impl Column {
    pub fn from_chars(key: &[char], label: &[char], priority: u8, alignment: Alignment) -> (c: Self)
        ensures
            c@ == column_v(key@, label@, priority, alignment),
    {
        Column {
            key: crate::text::string_of(key),
            label: crate::text::string_of(label),
            priority,
            alignment,
            value_type: ValueType::Text,
        }
    }
}

// ---------------------------------------------------------------------------
// Copies
// ---------------------------------------------------------------------------

pub fn copy_string(s: &String) -> (r: String)
    ensures
        r@ == s@,
{
    s.as_str().to_owned()
}

fn copy_u64s(v: &Vec<u64>) -> (r: Vec<u64>)
    ensures
        r@ == v@,
{
    let mut out: Vec<u64> = Vec::new();
    let mut i: usize = 0;
    while i < v.len()
        invariant
            i <= v@.len(),
            out@ == v@.take(i as int),
        decreases v@.len() - i,
    {
        out.push(v[i]);
        i += 1;
        assert(out@ =~= v@.take(i as int));
    }
    assert(v@.take(v@.len() as int) =~= v@);
    out
}

impl Cell {
    /// A cell equal to this one.
    pub fn copied(&self) -> (c: Self)
        ensures
            c@ == self@,
    {
        Cell {
            text: copy_string(&self.text),
            style: self.style,
            change: self.change,
            trend: copy_u64s(&self.trend),
        }
    }
}

impl Column {
    /// A column equal to this one.
    pub fn copied(&self) -> (c: Self)
        ensures
            c@ == self@,
    {
        Column {
            key: copy_string(&self.key),
            label: copy_string(&self.label),
            priority: self.priority,
            alignment: self.alignment,
            value_type: self.value_type,
        }
    }
}

/// A row equal to the given one.
pub fn copy_row(row: &Vec<Cell>) -> (r: Vec<Cell>)
    ensures
        row_view(r) == row_view(*row),
        r@.len() == row@.len(),
{
    let mut out: Vec<Cell> = Vec::new();
    let mut i: usize = 0;
    while i < row.len()
        invariant
            i <= row@.len(),
            out@.len() == i,
            row_view(out) == row_view(*row).take(i as int),
        decreases row@.len() - i,
    {
        let c = row[i].copied();
        let ghost before = row_view(out);
        out.push(c);
        assert(row_view(out) =~= before.push(c@));
        i += 1;
        assert(row_view(*row).take(i as int) =~= before.push(row@[i - 1]@));
    }
    assert(row_view(*row).take(row@.len() as int) =~= row_view(*row));
    out
}

impl Table {
    /// A table equal to this one.
    pub fn copied(&self) -> (t: Self)
        ensures
            t@ == self@,
    {
        let mut columns: Vec<Column> = Vec::new();
        let mut i: usize = 0;
        while i < self.columns.len()
            invariant
                i <= self.columns@.len(),
                columns@.map_values(|c: Column| c@) == self.columns@.map_values(|c: Column| c@).take(
                    i as int,
                ),
            decreases self.columns@.len() - i,
        {
            let c = self.columns[i].copied();
            let ghost before = columns@;
            columns.push(c);
            assert(columns@.map_values(|c: Column| c@) =~= before.map_values(|c: Column| c@).push(c@));
            i += 1;
            assert(self.columns@.map_values(|c: Column| c@).take(i as int) =~= self.columns@.map_values(
                |c: Column| c@,
            ).take(i - 1).push(self.columns@[i - 1]@));
        }
        let mut rows: Vec<Vec<Cell>> = Vec::new();
        let mut i: usize = 0;
        while i < self.rows.len()
            invariant
                i <= self.rows@.len(),
                rows@.map_values(|r: Vec<Cell>| row_view(r)) == self.rows@.map_values(
                    |r: Vec<Cell>| row_view(r),
                ).take(i as int),
            decreases self.rows@.len() - i,
        {
            let r = copy_row(&self.rows[i]);
            let ghost before = rows@;
            rows.push(r);
            assert(rows@.map_values(|r: Vec<Cell>| row_view(r)) =~= before.map_values(
                |r: Vec<Cell>| row_view(r),
            ).push(row_view(r)));
            i += 1;
            assert(self.rows@.map_values(|r: Vec<Cell>| row_view(r)).take(i as int) =~= self.rows@.map_values(
                |r: Vec<Cell>| row_view(r),
            ).take(i - 1).push(row_view(self.rows@[i - 1])));
        }
        let mut prelude: Vec<String> = Vec::new();
        let mut i: usize = 0;
        while i < self.prelude.len()
            invariant
                i <= self.prelude@.len(),
                prelude@.map_values(|l: String| l@) == self.prelude@.map_values(|l: String| l@).take(
                    i as int,
                ),
            decreases self.prelude@.len() - i,
        {
            let l = copy_string(&self.prelude[i]);
            let ghost before = prelude@;
            prelude.push(l);
            assert(prelude@.map_values(|l: String| l@) =~= before.map_values(|l: String| l@).push(l@));
            i += 1;
            assert(self.prelude@.map_values(|l: String| l@).take(i as int) =~= self.prelude@.map_values(
                |l: String| l@,
            ).take(i - 1).push(self.prelude@[i - 1]@));
        }
        assert(self.columns@.map_values(|c: Column| c@).take(self.columns@.len() as int)
            =~= self.columns@.map_values(|c: Column| c@));
        assert(self.rows@.map_values(|r: Vec<Cell>| row_view(r)).take(self.rows@.len() as int)
            =~= self.rows@.map_values(|r: Vec<Cell>| row_view(r)));
        assert(self.prelude@.map_values(|l: String| l@).take(self.prelude@.len() as int)
            =~= self.prelude@.map_values(|l: String| l@));
        Table { columns, rows, prelude }
    }
}

fn copy_opt_string(o: &Option<String>) -> (r: Option<String>)
    ensures
        opt_view(r) == opt_view(*o),
{
    match o {
        Some(s) => Some(copy_string(s)),
        None => None,
    }
}

impl LogRecord {
    pub fn copied(&self) -> (r: Self)
        ensures
            r@ == self@,
    {
        LogRecord {
            timestamp: copy_opt_string(&self.timestamp),
            level: copy_opt_string(&self.level),
            message: copy_string(&self.message),
            style: self.style,
        }
    }
}

impl Content {
    /// A view equal to this one.
    pub fn copied(&self) -> (r: Self)
        ensures
            r@ == self@,
    {
        match self {
            Content::Table(t) => Content::Table(t.copied()),
            Content::Logs(records) => {
                let mut out: Vec<LogRecord> = Vec::new();
                let mut i: usize = 0;
                while i < records.len()
                    invariant
                        i <= records@.len(),
                        out@.map_values(|r: LogRecord| r@) == records@.map_values(
                            |r: LogRecord| r@,
                        ).take(i as int),
                    decreases records@.len() - i,
                {
                    let r = records[i].copied();
                    let ghost before = out@;
                    out.push(r);
                    assert(out@.map_values(|r: LogRecord| r@) =~= before.map_values(
                        |r: LogRecord| r@,
                    ).push(r@));
                    i += 1;
                    assert(records@.map_values(|r: LogRecord| r@).take(i as int) =~= records@.map_values(
                        |r: LogRecord| r@,
                    ).take(i - 1).push(records@[i - 1]@));
                }
                assert(records@.map_values(|r: LogRecord| r@).take(records@.len() as int)
                    =~= records@.map_values(|r: LogRecord| r@));
                Content::Logs(out)
            },
        }
    }
}

} // verus!

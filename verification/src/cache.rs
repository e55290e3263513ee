//! Cached results: comparing two parsed views, and the text form of a cache
//! entry.
use vstd::prelude::*;

use crate::model::{
    cell_v, copy_row, row_view, Cell, CellV, ChangeKind, Column, ColumnV, Content, ContentV, Style,
    Table, TableV,
};
use crate::parser::{key_columns, key_columns_of};
use crate::parser::builtins::{all_digits, digits_value, lemma_digits_value_grows};
use crate::parser::generic::{first_occurrence, first_occurrence_exec};
use crate::text::{contains_seq, occurs_at};
use crate::parser::jc::{digit_run, digit_run_exec};
use crate::text::{
    chars_of, dec, decimal, eq, eq_str, extend, extend_str, is_digit, is_ws, join,
    lemma_deep_chars, string_of, trim_start, trimmed_start,
};
use vstd::string::StringSliceAdditionalSpecFns;

verus! {

// ---------------------------------------------------------------------------
// Comparing views
// ---------------------------------------------------------------------------

/// The first column at or after `i` with the given key.
pub open spec fn col_pos_from(cols: Seq<ColumnV>, key: Seq<char>, i: int) -> Option<int>
    decreases cols.len() - i,
{
    if i < 0 || i >= cols.len() {
        None
    } else if cols[i].key == key {
        Some(i)
    } else {
        col_pos_from(cols, key, i + 1)
    }
}

pub open spec fn col_pos(cols: Seq<ColumnV>, key: Seq<char>) -> Option<int> {
    col_pos_from(cols, key, 0)
}

/// The column of the first of the source's key columns that the table has.
pub open spec fn first_key_pos(keys: Seq<Seq<char>>, cols: Seq<ColumnV>, j: int) -> int
    decreases keys.len() - j,
{
    if j < 0 || j >= keys.len() {
        0
    } else {
        match col_pos(cols, keys[j]) {
            Some(p) => p,
            None => first_key_pos(keys, cols, j + 1),
        }
    }
}

/// The column that identifies rows of a source's table (the first one when
/// the table has none of the source's key columns).
pub open spec fn key_index_of(source: Seq<char>, cols: Seq<ColumnV>) -> int {
    first_key_pos(key_columns_of(source), cols, 0)
}

/// The text of cell `k` of a row, empty when the row is shorter.
pub open spec fn row_key(r: Seq<CellV>, k: int) -> Seq<char> {
    if 0 <= k < r.len() {
        r[k].text
    } else {
        seq![]
    }
}

/// The last row whose cell `pk` reads `k`.
pub open spec fn last_match(rows: Seq<Seq<CellV>>, pk: int, k: Seq<char>) -> Option<Seq<CellV>>
    decreases rows.len(),
{
    if rows.len() == 0 {
        None
    } else if 0 <= pk < rows.last().len() && rows.last()[pk].text == k {
        Some(rows.last())
    } else {
        last_match(rows.drop_last(), pk, k)
    }
}

pub open spec fn with_change(c: CellV, change: ChangeKind) -> CellV {
    CellV { text: c.text, style: c.style, change: Some(change), trend: c.trend }
}

/// Whether cell `i` of a current row differs from the old row's cell in the
/// column with the same key (a cell without such a column counts as changed).
pub open spec fn cell_changed(
    prev_cols: Seq<ColumnV>,
    cur_cols: Seq<ColumnV>,
    old: Seq<CellV>,
    i: int,
    cell: CellV,
) -> bool {
    let oi = if i < cur_cols.len() {
        col_pos(prev_cols, cur_cols[i].key)
    } else {
        None
    };
    match oi {
        Some(j) => !(j < old.len() && old[j].text == cell.text),
        None => true,
    }
}

pub open spec fn changed_row(
    prev_cols: Seq<ColumnV>,
    cur_cols: Seq<ColumnV>,
    old: Seq<CellV>,
    row: Seq<CellV>,
) -> Seq<CellV> {
    Seq::new(
        row.len(),
        |i: int|
            if cell_changed(prev_cols, cur_cols, old, i, row[i]) {
                with_change(row[i], ChangeKind::Changed)
            } else {
                row[i]
            },
    )
}

pub open spec fn row_has_change(
    prev_cols: Seq<ColumnV>,
    cur_cols: Seq<ColumnV>,
    old: Seq<CellV>,
    row: Seq<CellV>,
) -> bool {
    exists|i: int| 0 <= i < row.len() && #[trigger] cell_changed(prev_cols, cur_cols, old, i, row[i])
}

pub open spec fn marked(row: Seq<CellV>, change: ChangeKind) -> Seq<CellV> {
    row.map_values(|c: CellV| with_change(c, change))
}

/// A current row, compared with the last old row of the same key.
pub open spec fn current_row(prev: TableV, cur: TableV, key: int, pk: int, row: Seq<CellV>) -> Seq<CellV> {
    match last_match(prev.rows, pk, row_key(row, key)) {
        Some(old) => changed_row(prev.columns, cur.columns, old, row),
        None => marked(row, ChangeKind::Added),
    }
}

/// How many current rows have no old row of the same key.
pub open spec fn count_added(prev: TableV, rows: Seq<Seq<CellV>>, key: int, pk: int) -> nat
    decreases rows.len(),
{
    if rows.len() == 0 {
        0
    } else {
        count_added(prev, rows.drop_last(), key, pk) + if last_match(
            prev.rows,
            pk,
            row_key(rows.last(), key),
        ).is_none() {
            1nat
        } else {
            0nat
        }
    }
}

/// How many current rows differ from the old row of the same key.
pub open spec fn count_changed(prev: TableV, cur: TableV, rows: Seq<Seq<CellV>>, key: int, pk: int) -> nat
    decreases rows.len(),
{
    if rows.len() == 0 {
        0
    } else {
        count_changed(prev, cur, rows.drop_last(), key, pk) + match last_match(
            prev.rows,
            pk,
            row_key(rows.last(), key),
        ) {
            Some(old) => if row_has_change(prev.columns, cur.columns, old, rows.last()) {
                1nat
            } else {
                0nat
            },
            None => 0nat,
        }
    }
}

/// Whether some current row has the key `k`.
pub open spec fn seen(rows: Seq<Seq<CellV>>, key: int, k: Seq<char>) -> bool {
    exists|i: int| 0 <= i < rows.len() && #[trigger] row_key(rows[i], key) == k
}

pub open spec fn empty_cell() -> CellV {
    cell_v(seq![], Style::Plain)
}

/// An old row laid out in the current columns, every cell marked removed.
pub open spec fn aligned(prev_cols: Seq<ColumnV>, cur_cols: Seq<ColumnV>, old: Seq<CellV>) -> Seq<CellV> {
    cur_cols.map_values(
        |c: ColumnV|
            with_change(
                match col_pos(prev_cols, c.key) {
                    Some(j) => if j < old.len() {
                        old[j]
                    } else {
                        empty_cell()
                    },
                    None => empty_cell(),
                },
                ChangeKind::Removed,
            ),
    )
}

/// The old rows whose key no current row has, laid out in the current columns.
pub open spec fn removed_rows(olds: Seq<Seq<CellV>>, prev: TableV, cur: TableV, key: int, pk: int) -> Seq<
    Seq<CellV>,
>
    decreases olds.len(),
{
    if olds.len() == 0 {
        seq![]
    } else if seen(cur.rows, key, row_key(olds.last(), pk)) {
        removed_rows(olds.drop_last(), prev, cur, key, pk)
    } else {
        removed_rows(olds.drop_last(), prev, cur, key, pk).push(
            aligned(prev.columns, cur.columns, olds.last()),
        )
    }
}

/// The old table's key column: the one with the current key's name, else the
/// same position (or the last column).
pub open spec fn prev_key_index(prev_cols: Seq<ColumnV>, cur_cols: Seq<ColumnV>, key: int) -> int {
    match col_pos(prev_cols, cur_cols[key].key) {
        Some(p) => p,
        None => if key < prev_cols.len() - 1 {
            key
        } else {
            prev_cols.len() - 1
        },
    }
}

pub open spec fn summary_line(added: nat, changed: nat, removed: nat) -> Seq<char> {
    "changes: +"@ + dec(added) + " ~"@ + dec(changed) + " -"@ + dec(removed)
}

/// The current table with every row marked against the previous table, the
/// rows that disappeared appended, and a summary line in the prelude.
pub open spec fn diff_tables(prev: TableV, cur: TableV, source: Seq<char>) -> TableV {
    let key = key_index_of(source, cur.columns);
    let pk = prev_key_index(prev.columns, cur.columns, key);
    let removed = removed_rows(prev.rows, prev, cur, key, pk);
    TableV {
        columns: cur.columns,
        rows: cur.rows.map_values(|row: Seq<CellV>| current_row(prev, cur, key, pk, row)) + removed,
        prelude: cur.prelude.push(
            summary_line(
                count_added(prev, cur.rows, key, pk),
                count_changed(prev, cur, cur.rows, key, pk),
                removed.len(),
            ),
        ),
    }
}

pub open spec fn diff_spec(previous: ContentV, current: ContentV, source: Seq<char>) -> ContentV {
    match (previous, current) {
        (ContentV::Table(p), ContentV::Table(c)) => if p.columns.len() == 0 || c.columns.len() == 0 {
            current
        } else {
            ContentV::Table(diff_tables(p, c, source))
        },
        _ => current,
    }
}

pub open spec fn opt_int(o: Option<usize>) -> Option<int> {
    match o {
        Some(u) => Some(u as int),
        None => None,
    }
}

pub open spec fn columns_view(cs: Seq<Column>) -> Seq<ColumnV> {
    cs.map_values(|c: Column| c@)
}

/// The first column with the given key.
fn col_pos_exec(cols: &Vec<Column>, key: &[char]) -> (r: Option<usize>)
    ensures
        opt_int(r) == col_pos(columns_view(cols@), key@),
        r matches Some(p) ==> p < cols@.len(),
{
    let ghost cv = columns_view(cols@);
    let mut i: usize = 0;
    while i < cols.len()
        invariant
            i <= cols@.len(),
            cv == columns_view(cols@),
            col_pos(cv, key@) == col_pos_from(cv, key@, i as int),
        decreases cols@.len() - i,
    {
        let k = chars_of(cols[i].key.as_str());
        if eq(k.as_slice(), key) {
            return Some(i);
        }
        i += 1;
    }
    None
}

/// The column that identifies the rows of a source's table.
pub fn key_index(source: &str, table: &Table) -> (r: usize)
    ensures
        r as int == key_index_of(source@, table@.columns),
        table.columns@.len() > 0 ==> r < table.columns@.len(),
{
    let keys = key_columns(source);
    let ghost kv = keys@.map_values(|k: &str| k@);
    assert(table@.columns == columns_view(table.columns@));
    let mut j: usize = 0;
    while j < keys.len()
        invariant
            j <= keys@.len(),
            kv == keys@.map_values(|k: &str| k@),
            kv == key_columns_of(source@),
            table@.columns == columns_view(table.columns@),
            key_index_of(source@, table@.columns) == first_key_pos(kv, table@.columns, j as int),
        decreases keys@.len() - j,
    {
        let k = chars_of(keys[j]);
        match col_pos_exec(&table.columns, k.as_slice()) {
            Some(p) => {
                return p;
            },
            None => {},
        }
        j += 1;
    }
    0
}

/// The text of cell `k` of a row.
fn row_key_exec(row: &Vec<Cell>, k: usize) -> (r: Vec<char>)
    ensures
        r@ == row_key(row_view(*row), k as int),
{
    if k < row.len() {
        chars_of(row[k].text.as_str())
    } else {
        Vec::new()
    }
}

/// The last row whose cell `pk` reads `k`.
fn last_match_exec(rows: &Vec<Vec<Cell>>, pk: usize, k: &[char]) -> (r: Option<usize>)
    ensures
        match r {
            Some(j) => j < rows@.len() && last_match(rows_view(rows@), pk as int, k@) == Some(
                row_view(rows@[j as int]),
            ),
            None => last_match(rows_view(rows@), pk as int, k@).is_none(),
        },
{
    let ghost rv = rows_view(rows@);
    let mut j: usize = rows.len();
    assert(rv.take(j as int) =~= rv);
    while j > 0
        invariant
            j <= rows@.len(),
            rv == rows_view(rows@),
            last_match(rv, pk as int, k@) == last_match(rv.take(j as int), pk as int, k@),
        decreases j,
    {
        assert(rv.take(j as int).drop_last() =~= rv.take(j - 1));
        assert(rv.take(j as int).last() == row_view(rows@[j - 1]));
        let row = &rows[j - 1];
        if pk < row.len() {
            let t = chars_of(row[pk].text.as_str());
            if eq(t.as_slice(), k) {
                return Some(j - 1);
            }
        }
        j -= 1;
    }
    None
}

pub open spec fn rows_view(rows: Seq<Vec<Cell>>) -> Seq<Seq<CellV>> {
    rows.map_values(|r: Vec<Cell>| row_view(r))
}

/// Every cell of the row marked with the given change.
pub fn mark_row(row: &Vec<Cell>, change: ChangeKind) -> (r: Vec<Cell>)
    ensures
        row_view(r) == marked(row_view(*row), change),
{
    let mut out: Vec<Cell> = Vec::new();
    let mut i: usize = 0;
    while i < row.len()
        invariant
            i <= row@.len(),
            row_view(out) == marked(row_view(*row).take(i as int), change),
        decreases row@.len() - i,
    {
        let c = row[i].copied().with_change(change);
        let ghost before = row_view(out);
        out.push(c);
        assert(row_view(out) =~= before.push(c@));
        i += 1;
        assert(marked(row_view(*row).take(i as int), change) =~= before.push(c@));
    }
    assert(row_view(*row).take(row@.len() as int) =~= row_view(*row));
    out
}

/// For each current column, the old column with the same key.
fn column_map(prev: &Vec<Column>, cur: &Vec<Column>) -> (m: Vec<Option<usize>>)
    ensures
        m@.len() == cur@.len(),
        forall|i: int|
            0 <= i < cur@.len() ==> opt_int(#[trigger] m@[i]) == col_pos(
                columns_view(prev@),
                cur@[i]@.key,
            ),
        forall|i: int| 0 <= i < cur@.len() ==> ((#[trigger] m@[i]) matches Some(p) ==> p < prev@.len()),
{
    let mut m: Vec<Option<usize>> = Vec::new();
    let mut i: usize = 0;
    while i < cur.len()
        invariant
            i <= cur@.len(),
            m@.len() == i,
            forall|j: int|
                0 <= j < i ==> opt_int(#[trigger] m@[j]) == col_pos(columns_view(prev@), cur@[j]@.key),
            forall|j: int| 0 <= j < i ==> ((#[trigger] m@[j]) matches Some(p) ==> p < prev@.len()),
        decreases cur@.len() - i,
    {
        let k = chars_of(cur[i].key.as_str());
        m.push(col_pos_exec(prev, k.as_slice()));
        i += 1;
    }
    m
}

/// A current row compared with the old row of the same key, and whether any
/// cell changed.
fn changed_row_exec(
    old: &Vec<Cell>,
    row: &Vec<Cell>,
    map: &Vec<Option<usize>>,
    Ghost(prev_cols): Ghost<Seq<ColumnV>>,
    Ghost(cur_cols): Ghost<Seq<ColumnV>>,
) -> (r: (Vec<Cell>, bool))
    requires
        map@.len() == cur_cols.len(),
        forall|i: int| 0 <= i < cur_cols.len() ==> opt_int(#[trigger] map@[i]) == col_pos(prev_cols, cur_cols[i].key),
    ensures
        row_view(r.0) == changed_row(prev_cols, cur_cols, row_view(*old), row_view(*row)),
        r.1 == row_has_change(prev_cols, cur_cols, row_view(*old), row_view(*row)),
{
    let ghost ov = row_view(*old);
    let ghost rv = row_view(*row);
    let mut out: Vec<Cell> = Vec::new();
    let mut any = false;
    let mut i: usize = 0;
    while i < row.len()
        invariant
            i <= row@.len(),
            ov == row_view(*old),
            rv == row_view(*row),
            map@.len() == cur_cols.len(),
            forall|k: int| 0 <= k < cur_cols.len() ==> opt_int(#[trigger] map@[k]) == col_pos(prev_cols, cur_cols[k].key),
            row_view(out) == changed_row(prev_cols, cur_cols, ov, rv).take(i as int),
            any == exists|k: int| 0 <= k < i && #[trigger] cell_changed(prev_cols, cur_cols, ov, k, rv[k]),
        decreases row@.len() - i,
    {
        let text = chars_of(row[i].text.as_str());
        let same = if i < map.len() {
            match map[i] {
                Some(j) => {
                    if j < old.len() {
                        let ot = chars_of(old[j].text.as_str());
                        eq(ot.as_slice(), text.as_slice())
                    } else {
                        false
                    }
                },
                None => false,
            }
        } else {
            false
        };
        assert(same == !cell_changed(prev_cols, cur_cols, ov, i as int, rv[i as int]));
        let c = if same {
            row[i].copied()
        } else {
            row[i].copied().with_change(ChangeKind::Changed)
        };
        let ghost before = row_view(out);
        out.push(c);
        assert(row_view(out) =~= before.push(c@));
        if !same {
            any = true;
        }
        i += 1;
        assert(changed_row(prev_cols, cur_cols, ov, rv).take(i as int) =~= before.push(c@));
    }
    assert(changed_row(prev_cols, cur_cols, ov, rv).take(row@.len() as int) =~= changed_row(
        prev_cols,
        cur_cols,
        ov,
        rv,
    ));
    (out, any)
}

/// Whether some current row has the key `k`.
fn seen_exec(rows: &Vec<Vec<Cell>>, key: usize, k: &[char]) -> (r: bool)
    ensures
        r == seen(rows_view(rows@), key as int, k@),
{
    let ghost rv = rows_view(rows@);
    let mut i: usize = 0;
    while i < rows.len()
        invariant
            i <= rows@.len(),
            rv == rows_view(rows@),
            forall|j: int| 0 <= j < i ==> #[trigger] row_key(rv[j], key as int) != k@,
        decreases rows@.len() - i,
    {
        let rk = row_key_exec(&rows[i], key);
        if eq(rk.as_slice(), k) {
            assert(row_key(rv[i as int], key as int) == k@);
            return true;
        }
        i += 1;
    }
    false
}

/// An old row laid out in the current columns, marked removed.
fn aligned_exec(
    old: &Vec<Cell>,
    map: &Vec<Option<usize>>,
    Ghost(prev_cols): Ghost<Seq<ColumnV>>,
    Ghost(cur_cols): Ghost<Seq<ColumnV>>,
) -> (r: Vec<Cell>)
    requires
        map@.len() == cur_cols.len(),
        forall|i: int| 0 <= i < cur_cols.len() ==> opt_int(#[trigger] map@[i]) == col_pos(prev_cols, cur_cols[i].key),
    ensures
        row_view(r) == aligned(prev_cols, cur_cols, row_view(*old)),
        r@.len() == cur_cols.len(),
{
    let ghost ov = row_view(*old);
    let mut out: Vec<Cell> = Vec::new();
    let mut i: usize = 0;
    while i < map.len()
        invariant
            i <= map@.len(),
            ov == row_view(*old),
            out@.len() == i,
            map@.len() == cur_cols.len(),
            forall|k: int| 0 <= k < cur_cols.len() ==> opt_int(#[trigger] map@[k]) == col_pos(prev_cols, cur_cols[k].key),
            row_view(out) == aligned(prev_cols, cur_cols, ov).take(i as int),
        decreases map@.len() - i,
    {
        let base = match map[i] {
            Some(j) => if j < old.len() {
                old[j].copied()
            } else {
                empty_cell_exec()
            },
            None => empty_cell_exec(),
        };
        let c = base.with_change(ChangeKind::Removed);
        assert(opt_int(map@[i as int]) == col_pos(prev_cols, cur_cols[i as int].key));
        assert(c@ == aligned(prev_cols, cur_cols, ov)[i as int]);
        let ghost before = row_view(out);
        out.push(c);
        assert(row_view(out) =~= before.push(c@));
        i += 1;
        assert(aligned(prev_cols, cur_cols, ov).take(i as int) =~= before.push(c@));
    }
    assert(aligned(prev_cols, cur_cols, ov).take(map@.len() as int) =~= aligned(prev_cols, cur_cols, ov));
    out
}

fn empty_cell_exec() -> (c: Cell)
    ensures
        c@ == empty_cell(),
{
    let c = Cell::plain("");
    proof {
        reveal_strlit("");
    }
    assert(c@.text =~= seq![]);
    assert(c@.trend =~= seq![]);
    c
}

/// `changes: +a ~c -r`.
fn summary_exec(added: usize, changed: usize, removed: usize) -> (r: String)
    ensures
        r@ == summary_line(added as nat, changed as nat, removed as nat),
{
    let mut v = chars_of("changes: +");
    extend(&mut v, decimal(added as u64).as_slice());
    crate::text::extend_str(&mut v, " ~");
    extend(&mut v, decimal(changed as u64).as_slice());
    crate::text::extend_str(&mut v, " -");
    extend(&mut v, decimal(removed as u64).as_slice());
    assert(v@ =~= summary_line(added as nat, changed as nat, removed as nat));
    string_of(v.as_slice())
}

/// The current rows compared with the previous table, with the numbers of
/// added and changed rows.
fn current_rows_exec(prev: &Table, cur: &Table, key: usize, pk: usize, map: &Vec<Option<usize>>) -> (r: (
    Vec<Vec<Cell>>,
    usize,
    usize,
))
    requires
        map@.len() == cur@.columns.len(),
        forall|k: int|
            0 <= k < cur@.columns.len() ==> opt_int(#[trigger] map@[k]) == col_pos(
                prev@.columns,
                cur@.columns[k].key,
            ),
    ensures
        rows_view(r.0@) == cur@.rows.map_values(
            |row: Seq<CellV>| current_row(prev@, cur@, key as int, pk as int, row),
        ),
        r.1 as nat == count_added(prev@, cur@.rows, key as int, pk as int),
        r.2 as nat == count_changed(prev@, cur@, cur@.rows, key as int, pk as int),
{
    let ghost pv = prev@;
    let ghost cv = cur@;
    assert(pv.rows == rows_view(prev.rows@));
    assert(cv.rows == rows_view(cur.rows@));
    let mut rows: Vec<Vec<Cell>> = Vec::new();
    let mut added: usize = 0;
    let mut changed: usize = 0;
    let mut i: usize = 0;
    while i < cur.rows.len()
        invariant
            i <= cur.rows@.len(),
            pv == prev@,
            cv == cur@,
            pv.rows == rows_view(prev.rows@),
            cv.rows == rows_view(cur.rows@),
            map@.len() == cv.columns.len(),
            forall|k: int| 0 <= k < cv.columns.len() ==> opt_int(#[trigger] map@[k]) == col_pos(pv.columns, cv.columns[k].key),
            added <= i,
            changed <= i,
            added as nat == count_added(pv, cv.rows.take(i as int), key as int, pk as int),
            changed as nat == count_changed(pv, cv, cv.rows.take(i as int), key as int, pk as int),
            rows_view(rows@) == cv.rows.take(i as int).map_values(
                |row: Seq<CellV>| current_row(pv, cv, key as int, pk as int, row),
            ),
        decreases cur.rows@.len() - i,
    {
        let ghost tk = cv.rows.take(i + 1);
        assert(tk.drop_last() =~= cv.rows.take(i as int));
        assert(tk.last() == row_view(cur.rows@[i as int]));
        let rk = row_key_exec(&cur.rows[i], key);
        let row = match last_match_exec(&prev.rows, pk, rk.as_slice()) {
            Some(j) => {
                let (r, has) = changed_row_exec(
                    &prev.rows[j],
                    &cur.rows[i],
                    map,
                    Ghost(pv.columns),
                    Ghost(cv.columns),
                );
                if has {
                    changed += 1;
                }
                r
            },
            None => {
                added += 1;
                mark_row(&cur.rows[i], ChangeKind::Added)
            },
        };
        let ghost before = rows@;
        rows.push(row);
        assert(rows_view(rows@) =~= rows_view(before).push(row_view(row)));
        i += 1;
        assert(cv.rows.take(i as int).map_values(
            |row: Seq<CellV>| current_row(pv, cv, key as int, pk as int, row),
        ) =~= cv.rows.take(i - 1).map_values(
            |row: Seq<CellV>| current_row(pv, cv, key as int, pk as int, row),
        ).push(current_row(pv, cv, key as int, pk as int, cv.rows[i - 1])));
    }
    assert(cv.rows.take(cur.rows@.len() as int) =~= cv.rows);
    (rows, added, changed)
}

/// Appends the old rows whose key disappeared; returns how many.
fn append_removed(
    prev: &Table,
    cur: &Table,
    key: usize,
    pk: usize,
    map: &Vec<Option<usize>>,
    rows: &mut Vec<Vec<Cell>>,
) -> (removed: usize)
    requires
        map@.len() == cur@.columns.len(),
        forall|k: int|
            0 <= k < cur@.columns.len() ==> opt_int(#[trigger] map@[k]) == col_pos(
                prev@.columns,
                cur@.columns[k].key,
            ),
    ensures
        rows_view(final(rows)@) == rows_view(old(rows)@) + removed_rows(
            prev@.rows,
            prev@,
            cur@,
            key as int,
            pk as int,
        ),
        removed as nat == removed_rows(prev@.rows, prev@, cur@, key as int, pk as int).len(),
{
    let ghost pv = prev@;
    let ghost cv = cur@;
    let ghost start = rows_view(rows@);
    assert(pv.rows == rows_view(prev.rows@));
    assert(cv.rows == rows_view(cur.rows@));
    let mut removed: usize = 0;
    let mut j: usize = 0;
    while j < prev.rows.len()
        invariant
            j <= prev.rows@.len(),
            pv == prev@,
            cv == cur@,
            pv.rows == rows_view(prev.rows@),
            cv.rows == rows_view(cur.rows@),
            map@.len() == cv.columns.len(),
            forall|k: int| 0 <= k < cv.columns.len() ==> opt_int(#[trigger] map@[k]) == col_pos(pv.columns, cv.columns[k].key),
            removed <= j,
            removed as nat == removed_rows(pv.rows.take(j as int), pv, cv, key as int, pk as int).len(),
            rows_view(rows@) == start + removed_rows(pv.rows.take(j as int), pv, cv, key as int, pk as int),
        decreases prev.rows@.len() - j,
    {
        let ghost tk = pv.rows.take(j + 1);
        assert(tk.drop_last() =~= pv.rows.take(j as int));
        assert(tk.last() == row_view(prev.rows@[j as int]));
        let ok = row_key_exec(&prev.rows[j], pk);
        if !seen_exec(&cur.rows, key, ok.as_slice()) {
            let r = aligned_exec(&prev.rows[j], map, Ghost(pv.columns), Ghost(cv.columns));
            let ghost before = rows@;
            rows.push(r);
            assert(rows_view(rows@) =~= rows_view(before).push(row_view(r)));
            removed += 1;
        }
        j += 1;
    }
    assert(pv.rows.take(prev.rows@.len() as int) =~= pv.rows);
    removed
}

fn diff_table_exec(prev: &Table, cur: &Table, source: &str) -> (r: Table)
    requires
        prev.columns@.len() > 0,
        cur.columns@.len() > 0,
    ensures
        r@ == diff_tables(prev@, cur@, source@),
{
    let ghost pv = prev@;
    let ghost cv = cur@;
    assert(pv.columns == columns_view(prev.columns@));
    assert(cv.columns == columns_view(cur.columns@));
    let key = key_index(source, cur);
    let ck = chars_of(cur.columns[key].key.as_str());
    let pk = match col_pos_exec(&prev.columns, ck.as_slice()) {
        Some(p) => p,
        None => if key < prev.columns.len() - 1 {
            key
        } else {
            prev.columns.len() - 1
        },
    };
    assert(pk as int == prev_key_index(pv.columns, cv.columns, key as int));
    let map = column_map(&prev.columns, &cur.columns);
    let (mut rows, added, changed) = current_rows_exec(prev, cur, key, pk, &map);
    let removed = append_removed(prev, cur, key, pk, &map, &mut rows);
    let copy = cur.copied();
    let mut prelude = copy.prelude;
    let ghost pre = prelude@;
    prelude.push(summary_exec(added, changed, removed));
    assert(prelude@.map_values(|l: String| l@) =~= pre.map_values(|l: String| l@).push(
        summary_line(added as nat, changed as nat, removed as nat),
    ));
    let t = Table { columns: copy.columns, rows, prelude };
    assert(t@.rows =~= rows_view(t.rows@));
    t
}

/// No two columns share a key.
pub open spec fn distinct_column_keys(cols: Seq<ColumnV>) -> bool {
    forall|i: int, j: int| 0 <= i < j < cols.len() ==> #[trigger] cols[i].key != #[trigger] cols[j].key
}

/// Every row has a cell in the key column, no cell past the last column,
/// and no two rows share a key.
pub open spec fn keyed_rows(t: TableV, key: int) -> bool {
    &&& forall|i: int| 0 <= i < t.rows.len() ==> key < #[trigger] t.rows[i].len() <= t.columns.len()
    &&& forall|i: int, j: int|
        0 <= i < j < t.rows.len() ==> #[trigger] t.rows[i][key].text != #[trigger] t.rows[j][key].text
}

proof fn lemma_col_pos_from_range(cols: Seq<ColumnV>, key: Seq<char>, m: int)
    requires
        0 <= m,
    ensures
        col_pos_from(cols, key, m) matches Some(p) ==> m <= p < cols.len(),
    decreases cols.len() - m,
{
    if m < cols.len() && cols[m].key != key {
        lemma_col_pos_from_range(cols, key, m + 1);
    }
}

proof fn lemma_col_pos_distinct(cols: Seq<ColumnV>, i: int, m: int)
    requires
        distinct_column_keys(cols),
        0 <= m <= i < cols.len(),
    ensures
        col_pos_from(cols, cols[i].key, m) == Some(i),
    decreases i - m,
{
    if m < i {
        assert(cols[m].key != cols[i].key);
        lemma_col_pos_distinct(cols, i, m + 1);
    }
}

proof fn lemma_first_key_pos_range(keys: Seq<Seq<char>>, cols: Seq<ColumnV>, j: int)
    requires
        cols.len() > 0,
    ensures
        0 <= first_key_pos(keys, cols, j) < cols.len(),
    decreases keys.len() - j,
{
    if 0 <= j < keys.len() {
        lemma_col_pos_from_range(cols, keys[j], 0);
        lemma_first_key_pos_range(keys, cols, j + 1);
    }
}

proof fn lemma_last_match_self(rows: Seq<Seq<CellV>>, key: int, i: int)
    requires
        0 <= i < rows.len(),
        forall|a: int| 0 <= a < rows.len() ==> key < #[trigger] rows[a].len(),
        forall|a: int, b: int| 0 <= a < b < rows.len() ==> #[trigger] rows[a][key].text != #[trigger] rows[b][key].text,
        0 <= key,
    ensures
        last_match(rows, key, rows[i][key].text) == Some(rows[i]),
    decreases rows.len(),
{
    if i < rows.len() - 1 {
        assert(rows[i][key].text != rows[rows.len() - 1][key].text);
        let d = rows.drop_last();
        assert(d[i] == rows[i]);
        assert forall|a: int, b: int| 0 <= a < b < d.len() implies #[trigger] d[a][key].text != #[trigger] d[b][key].text by {
            assert(d[a] == rows[a] && d[b] == rows[b]);
        }
        assert forall|a: int| 0 <= a < d.len() implies key < #[trigger] d[a].len() by {
            assert(d[a] == rows[a]);
        }
        lemma_last_match_self(d, key, i);
    }
}

proof fn lemma_row_compares_equal(cols: Seq<ColumnV>, r: Seq<CellV>)
    requires
        distinct_column_keys(cols),
        r.len() <= cols.len(),
    ensures
        changed_row(cols, cols, r, r) =~= r,
        !row_has_change(cols, cols, r, r),
{
    assert forall|i: int| 0 <= i < r.len() implies !cell_changed(cols, cols, r, i, #[trigger] r[i]) by {
        lemma_col_pos_distinct(cols, i, 0);
    }
}

proof fn lemma_self_counts(t: TableV, key: int, n: int)
    requires
        distinct_column_keys(t.columns),
        0 <= key < t.columns.len(),
        keyed_rows(t, key),
        0 <= n <= t.rows.len(),
    ensures
        count_added(t, t.rows.take(n), key, key) == 0,
        count_changed(t, t, t.rows.take(n), key, key) == 0,
        removed_rows(t.rows.take(n), t, t, key, key) == Seq::<Seq<CellV>>::empty(),
    decreases n,
{
    if n > 0 {
        let rs = t.rows.take(n);
        assert(rs.drop_last() =~= t.rows.take(n - 1));
        assert(rs.last() == t.rows[n - 1]);
        lemma_self_counts(t, key, n - 1);
        let r = t.rows[n - 1];
        assert(key < r.len() <= t.columns.len());
        lemma_last_match_self(t.rows, key, n - 1);
        assert(row_key(r, key) == r[key].text);
        lemma_row_compares_equal(t.columns, r);
        assert(row_key(t.rows[n - 1], key) == r[key].text);
        assert(seen(t.rows, key, row_key(rs.last(), key)));
    }
}

/// Comparing a table with itself marks nothing: where the columns have
/// distinct keys and each row its own key, the rows come back unchanged,
/// none is appended as removed, and the summary counts no change.
pub proof fn lemma_diff_with_itself(t: TableV, source: Seq<char>)
    requires
        t.columns.len() > 0,
        distinct_column_keys(t.columns),
        keyed_rows(t, key_index_of(source, t.columns)),
    ensures
        diff_spec(ContentV::Table(t), ContentV::Table(t), source) == ContentV::Table(
            TableV { prelude: t.prelude.push(summary_line(0, 0, 0)), ..t },
        ),
{
    let key = key_index_of(source, t.columns);
    lemma_first_key_pos_range(key_columns_of(source), t.columns, 0);
    lemma_col_pos_distinct(t.columns, key, 0);
    assert(prev_key_index(t.columns, t.columns, key) == key);
    lemma_self_counts(t, key, t.rows.len() as int);
    assert(t.rows.take(t.rows.len() as int) =~= t.rows);
    assert forall|i: int| 0 <= i < t.rows.len() implies current_row(t, t, key, key, #[trigger] t.rows[i]) == t.rows[i] by {
        lemma_last_match_self(t.rows, key, i);
        lemma_row_compares_equal(t.columns, t.rows[i]);
    }
    let d = diff_tables(t, t, source);
    assert(d.rows =~= t.rows);
}

/// Entries of a long listing are matched by name: the key column of an `ls`
/// table is its `name` column, so comparing an `ls` table with itself marks
/// nothing as long as no two rows share a name, however many share an
/// owner, a size or a date.
pub proof fn lemma_ls_rows_match_by_name(t: TableV, p: int)
    requires
        0 <= p < t.columns.len(),
        t.columns[p].key == "name"@,
        distinct_column_keys(t.columns),
        keyed_rows(t, p),
    ensures
        key_index_of("ls"@, t.columns) == p,
        diff_spec(ContentV::Table(t), ContentV::Table(t), "ls"@) == ContentV::Table(
            TableV { prelude: t.prelude.push(summary_line(0, 0, 0)), ..t },
        ),
{
    reveal_strlit("ls");
    reveal_strlit("name");
    assert(key_columns_of("ls"@) == seq!["name"@]);
    lemma_col_pos_distinct(t.columns, p, 0);
    assert(col_pos(t.columns, "name"@) == Some(p));
    lemma_diff_with_itself(t, "ls"@);
}

/// Rows of `ps` output are matched by process id: the key column of a `ps`
/// table is its `pid` column, so comparing a `ps` table with itself marks
/// nothing as long as no two rows share a pid, however many rows share a
/// user or a command.
pub proof fn lemma_ps_rows_match_by_pid(t: TableV, p: int)
    requires
        0 <= p < t.columns.len(),
        t.columns[p].key == "pid"@,
        distinct_column_keys(t.columns),
        keyed_rows(t, p),
    ensures
        key_index_of("ps"@, t.columns) == p,
        diff_spec(ContentV::Table(t), ContentV::Table(t), "ps"@) == ContentV::Table(
            TableV { prelude: t.prelude.push(summary_line(0, 0, 0)), ..t },
        ),
{
    reveal_strlit("ps");
    reveal_strlit("ls");
    reveal_strlit("pid");
    assert("ps"@[0] != "ls"@[0]);
    assert(key_columns_of("ps"@) == seq!["pid"@]);
    lemma_col_pos_distinct(t.columns, p, 0);
    assert(col_pos(t.columns, "pid"@) == Some(p));
    lemma_diff_with_itself(t, "ps"@);
}

/// The current view with its rows marked against the previous view: rows
/// whose key is new are added, rows whose cells differ are changed (cell by
/// cell), and rows whose key disappeared are appended as removed, with a
/// summary line in the prelude. Anything but two tables with columns gives
/// the current view unchanged.
pub fn diff_views(previous: &Content, current: &Content, source: &str) -> (r: Content)
    ensures
        r@ == diff_spec(previous@, current@, source@),
{
    match (previous, current) {
        (Content::Table(prev), Content::Table(cur)) => {
            if prev.columns.len() == 0 || cur.columns.len() == 0 {
                return current.copied();
            }
            Content::Table(diff_table_exec(prev, cur, source))
        },
        _ => current.copied(),
    }
}

// ---------------------------------------------------------------------------
// Cache entries as text
// ---------------------------------------------------------------------------

/// A cached result: where it came from, when, its raw bytes and its rows as
/// JSON.
#[derive(Debug, Clone)]
pub struct CacheEntry {
    pub source: String,
    pub command: String,
    pub argv: Vec<String>,
    pub timestamp: u64,
    pub raw: Vec<u8>,
    pub rows_json: String,
}

/// The bytes hashed for a cache key: the source and each argument, each
/// followed by a zero byte.
pub open spec fn key_bytes(source: Seq<u8>, args: Seq<Seq<u8>>) -> Seq<u8>
    decreases args.len(),
{
    if args.len() == 0 {
        source.push(0)
    } else {
        key_bytes(source, args.drop_last()) + args.last().push(0)
    }
}

pub open spec fn fnv_prime() -> u64 {
    0x0000_0100_0000_01b3
}

/// 64-bit FNV-1a.
pub open spec fn fnv(b: Seq<u8>) -> u64
    decreases b.len(),
{
    if b.len() == 0 {
        0xcbf2_9ce4_8422_2325
    } else {
        vstd::wrapping::u64_specs::wrapping_mul(fnv(b.drop_last()) ^ (b.last() as u64), fnv_prime())
    }
}

pub open spec fn hex_char(d: int) -> char {
    if d < 10 {
        ((d + 48) as u8) as char
    } else {
        ((d + 87) as u8) as char
    }
}

/// Sixteen lowercase hexadecimal digits.
pub open spec fn hex16(h: u64) -> Seq<char> {
    Seq::new(16, |i: int| hex_char(((h as int) / pow16(15 - i)) % 16))
}

pub open spec fn pow16(n: int) -> int
    decreases n,
{
    if n <= 0 {
        1
    } else {
        16 * pow16(n - 1)
    }
}

proof fn lemma_pow16_pos(n: int)
    ensures
        pow16(n) >= 1,
    decreases n,
{
    if n > 0 {
        lemma_pow16_pos(n - 1);
    }
}

/// The hash as sixteen lowercase hexadecimal digits.
fn hex16_exec(h: u64) -> (r: Vec<char>)
    ensures
        r@ == hex16(h),
{
    let mut out: Vec<char> = Vec::new();
    let mut v: u64 = h;
    let mut i: usize = 0;
    let mut rev: Vec<char> = Vec::new();
    while i < 16
        invariant
            i <= 16,
            v as int == (h as int) / pow16(i as int),
            rev@.len() == i,
            forall|j: int| 0 <= j < i ==> #[trigger] rev@[j] == hex_char(((h as int) / pow16(j)) % 16),
        decreases 16 - i,
    {
        let d = v % 16;
        let c = if d < 10 {
            ((d as u8) + 48) as char
        } else {
            ((d as u8) + 87) as char
        };
        rev.push(c);
        proof {
            lemma_pow16_pos(i as int);
            vstd::arithmetic::div_mod::lemma_div_denominator(h as int, pow16(i as int), 16);
            assert(pow16(i as int) * 16 == pow16(i + 1));
        }
        v = v / 16;
        i += 1;
    }
    let mut j: usize = 16;
    while j > 0
        invariant
            j <= 16,
            rev@.len() == 16,
            forall|q: int| 0 <= q < 16 ==> #[trigger] rev@[q] == hex_char(((h as int) / pow16(q)) % 16),
            out@.len() == 16 - j,
            forall|q: int| 0 <= q < 16 - j ==> #[trigger] out@[q] == hex16(h)[q],
        decreases j,
    {
        out.push(rev[j - 1]);
        j -= 1;
    }
    assert(out@ =~= hex16(h));
    out
}

proof fn lemma_fnv_push(b: Seq<u8>, x: u8)
    ensures
        fnv(b.push(x)) == vstd::wrapping::u64_specs::wrapping_mul(fnv(b) ^ (x as u64), fnv_prime()),
{
    assert(b.push(x).drop_last() =~= b);
}

fn fnv_extend(hash: u64, bytes: &[u8], Ghost(done): Ghost<Seq<u8>>) -> (r: u64)
    requires
        hash == fnv(done),
    ensures
        r == fnv(done + bytes@),
{
    let mut h = hash;
    let mut i: usize = 0;
    while i < bytes.len()
        invariant
            i <= bytes@.len(),
            h == fnv(done + bytes@.take(i as int)),
        decreases bytes@.len() - i,
    {
        proof {
            lemma_fnv_push(done + bytes@.take(i as int), bytes@[i as int]);
            assert((done + bytes@.take(i as int)).push(bytes@[i as int]) =~= done + bytes@.take(i + 1));
        }
        h = (h ^ (bytes[i] as u64)).wrapping_mul(0x0000_0100_0000_01b3);
        i += 1;
    }
    assert(bytes@.take(bytes@.len() as int) =~= bytes@);
    h
}

pub open spec fn args_bytes(args: Seq<String>) -> Seq<Seq<u8>> {
    args.map_values(|a: String| vstd::utf8::encode_utf8(a@))
}

proof fn lemma_key_bytes_step(src: Seq<u8>, args: Seq<Seq<u8>>, k: int)
    requires
        0 <= k < args.len(),
    ensures
        key_bytes(src, args.take(k + 1)) == key_bytes(src, args.take(k)) + args[k] + seq![0u8],
{
    let t = args.take(k + 1);
    assert(t.drop_last() =~= args.take(k));
    assert(args[k] + seq![0u8] =~= args[k].push(0));
}

/// The cache key of a source and command: FNV-1a over the source and the
/// arguments, each followed by a zero byte, as sixteen hexadecimal digits.
pub fn cache_key(source: &str, command: &[String]) -> (r: String)
    ensures
        r@ == hex16(fnv(key_bytes(source.spec_bytes(), args_bytes(command@)))),
{
    let zero: [u8; 1] = [0];
    let ghost zs = seq![0u8];
    assert(zero@ =~= zs);
    let h0: u64 = 0xcbf2_9ce4_8422_2325;
    let ghost empty: Seq<u8> = seq![];
    let h1 = fnv_extend(h0, source.as_bytes(), Ghost(empty));
    assert(seq![] + source.spec_bytes() =~= source.spec_bytes());
    let mut h = fnv_extend(h1, zero.as_slice(), Ghost(source.spec_bytes()));
    assert(source.spec_bytes() + zs =~= key_bytes(source.spec_bytes(), seq![]));
    let mut k: usize = 0;
    while k < command.len()
        invariant
            k <= command@.len(),
            zero@ == seq![0u8],
            h == fnv(key_bytes(source.spec_bytes(), args_bytes(command@).take(k as int))),
        decreases command@.len() - k,
    {
        let ghost before = key_bytes(source.spec_bytes(), args_bytes(command@).take(k as int));
        let arg = command[k].as_str();
        let h2 = fnv_extend(h, arg.as_bytes(), Ghost(before));
        h = fnv_extend(h2, zero.as_slice(), Ghost(before + arg.spec_bytes()));
        proof {
            lemma_key_bytes_step(source.spec_bytes(), args_bytes(command@), k as int);
            assert(arg@ == command@[k as int]@);
            assert(args_bytes(command@)[k as int] == arg.spec_bytes());
            assert(before + arg.spec_bytes() + zero@ == key_bytes(
                source.spec_bytes(),
                args_bytes(command@).take(k + 1),
            ));
        }
        k += 1;
    }
    assert(args_bytes(command@).take(command@.len() as int) =~= args_bytes(command@));
    string_of(hex16_exec(h).as_slice())
}

/// The JSON string literal of a value: quotes, backslashes, newlines,
/// returns and tabs escaped, other control characters turned into spaces.
pub open spec fn json_string_spec(v: Seq<char>) -> Seq<char> {
    seq!['"'] + escaped_chars(v) + seq!['"']
}

pub open spec fn escape_char(c: char) -> Seq<char> {
    if c == '"' {
        seq!['\\', '"']
    } else if c == '\\' {
        seq!['\\', '\\']
    } else if c == '\n' {
        seq!['\\', 'n']
    } else if c == '\r' {
        seq!['\\', 'r']
    } else if c == '\t' {
        seq!['\\', 't']
    } else if (c as u32) < 0x20 {
        seq![' ']
    } else {
        seq![c]
    }
}

pub open spec fn escaped_chars(v: Seq<char>) -> Seq<char>
    decreases v.len(),
{
    if v.len() == 0 {
        seq![]
    } else {
        escaped_chars(v.drop_last()) + escape_char(v.last())
    }
}

fn escaped_exec(v: &[char], out: &mut Vec<char>)
    ensures
        final(out)@ == old(out)@ + escaped_chars(v@),
{
    let ghost start = out@;
    let mut i: usize = 0;
    while i < v.len()
        invariant
            i <= v@.len(),
            out@ == start + escaped_chars(v@.take(i as int)),
        decreases v@.len() - i,
    {
        let c = v[i];
        if c == '"' {
            out.push('\\');
            out.push('"');
        } else if c == '\\' {
            out.push('\\');
            out.push('\\');
        } else if c == '\n' {
            out.push('\\');
            out.push('n');
        } else if c == '\r' {
            out.push('\\');
            out.push('r');
        } else if c == '\t' {
            out.push('\\');
            out.push('t');
        } else if (c as u32) < 0x20 {
            out.push(' ');
        } else {
            out.push(c);
        }
        assert(v@.take(i + 1).drop_last() =~= v@.take(i as int));
        i += 1;
        assert(out@ =~= start + escaped_chars(v@.take(i as int)));
    }
    assert(v@.take(v@.len() as int) =~= v@);
}

pub fn json_string(value: &str) -> (r: String)
    ensures
        r@ == json_string_spec(value@),
{
    let v = chars_of(value);
    let mut out: Vec<char> = Vec::new();
    out.push('"');
    escaped_exec(v.as_slice(), &mut out);
    out.push('"');
    assert(out@ =~= json_string_spec(value@));
    string_of(out.as_slice())
}

/// A JSON array of string literals, separated by `, `.
pub open spec fn json_string_array_spec(values: Seq<Seq<char>>) -> Seq<char> {
    seq!['['] + join(values.map_values(|v: Seq<char>| json_string_spec(v)), seq![',', ' ']) + seq![']']
}

pub fn json_string_array(values: &[String]) -> (r: String)
    ensures
        r@ == json_string_array_spec(values@.map_values(|v: String| v@)),
{
    let ghost vs = values@.map_values(|v: String| v@);
    let mut body: Vec<char> = Vec::new();
    let mut i: usize = 0;
    while i < values.len()
        invariant
            i <= values@.len(),
            vs == values@.map_values(|v: String| v@),
            body@ == join(vs.take(i as int).map_values(|v: Seq<char>| json_string_spec(v)), seq![',', ' ']),
        decreases values@.len() - i,
    {
        let ghost parts = vs.take(i as int).map_values(|v: Seq<char>| json_string_spec(v));
        assert(vs.take(i + 1).map_values(|v: Seq<char>| json_string_spec(v)) =~= parts.push(
            json_string_spec(vs[i as int]),
        ));
        assert(parts.push(json_string_spec(vs[i as int])).drop_last() =~= parts);
        if i > 0 {
            body.push(',');
            body.push(' ');
        }
        let js = json_string(values[i].as_str());
        let jc = chars_of(js.as_str());
        extend(&mut body, jc.as_slice());
        i += 1;
        proof {
            if i == 1 {
                assert(body@ =~= join(vs.take(i as int).map_values(|v: Seq<char>| json_string_spec(v)), seq![',', ' ']));
            } else {
                assert(body@ =~= join(vs.take(i as int).map_values(|v: Seq<char>| json_string_spec(v)), seq![',', ' ']));
            }
        }
    }
    assert(vs.take(values@.len() as int) =~= vs);
    let mut out: Vec<char> = Vec::new();
    out.push('[');
    extend(&mut out, body.as_slice());
    out.push(']');
    assert(out@ =~= json_string_array_spec(vs));
    string_of(out.as_slice())
}

/// Two lowercase hexadecimal digits per byte.
pub open spec fn hex_of(b: Seq<u8>) -> Seq<char>
    decreases b.len(),
{
    if b.len() == 0 {
        seq![]
    } else {
        hex_of(b.drop_last()) + seq![hex_char(b.last() as int / 16), hex_char(b.last() as int % 16)]
    }
}

fn hex_digit_char(d: u8) -> (c: char)
    requires
        d < 16,
    ensures
        c == hex_char(d as int),
{
    if d < 10 {
        (d + 48) as char
    } else {
        (d + 87) as char
    }
}

pub fn hex_encode(input: &[u8]) -> (r: String)
    ensures
        r@ == hex_of(input@),
{
    let mut out: Vec<char> = Vec::new();
    let mut i: usize = 0;
    while i < input.len()
        invariant
            i <= input@.len(),
            out@ == hex_of(input@.take(i as int)),
        decreases input@.len() - i,
    {
        let b = input[i];
        out.push(hex_digit_char(b / 16));
        out.push(hex_digit_char(b % 16));
        assert(input@.take(i + 1).drop_last() =~= input@.take(i as int));
        i += 1;
        assert(out@ =~= hex_of(input@.take(i as int)));
    }
    assert(input@.take(input@.len() as int) =~= input@);
    string_of(out.as_slice())
}

pub open spec fn is_hex_byte(b: u8) -> bool {
    (48 <= b <= 57) || (97 <= b <= 102) || (65 <= b <= 70)
}

pub open spec fn hex_byte_value(b: u8) -> int {
    if 48 <= b <= 57 {
        b - 48
    } else if 97 <= b <= 102 {
        b - 87
    } else {
        b - 55
    }
}

/// The byte a two-byte chunk spells: two hexadecimal digits, high first.
pub open spec fn chunk_value(b0: u8, b1: u8) -> Option<u8> {
    if is_hex_byte(b0) && is_hex_byte(b1) {
        Some((hex_byte_value(b0) * 16 + hex_byte_value(b1)) as u8)
    } else {
        None
    }
}

/// The bytes of the chunks from chunk `k` on, prefixed with `acc`.
pub open spec fn hex_bytes(b: Seq<u8>, k: int, acc: Seq<u8>) -> Option<Seq<u8>>
    decreases b.len() - 2 * k,
{
    if k < 0 || 2 * k + 1 >= b.len() {
        Some(acc)
    } else {
        match chunk_value(b[2 * k], b[2 * k + 1]) {
            Some(v) => hex_bytes(b, k + 1, acc.push(v)),
            None => None,
        }
    }
}

/// The bytes spelled by pairs of hexadecimal digits; `None` for an odd
/// length or a pair that is not a number.
pub open spec fn hex_decode_spec(b: Seq<u8>) -> Option<Seq<u8>> {
    if b.len() % 2 != 0 {
        None
    } else {
        hex_bytes(b, 0, seq![])
    }
}

/// Text of an even number of bytes that are all hexadecimal digits.
pub open spec fn hex_text(b: Seq<u8>) -> bool {
    b.len() % 2 == 0 && forall|i: int| 0 <= i < b.len() ==> is_hex_byte(#[trigger] b[i])
}

proof fn lemma_hex_bytes_some(b: Seq<u8>, k: int, acc: Seq<u8>)
    requires
        b.len() % 2 == 0,
        0 <= 2 * k <= b.len(),
    ensures
        hex_bytes(b, k, acc) is Some <==> forall|i: int| 2 * k <= i < b.len() ==> is_hex_byte(#[trigger] b[i]),
    decreases b.len() - 2 * k,
{
    if 2 * k + 1 < b.len() {
        match chunk_value(b[2 * k], b[2 * k + 1]) {
            Some(v) => {
                lemma_hex_bytes_some(b, k + 1, acc.push(v));
            },
            None => {},
        }
    }
}

fn hex_byte_exec(b: u8) -> (r: u8)
    requires
        is_hex_byte(b),
    ensures
        r as int == hex_byte_value(b),
{
    if 48 <= b && b <= 57 {
        b - 48
    } else if 97 <= b && b <= 102 {
        b - 87
    } else {
        b - 55
    }
}

/// The bytes that hexadecimal text spells; `None` unless the text is an even
/// number of ASCII hexadecimal digits (a damaged entry reads as nothing).
pub fn hex_decode(input: &str) -> (r: Option<Vec<u8>>)
    ensures
        r is Some <==> hex_text(input.spec_bytes()),
        match r {
            Some(v) => hex_decode_spec(input.spec_bytes()) == Some(v@),
            None => hex_decode_spec(input.spec_bytes()).is_none(),
        },
{
    proof {
        if input.spec_bytes().len() % 2 == 0 {
            lemma_hex_bytes_some(input.spec_bytes(), 0, seq![]);
        }
    }
    let b = input.as_bytes();
    if b.len() % 2 != 0 {
        return None;
    }
    let mut out: Vec<u8> = Vec::new();
    let mut k: usize = 0;
    while k < b.len() / 2
        invariant
            b@ == input.spec_bytes(),
            b@.len() % 2 == 0,
            k <= b@.len() / 2,
            hex_decode_spec(b@) == hex_bytes(b@, k as int, out@),
        decreases b@.len() / 2 - k,
    {
        let b0 = b[2 * k];
        let b1 = b[2 * k + 1];
        let is_hex0 = (48 <= b0 && b0 <= 57) || (97 <= b0 && b0 <= 102) || (65 <= b0 && b0 <= 70);
        let is_hex1 = (48 <= b1 && b1 <= 57) || (97 <= b1 && b1 <= 102) || (65 <= b1 && b1 <= 70);
        if is_hex0 && is_hex1 {
            let hi = hex_byte_exec(b0);
            let lo = hex_byte_exec(b1);
            out.push(hi * 16 + lo);
        } else {
            return None;
        }
        k += 1;
    }
    Some(out)
}

// ---------------------------------------------------------------------------
// Reading fields back
// ---------------------------------------------------------------------------

/// What follows the `:` after the first `"field"`, trimmed at the start.
pub open spec fn field_value(input: Seq<char>, field: Seq<char>) -> Option<Seq<char>> {
    let marker = seq!['"'] + field + seq!['"'];
    match first_occurrence(input, marker) {
        Some(i) => {
            let tail = input.skip(i + marker.len());
            match first_occurrence(tail, seq![':']) {
                Some(c) => Some(trim_start(tail.skip(c + 1))),
                None => None,
            }
        },
        None => None,
    }
}

fn field_value_exec(input: &[char], field: &str) -> (r: Option<Vec<char>>)
    ensures
        match r {
            Some(v) => field_value(input@, field@) == Some(v@),
            None => field_value(input@, field@).is_none(),
        },
{
    let mut marker: Vec<char> = Vec::new();
    marker.push('"');
    extend_str(&mut marker, field);
    marker.push('"');
    assert(marker@ =~= seq!['"'] + field@ + seq!['"']);
    let i = match first_occurrence_exec(input, marker.as_slice()) {
        Some(i) => i,
        None => {
            return None;
        },
    };
    let n = input.len();
    assert(i + marker@.len() <= n);
    let tail = crate::text::slice_of(input, i + marker.len(), n);
    assert(tail@ =~= input@.skip(i + marker@.len()));
    let colon: Vec<char> = vec![':'];
    assert(colon@ =~= seq![':']);
    let c = match first_occurrence_exec(tail.as_slice(), colon.as_slice()) {
        Some(c) => c,
        None => {
            return None;
        },
    };
    let rest = crate::text::slice_of(tail.as_slice(), c + 1, tail.len());
    assert(rest@ =~= tail@.skip(c + 1));
    Some(trimmed_start(rest.as_slice()))
}

pub open spec fn unescape(c: char) -> char {
    if c == 'n' {
        '\n'
    } else if c == 'r' {
        '\r'
    } else if c == 't' {
        '\t'
    } else {
        c
    }
}

/// The text of a quoted string from position `i` (after the opening quote)
/// up to the closing quote, backslash escapes undone.
pub open spec fn read_quoted(s: Seq<char>, i: int, acc: Seq<char>, escaped: bool) -> Option<Seq<char>>
    decreases s.len() - i,
{
    if i < 0 || i >= s.len() {
        None
    } else if escaped {
        read_quoted(s, i + 1, acc.push(unescape(s[i])), false)
    } else if s[i] == '\\' {
        read_quoted(s, i + 1, acc, true)
    } else if s[i] == '"' {
        Some(acc)
    } else {
        read_quoted(s, i + 1, acc.push(s[i]), false)
    }
}

fn read_quoted_exec(s: &[char], start: usize) -> (r: Option<Vec<char>>)
    requires
        start <= s@.len(),
    ensures
        match r {
            Some(v) => read_quoted(s@, start as int, seq![], false) == Some(v@),
            None => read_quoted(s@, start as int, seq![], false).is_none(),
        },
{
    let mut acc: Vec<char> = Vec::new();
    let mut escaped = false;
    let mut i = start;
    while i < s.len()
        invariant
            start <= i <= s@.len(),
            read_quoted(s@, start as int, seq![], false) == read_quoted(s@, i as int, acc@, escaped),
        decreases s@.len() - i,
    {
        let c = s[i];
        if escaped {
            let u = if c == 'n' {
                '\n'
            } else if c == 'r' {
                '\r'
            } else if c == 't' {
                '\t'
            } else {
                c
            };
            acc.push(u);
            escaped = false;
        } else if c == '\\' {
            escaped = true;
        } else if c == '"' {
            return Some(acc);
        } else {
            acc.push(c);
        }
        i += 1;
    }
    None
}

/// The string value of the first `"field"`.
pub open spec fn string_field(input: Seq<char>, field: Seq<char>) -> Option<Seq<char>> {
    match field_value(input, field) {
        Some(v) => if v.len() > 0 && v[0] == '"' {
            read_quoted(v, 1, seq![], false)
        } else {
            None
        },
        None => None,
    }
}

pub fn json_string_field(input: &str, field: &str) -> (r: Option<String>)
    ensures
        match r {
            Some(v) => string_field(input@, field@) == Some(v@),
            None => string_field(input@, field@).is_none(),
        },
{
    let t = chars_of(input);
    let v = match field_value_exec(t.as_slice(), field) {
        Some(v) => v,
        None => {
            return None;
        },
    };
    if v.len() == 0 || v[0] != '"' {
        return None;
    }
    match read_quoted_exec(v.as_slice(), 1) {
        Some(x) => Some(string_of(x.as_slice())),
        None => None,
    }
}

/// The number of the first `"field"`: its leading digits read as a `u64`.
pub open spec fn number_field(input: Seq<char>, field: Seq<char>) -> Option<u64> {
    match field_value(input, field) {
        Some(v) => {
            let d = v.take(digit_run(v));
            if d.len() > 0 && digits_value(d) <= u64::MAX {
                Some(digits_value(d) as u64)
            } else {
                None
            }
        },
        None => None,
    }
}

proof fn lemma_digit_run_bounds(s: Seq<char>)
    ensures
        0 <= digit_run(s) <= s.len(),
        all_digits(s.take(digit_run(s))),
    decreases s.len(),
{
    if s.len() > 0 && is_digit(s[0]) {
        lemma_digit_run_bounds(s.drop_first());
        let d = s.drop_first().take(digit_run(s.drop_first()));
        assert(s.take(digit_run(s)) =~= seq![s[0]] + d);
        assert forall|j: int| 0 <= j < s.take(digit_run(s)).len() implies is_digit(
            #[trigger] s.take(digit_run(s))[j],
        ) by {
            if j > 0 {
                assert(s.take(digit_run(s))[j] == d[j - 1]);
            }
        }
    }
}

pub fn json_number_field(input: &str, field: &str) -> (r: Option<u64>)
    ensures
        r == number_field(input@, field@),
{
    let t = chars_of(input);
    let v = match field_value_exec(t.as_slice(), field) {
        Some(v) => v,
        None => {
            return None;
        },
    };
    let e = digit_run_exec(v.as_slice(), 0, v.len());
    assert(v@.subrange(0, v@.len() as int) =~= v@);
    let ghost d = v@.take(e as int);
    proof {
        lemma_digit_run_bounds(v@);
    }
    if e == 0 {
        return None;
    }
    let mut acc: u64 = 0;
    let mut i: usize = 0;
    while i < e
        invariant
            i <= e <= v@.len(),
            d == v@.take(e as int),
            e as int == digit_run(v@),
            field_value(input@, field@) == Some(v@),
            all_digits(d),
            acc as int == digits_value(d.take(i as int)),
        decreases e - i,
    {
        assert(d.take(i + 1).drop_last() =~= d.take(i as int));
        assert(is_digit(d[i as int]));
        let digit = (v[i] as u64) - 48;
        if acc > (u64::MAX - digit) / 10 {
            proof {
                let m = u64::MAX - digit;
                assert(acc * 10 + digit > u64::MAX) by (nonlinear_arith)
                    requires
                        acc > m / 10,
                        m == u64::MAX - digit,
                        0 <= digit <= 9,
                ;
                assert(d[i as int] == v@[i as int]);
                assert(digits_value(d.take(i + 1)) == acc * 10 + digit);
                lemma_digits_value_grows(d, i + 1);
                assert(digits_value(d) > u64::MAX);
            }
            return None;
        }
        acc = acc * 10 + digit;
        i += 1;
    }
    assert(d.take(e as int) =~= d);
    Some(acc)
}

/// The position of the `]` that closes the array opened at the start of
/// `v`, skipping brackets inside string literals.
pub open spec fn array_end(v: Seq<char>, i: int, depth: nat, quoted: bool, escaped: bool) -> Option<int>
    decreases v.len() - i,
{
    if i < 0 || i >= v.len() {
        None
    } else if quoted {
        if escaped {
            array_end(v, i + 1, depth, true, false)
        } else if v[i] == '\\' {
            array_end(v, i + 1, depth, true, true)
        } else if v[i] == '"' {
            array_end(v, i + 1, depth, false, false)
        } else {
            array_end(v, i + 1, depth, true, false)
        }
    } else if v[i] == '"' {
        array_end(v, i + 1, depth, true, false)
    } else if v[i] == '[' {
        array_end(v, i + 1, depth + 1, false, false)
    } else if v[i] == ']' {
        if depth <= 1 {
            Some(i)
        } else {
            array_end(v, i + 1, (depth - 1) as nat, false, false)
        }
    } else {
        array_end(v, i + 1, depth, false, false)
    }
}

/// The text of the array value of the first `"field"`.
pub open spec fn array_field(input: Seq<char>, field: Seq<char>) -> Option<Seq<char>> {
    match field_value(input, field) {
        Some(v) => if v.len() > 0 && v[0] == '[' {
            match array_end(v, 0, 0, false, false) {
                Some(e) => Some(v.take(e + 1)),
                None => None,
            }
        } else {
            None
        },
        None => None,
    }
}

fn array_end_exec(v: &[char]) -> (r: Option<usize>)
    ensures
        match r {
            Some(e) => array_end(v@, 0, 0, false, false) == Some(e as int) && e < v@.len(),
            None => array_end(v@, 0, 0, false, false).is_none(),
        },
{
    let mut depth: usize = 0;
    let mut quoted = false;
    let mut escaped = false;
    let mut i: usize = 0;
    while i < v.len()
        invariant
            i <= v@.len(),
            depth <= i,
            !quoted ==> !escaped,
            array_end(v@, 0, 0, false, false) == array_end(v@, i as int, depth as nat, quoted, escaped),
        decreases v@.len() - i,
    {
        let c = v[i];
        if quoted {
            if escaped {
                escaped = false;
            } else if c == '\\' {
                escaped = true;
            } else if c == '"' {
                quoted = false;
            }
        } else if c == '"' {
            quoted = true;
        } else if c == '[' {
            depth += 1;
        } else if c == ']' {
            if depth <= 1 {
                return Some(i);
            }
            depth -= 1;
        }
        i += 1;
    }
    None
}

pub fn json_array_field(input: &str, field: &str) -> (r: Option<String>)
    ensures
        match r {
            Some(v) => array_field(input@, field@) == Some(v@),
            None => array_field(input@, field@).is_none(),
        },
{
    let t = chars_of(input);
    let v = match field_value_exec(t.as_slice(), field) {
        Some(v) => v,
        None => {
            return None;
        },
    };
    if v.len() == 0 || v[0] != '[' {
        return None;
    }
    match array_end_exec(v.as_slice()) {
        Some(e) => {
            let a = crate::text::slice_of(v.as_slice(), 0, e + 1);
            assert(a@ =~= v@.take(e + 1));
            Some(string_of(a.as_slice()))
        },
        None => None,
    }
}

/// The first position at or after `i` that is neither whitespace nor a comma.
pub open spec fn skip_sep(a: Seq<char>, i: int) -> int
    decreases a.len() - i,
{
    if 0 <= i < a.len() && (crate::text::is_ascii_ws(a[i]) || a[i] == ',') {
        skip_sep(a, i + 1)
    } else {
        i
    }
}

/// The position after the closing quote of the string whose text starts at `i`.
pub open spec fn quote_end(a: Seq<char>, i: int, escaped: bool) -> int
    decreases a.len() - i,
{
    if i < 0 || i >= a.len() {
        i
    } else if escaped {
        quote_end(a, i + 1, false)
    } else if a[i] == '\\' {
        quote_end(a, i + 1, true)
    } else if a[i] == '"' {
        i + 1
    } else {
        quote_end(a, i + 1, false)
    }
}

pub proof fn lemma_skip_sep_ge(a: Seq<char>, i: int)
    ensures
        skip_sep(a, i) >= i,
    decreases a.len() - i,
{
    if 0 <= i < a.len() && (crate::text::is_ascii_ws(a[i]) || a[i] == ',') {
        lemma_skip_sep_ge(a, i + 1);
    }
}

pub proof fn lemma_quote_end_ge(a: Seq<char>, i: int, escaped: bool)
    ensures
        quote_end(a, i, escaped) >= i,
        0 <= i <= a.len() ==> quote_end(a, i, escaped) <= a.len(),
    decreases a.len() - i,
{
    if 0 <= i < a.len() {
        if escaped {
            lemma_quote_end_ge(a, i + 1, false);
        } else if a[i] == '\\' {
            lemma_quote_end_ge(a, i + 1, true);
        } else if a[i] != '"' {
            lemma_quote_end_ge(a, i + 1, false);
        }
    }
}

/// The string literals of an array's text, from position `index`.
pub open spec fn strings_in(a: Seq<char>, index: int, acc: Seq<Seq<char>>) -> Option<Seq<Seq<char>>>
    decreases a.len() - index,
{
    if index + 1 >= a.len() {
        Some(acc)
    } else {
        let j = skip_sep(a, index);
        if j + 1 >= a.len() || a[j] == ']' {
            Some(acc)
        } else if a[j] != '"' {
            None
        } else {
            match read_quoted(a, j + 1, seq![], false) {
                Some(value) => {
                    proof {
                        lemma_skip_sep_ge(a, index);
                        lemma_quote_end_ge(a, j + 1, false);
                    }
                    strings_in(a, quote_end(a, j + 1, false), acc.push(value))
                },
                None => None,
            }
        }
    }
}

/// The strings of the array value of the first `"field"`.
pub open spec fn string_array_field(input: Seq<char>, field: Seq<char>) -> Option<Seq<Seq<char>>> {
    match array_field(input, field) {
        Some(a) => strings_in(a, 1, seq![]),
        None => None,
    }
}

fn quote_end_exec(a: &[char], i: usize) -> (r: usize)
    requires
        i <= a@.len(),
    ensures
        r as int == quote_end(a@, i as int, false),
        i <= r <= a@.len(),
{
    let mut k = i;
    let mut escaped = false;
    while k < a.len()
        invariant
            i <= k <= a@.len(),
            quote_end(a@, i as int, false) == quote_end(a@, k as int, escaped),
        decreases a@.len() - k,
    {
        if escaped {
            escaped = false;
        } else if a[k] == '\\' {
            escaped = true;
        } else if a[k] == '"' {
            return k + 1;
        }
        k += 1;
    }
    k
}

pub fn json_string_array_field(input: &str, field: &str) -> (r: Option<Vec<String>>)
    ensures
        match r {
            Some(vs) => string_array_field(input@, field@) == Some(vs@.map_values(|v: String| v@)),
            None => string_array_field(input@, field@).is_none(),
        },
{
    let array = match json_array_field(input, field) {
        Some(a) => a,
        None => {
            return None;
        },
    };
    let a = chars_of(array.as_str());
    let mut values: Vec<String> = Vec::new();
    assert(values@.map_values(|v: String| v@) =~= seq![]);
    let mut index: usize = 1;
    while index < a.len() && index + 1 < a.len()
        invariant
            1 <= index,
            a@ == array@,
            string_array_field(input@, field@) == strings_in(
                a@,
                index as int,
                values@.map_values(|v: String| v@),
            ),
        decreases a@.len() - index,
    {
        let mut j = index;
        while j < a.len() && (crate::text::is_ascii_whitespace(a[j]) || a[j] == ',')
            invariant
                index <= j <= a@.len(),
                skip_sep(a@, index as int) == skip_sep(a@, j as int),
            decreases a@.len() - j,
        {
            j += 1;
        }
        if j >= a.len() - 1 || a[j] == ']' {
            return Some(values);
        }
        if a[j] != '"' {
            return None;
        }
        let value = match read_quoted_exec(a.as_slice(), j + 1) {
            Some(v) => v,
            None => {
                return None;
            },
        };
        let next = quote_end_exec(a.as_slice(), j + 1);
        let ghost before = values@;
        values.push(string_of(value.as_slice()));
        assert(values@.map_values(|v: String| v@) =~= before.map_values(|v: String| v@).push(value@));
        index = next;
    }
    Some(values)
}

// ---------------------------------------------------------------------------
// Entries
// ---------------------------------------------------------------------------

/// The text of a cache entry.
pub open spec fn encode_spec(
    source: Seq<char>,
    command: Seq<char>,
    argv: Seq<Seq<char>>,
    timestamp: u64,
    raw: Seq<u8>,
    rows_json: Seq<char>,
) -> Seq<char> {
    "{\n  \"version\": 1,\n  \"source\": "@ + json_string_spec(source) + ",\n  \"command\": "@
        + json_string_spec(command) + ",\n  \"argv\": "@ + json_string_array_spec(argv)
        + ",\n  \"timestamp\": "@ + dec(timestamp as nat) + ",\n  \"rows\": "@ + rows_json
        + ",\n  \"raw_hex\": \""@ + hex_of(raw) + "\"\n}\n"@
}

pub open spec fn entry_text(e: CacheEntry) -> Seq<char> {
    encode_spec(
        e.source@,
        e.command@,
        e.argv@.map_values(|a: String| a@),
        e.timestamp,
        e.raw@,
        e.rows_json@,
    )
}

pub fn encode_entry(entry: &CacheEntry) -> (r: String)
    ensures
        r@ == entry_text(*entry),
{
    let mut out = chars_of("{\n  \"version\": 1,\n  \"source\": ");
    let a = json_string(entry.source.as_str());
    extend_str(&mut out, a.as_str());
    extend_str(&mut out, ",\n  \"command\": ");
    let b = json_string(entry.command.as_str());
    extend_str(&mut out, b.as_str());
    extend_str(&mut out, ",\n  \"argv\": ");
    let c = json_string_array(entry.argv.as_slice());
    extend_str(&mut out, c.as_str());
    extend_str(&mut out, ",\n  \"timestamp\": ");
    extend(&mut out, decimal(entry.timestamp).as_slice());
    extend_str(&mut out, ",\n  \"rows\": ");
    extend_str(&mut out, entry.rows_json.as_str());
    extend_str(&mut out, ",\n  \"raw_hex\": \"");
    let h = hex_encode(entry.raw.as_slice());
    extend_str(&mut out, h.as_str());
    extend_str(&mut out, "\"\n}\n");
    assert(out@ =~= entry_text(*entry));
    string_of(out.as_slice())
}

/// The entry read from its text: source, command and raw bytes are needed;
/// the arguments default to none, the time to 0, the rows to `[]`.
pub open spec fn entry_of(contents: Seq<char>) -> Option<
    (Seq<char>, Seq<char>, Seq<Seq<char>>, u64, Seq<u8>, Seq<char>),
> {
    match (string_field(contents, "source"@), string_field(contents, "command"@)) {
        (Some(source), Some(command)) => match string_field(contents, "raw_hex"@) {
            Some(h) => match hex_decode_spec(vstd::utf8::encode_utf8(h)) {
                Some(raw) => Some(
                    (
                        source,
                        command,
                        match string_array_field(contents, "argv"@) {
                            Some(a) => a,
                            None => seq![],
                        },
                        match number_field(contents, "timestamp"@) {
                            Some(t) => t,
                            None => 0,
                        },
                        raw,
                        match array_field(contents, "rows"@) {
                            Some(r) => r,
                            None => "[]"@,
                        },
                    ),
                ),
                None => None,
            },
            None => None,
        },
        _ => None,
    }
}

pub open spec fn entry_view(e: CacheEntry) -> (Seq<char>, Seq<char>, Seq<Seq<char>>, u64, Seq<u8>, Seq<char>) {
    (e.source@, e.command@, e.argv@.map_values(|a: String| a@), e.timestamp, e.raw@, e.rows_json@)
}

/// The entry that a cache file's text holds; `None` where a needed field is
/// missing or damaged.
pub fn parse_entry(contents: &str) -> (r: Option<CacheEntry>)
    ensures
        match r {
            Some(e) => entry_of(contents@) == Some(entry_view(e)),
            None => entry_of(contents@).is_none(),
        },
{
    let source = match json_string_field(contents, "source") {
        Some(s) => s,
        None => {
            return None;
        },
    };
    let command = match json_string_field(contents, "command") {
        Some(s) => s,
        None => {
            return None;
        },
    };
    let argv = match json_string_array_field(contents, "argv") {
        Some(a) => a,
        None => {
            let v: Vec<String> = Vec::new();
            assert(v@.map_values(|a: String| a@) =~= seq![]);
            v
        },
    };
    let raw = match json_string_field(contents, "raw_hex") {
        Some(h) => match hex_decode(h.as_str()) {
            Some(raw) => raw,
            None => {
                return None;
            },
        },
        None => {
            return None;
        },
    };
    let timestamp = match json_number_field(contents, "timestamp") {
        Some(t) => t,
        None => 0,
    };
    let rows_json = match json_array_field(contents, "rows") {
        Some(r) => r,
        None => "[]".to_owned(),
    };
    Some(CacheEntry { source, command, argv, timestamp, raw, rows_json })
}

/// The message for a snapshot name that is not allowed.
pub open spec fn name_error() -> Seq<char> {
    "snapshot names may contain only letters, digits, '.', '-' and '_'"@
}

pub open spec fn name_char(c: char) -> bool {
    crate::text::is_alnum(c) || c == '-' || c == '_' || c == '.'
}

/// Snapshot names are non-empty and made of ASCII letters, digits, `.`, `-`
/// and `_`.
pub fn validate_name(name: &str) -> (r: Result<(), String>)
    ensures
        r.is_ok() <==> (name@.len() > 0 && forall|j: int| 0 <= j < name@.len() ==> name_char(#[trigger] name@[j])),
        r matches Err(m) ==> m@ == name_error(),
{
    let v = chars_of(name);
    if v.len() == 0 {
        return Err("snapshot names may contain only letters, digits, '.', '-' and '_'".to_owned());
    }
    let mut i: usize = 0;
    while i < v.len()
        invariant
            i <= v@.len(),
            v@ == name@,
            forall|j: int| 0 <= j < i ==> name_char(#[trigger] v@[j]),
        decreases v@.len() - i,
    {
        let c = v[i];
        if !(crate::text::is_ascii_alphanumeric(c) || c == '-' || c == '_' || c == '.') {
            assert(!name_char(name@[i as int]));
            return Err("snapshot names may contain only letters, digits, '.', '-' and '_'".to_owned());
        }
        i += 1;
    }
    Ok(())
}

/// The key recorded as the latest result: sixteen hexadecimal digits once
/// trimmed.
pub open spec fn latest_key_spec(contents: Seq<char>) -> Option<Seq<char>> {
    let t = crate::text::trim(contents);
    if t.len() == 16 && crate::parser::jc::all_hex(t) {
        Some(t)
    } else {
        None
    }
}

pub fn latest_key(contents: &str) -> (r: Option<String>)
    ensures
        match r {
            Some(k) => latest_key_spec(contents@) == Some(k@),
            None => latest_key_spec(contents@).is_none(),
        },
{
    let v = chars_of(contents);
    let t = crate::text::trimmed(v.as_slice());
    if t.len() != 16 {
        return None;
    }
    let mut i: usize = 0;
    while i < 16
        invariant
            i <= 16,
            t@.len() == 16,
            t@ == crate::text::trim(contents@),
            forall|j: int| 0 <= j < i ==> crate::text::is_hex(#[trigger] t@[j]),
        decreases 16 - i,
    {
        if !crate::text::is_ascii_hexdigit(t[i]) {
            return None;
        }
        i += 1;
    }
    Some(string_of(t.as_slice()))
}

// ---------------------------------------------------------------------------
// Laws
// ---------------------------------------------------------------------------

proof fn lemma_hex_of_shape(b: Seq<u8>)
    ensures
        hex_of(b).len() == 2 * b.len(),
        forall|k: int|
            0 <= k < b.len() ==> #[trigger] hex_of(b)[2 * k] == hex_char(b[k] as int / 16) && hex_of(
                b,
            )[2 * k + 1] == hex_char(b[k] as int % 16),
    decreases b.len(),
{
    if b.len() > 0 {
        lemma_hex_of_shape(b.drop_last());
        assert forall|k: int| 0 <= k < b.len() implies #[trigger] hex_of(b)[2 * k] == hex_char(
            b[k] as int / 16,
        ) && hex_of(b)[2 * k + 1] == hex_char(b[k] as int % 16) by {
            if k < b.len() - 1 {
                assert(hex_of(b)[2 * k] == hex_of(b.drop_last())[2 * k]);
                assert(hex_of(b)[2 * k + 1] == hex_of(b.drop_last())[2 * k + 1]);
                assert(b.drop_last()[k] == b[k]);
            }
        }
    }
}

proof fn lemma_hex_char_byte(d: int)
    requires
        0 <= d < 16,
    ensures
        '\0' <= hex_char(d) <= '\u{7f}',
        is_hex_byte(hex_char(d) as u8),
        hex_byte_value(hex_char(d) as u8) == d,
{
}

/// Hexadecimal text read back gives the bytes it was made from.
pub proof fn lemma_hex_round_trip(b: Seq<u8>)
    ensures
        hex_decode_spec(vstd::utf8::encode_utf8(hex_of(b))) == Some(b),
{
    let h = hex_of(b);
    lemma_hex_of_shape(b);
    assert forall|i: int| 0 <= i < h.len() implies '\0' <= #[trigger] h[i] <= '\u{7f}' by {
        let k = i / 2;
        assert(0 <= k < b.len());
        lemma_hex_char_byte(b[k] as int / 16);
        lemma_hex_char_byte(b[k] as int % 16);
        assert(hex_of(b)[2 * k] == hex_char(b[k] as int / 16));
        if i % 2 == 0 {
            assert(i == 2 * k);
        } else {
            assert(i == 2 * k + 1);
        }
    }
    assert(vstd::utf8::is_ascii_chars(h));
    vstd::utf8::is_ascii_chars_encode_utf8(h);
    let e = vstd::utf8::encode_utf8(h);
    assert forall|k: int| 0 <= k < b.len() implies #[trigger] chunk_value(e[2 * k], e[2 * k + 1]) == Some(
        b[k],
    ) by {
        lemma_hex_char_byte(b[k] as int / 16);
        lemma_hex_char_byte(b[k] as int % 16);
        assert(e[2 * k] == h[2 * k] as u8);
        assert(e[2 * k + 1] == h[2 * k + 1] as u8);
        assert((b[k] as int / 16) * 16 + b[k] as int % 16 == b[k] as int);
    }
    lemma_hex_bytes_all(e, b, 0);
    assert(b.take(0) =~= seq![]);
}

proof fn lemma_hex_bytes_all(e: Seq<u8>, b: Seq<u8>, k: int)
    requires
        e.len() == 2 * b.len(),
        0 <= k <= b.len(),
        forall|j: int| 0 <= j < b.len() ==> #[trigger] chunk_value(e[2 * j], e[2 * j + 1]) == Some(b[j]),
    ensures
        hex_bytes(e, k, b.take(k)) == Some(b),
    decreases b.len() - k,
{
    if k < b.len() {
        assert(chunk_value(e[2 * k], e[2 * k + 1]) == Some(b[k]));
        assert(b.take(k).push(b[k]) =~= b.take(k + 1));
        lemma_hex_bytes_all(e, b, k + 1);
    } else {
        assert(b.take(k) =~= b);
    }
}

// ---------------------------------------------------------------------------
// Entries for parsed output
// ---------------------------------------------------------------------------

/// The options a cached result is parsed again with.
pub open spec fn replay_options(source: Seq<char>) -> crate::RunOptionsV {
    crate::RunOptionsV { source, width: None, force: true, color: crate::ColorChoice::Never }
}

/// The view a cached entry's raw bytes parse to, if any.
pub fn parsed_view(
    entry: &CacheEntry,
    config: &crate::config::Config,
    env: &crate::terminal::Environment,
    jc_available: bool,
    jc_json: Option<&str>,
) -> (r: Option<Content>)
    ensures
        match crate::prepare_spec(
            entry.raw@,
            replay_options(entry.source@),
            config@,
            true,
            false,
            env@,
            jc_available,
            crate::jc_view(jc_json),
        ).content {
            crate::PreparedContentV::Parsed(v, _) => r matches Some(c) && c@ == v,
            crate::PreparedContentV::Original(_) => r is None,
        },
{
    let options = crate::RunOptions {
        source: crate::model::copy_string(&entry.source),
        width: None,
        force: true,
        color: crate::ColorChoice::Never,
    };
    let prepared = crate::prepare_output(entry.raw.as_slice(), &options, config, true, false, env, jc_available, jc_json);
    match prepared.parsed_view() {
        Some(v) => Some(v.copied()),
        None => None,
    }
}

/// The words joined by single spaces.
pub open spec fn spaced(ws: Seq<Seq<char>>) -> Seq<char> {
    crate::text::join(ws, seq![' '])
}

/// The cache entry for a run whose output was parsed, with its key: the
/// source, the command line, the time, the raw bytes and the rows as
/// trimmed JSON; `None` where the output is not parsed.
pub fn entry_for(
    input: &[u8],
    options: &crate::RunOptions,
    config: &crate::config::Config,
    command: &Vec<String>,
    timestamp: u64,
    env: &crate::terminal::Environment,
    jc_available: bool,
    jc_json: Option<&str>,
) -> (r: Option<(String, CacheEntry)>)
    ensures
        match crate::prepare_spec(
            input@,
            options@,
            config@,
            true,
            false,
            env@,
            jc_available,
            crate::jc_view(jc_json),
        ).content {
            crate::PreparedContentV::Parsed(v, _) => r matches Some((key, e)) && key@ == hex16(
                fnv(key_bytes(vstd::utf8::encode_utf8(options.source@), args_bytes(command@))),
            ) && e.source@ == options.source@ && e.command@ == spaced(command@.map_values(|a: String| a@))
                && e.argv@.map_values(|a: String| a@) == command@.map_values(|a: String| a@) && e.timestamp
                == timestamp && e.raw@ == input@ && e.rows_json@ == crate::text::trim(
                crate::structured::serialize_spec(v, crate::structured::StructuredFormat::Json),
            ),
            crate::PreparedContentV::Original(_) => r is None,
        },
{
    let prepared = crate::prepare_output(input, options, config, true, false, env, jc_available, jc_json);
    let view = match prepared.parsed_view() {
        Some(v) => v,
        None => {
            return None;
        },
    };
    let mut words: Vec<Vec<char>> = Vec::new();
    let ghost cv = command@.map_values(|a: String| a@);
    let mut argv: Vec<String> = Vec::new();
    let mut i: usize = 0;
    while i < command.len()
        invariant
            i <= command.len(),
            cv == command@.map_values(|a: String| a@),
            words.deep_view() == cv.take(i as int),
            argv@.map_values(|a: String| a@) == cv.take(i as int),
        decreases command.len() - i,
    {
        crate::text::push_text(&mut words, chars_of(command[i].as_str()));
        argv.push(crate::model::copy_string(&command[i]));
        assert(words.deep_view() =~= cv.take(i + 1));
        assert(argv@.map_values(|a: String| a@) =~= cv.take(i + 1));
        i += 1;
    }
    assert(cv.take(command.len() as int) =~= cv);
    let sep = vec![' '];
    assert(sep@ =~= seq![' ']);
    let text = crate::text::join_with(&words, sep.as_slice());
    let rows = crate::structured::serialize(view, crate::structured::StructuredFormat::Json);
    let rows_chars = chars_of(rows.as_str());
    let rows_json = string_of(crate::text::trimmed(rows_chars.as_slice()).as_slice());
    let key = cache_key(options.source.as_str(), command.as_slice());
    Some(
        (
            key,
            CacheEntry {
                source: crate::model::copy_string(&options.source),
                command: string_of(text.as_slice()),
                argv,
                timestamp,
                raw: copy_byte_vec(input),
                rows_json,
            },
        ),
    )
}

fn copy_byte_vec(b: &[u8]) -> (r: Vec<u8>)
    ensures
        r@ == b@,
{
    let mut out: Vec<u8> = Vec::new();
    let mut i: usize = 0;
    while i < b.len()
        invariant
            i <= b.len(),
            out@ =~= b@.take(i as int),
        decreases b.len() - i,
    {
        out.push(b[i]);
        i += 1;
    }
    assert(b@.take(b@.len() as int) =~= b@);
    out
}

// ---------------------------------------------------------------------------
// Reading an entry back
// ---------------------------------------------------------------------------

/// Text that writing keeps: no control character but newline, carriage
/// return and tab (the others are written as spaces).
pub open spec fn writable(v: Seq<char>) -> bool {
    forall|i: int|
        0 <= i < v.len() ==> (#[trigger] v[i] as u32) >= 0x20 || v[i] == '\n' || v[i] == '\r' || v[i] == '\t'
}

proof fn lemma_escaped_front(c: char, s: Seq<char>)
    ensures
        escaped_chars(seq![c] + s) == escape_char(c) + escaped_chars(s),
    decreases s.len(),
{
    assert(escaped_chars(Seq::<char>::empty()) =~= Seq::<char>::empty());
    if s.len() == 0 {
        assert(seq![c] + s =~= seq![c]);
        assert(seq![c].drop_last() =~= Seq::<char>::empty());
        assert(escaped_chars(seq![c]) == escaped_chars(seq![c].drop_last()) + escape_char(c));
        assert(escape_char(c) + escaped_chars(s) =~= escape_char(c));
    } else {
        lemma_escaped_front(c, s.drop_last());
        assert((seq![c] + s).drop_last() =~= seq![c] + s.drop_last());
        assert((seq![c] + s).last() == s.last());
        assert(escape_char(c) + escaped_chars(s) =~= escape_char(c) + escaped_chars(s.drop_last()) + escape_char(
            s.last(),
        ));
    }
}

/// A written string literal reads back as the text it was written from.
proof fn lemma_read_escaped(p: Seq<char>, s: Seq<char>, q: Seq<char>, acc: Seq<char>)
    requires
        writable(s),
    ensures
        read_quoted(p + escaped_chars(s) + seq!['"'] + q, p.len() as int, acc, false) == Some(acc + s),
    decreases s.len(),
{
    let t = p + escaped_chars(s) + seq!['"'] + q;
    if s.len() == 0 {
        assert(escaped_chars(s) =~= Seq::<char>::empty());
        assert(t[p.len() as int] == '"');
        assert(acc + s =~= acc);
    } else {
        let c = s[0];
        let rest = s.drop_first();
        assert(s =~= seq![c] + rest);
        lemma_escaped_front(c, rest);
        let e = escape_char(c);
        assert(writable(rest)) by {
            assert forall|i: int| 0 <= i < rest.len() implies (#[trigger] rest[i] as u32) >= 0x20 || rest[i] == '\n'
                || rest[i] == '\r' || rest[i] == '\t' by {
                assert(rest[i] == s[i + 1]);
            }
        }
        assert((c as u32) >= 0x20 || c == '\n' || c == '\r' || c == '\t');
        let p2 = p + e;
        assert(t =~= p2 + escaped_chars(rest) + seq!['"'] + q);
        lemma_read_escaped(p2, rest, q, acc.push(c));
        assert(acc.push(c) + rest =~= acc + s);
        if e.len() == 1 {
            assert(e == seq![c]);
            assert(t[p.len() as int] == c);
            assert(c != '\\' && c != '"');
            assert(read_quoted(t, p.len() as int, acc, false) == read_quoted(t, p.len() + 1int, acc.push(c), false));
        } else {
            assert(t[p.len() as int] == '\\');
            assert(t[p.len() + 1int] == e[1]);
            assert(unescape(e[1]) == c);
            assert(read_quoted(t, p.len() + 1int, acc, true) == read_quoted(t, p.len() + 2int, acc.push(c), false));
            assert(read_quoted(t, p.len() as int, acc, false) == read_quoted(t, p.len() + 1int, acc, true));
        }
    }
}

/// A character of a field name.
pub open spec fn key_char(c: char) -> bool {
    crate::text::is_lower(c) || c == '_'
}

pub open spec fn key_name(f: Seq<char>) -> bool {
    f.len() > 0 && forall|i: int| 0 <= i < f.len() ==> key_char(#[trigger] f[i])
}

/// A field name in quotes, as a key is written.
pub open spec fn quoted(f: Seq<char>) -> Seq<char> {
    seq!['"'] + f + seq!['"']
}

pub open spec fn in_quoted(c: char) -> bool {
    c == '"' || key_char(c)
}

proof fn lemma_quoted_chars(f: Seq<char>)
    requires
        key_name(f),
    ensures
        forall|i: int| 0 <= i < quoted(f).len() ==> in_quoted(#[trigger] quoted(f)[i]),
        forall|i: int| 0 < i < quoted(f).len() - 1 ==> #[trigger] quoted(f)[i] != '"',
        quoted(f).len() >= 3,
        quoted(f)[0] == '"',
        quoted(f)[quoted(f).len() - 1] == '"',
{
    assert forall|i: int| 0 < i < quoted(f).len() - 1 implies #[trigger] quoted(f)[i] == f[i - 1] by {}
}

/// A quoted field name found in two pieces put together is found in one of
/// them, unless both sides of the seam could belong to it.
proof fn lemma_concat_no_occ(a: Seq<char>, b: Seq<char>, f: Seq<char>)
    requires
        key_name(f),
        !contains_seq(a, quoted(f)),
        !contains_seq(b, quoted(f)),
        a.len() == 0 || b.len() == 0 || !in_quoted(a.last()) || !in_quoted(b[0]),
    ensures
        !contains_seq(a + b, quoted(f)),
{
    let m = quoted(f);
    lemma_quoted_chars(f);
    if contains_seq(a + b, m) {
        let i = choose|i: int| occurs_at(a + b, m, i);
        let t = a + b;
        assert(t.subrange(i, i + m.len()) == m);
        if i + m.len() <= a.len() {
            assert(a.subrange(i, i + m.len()) =~= t.subrange(i, i + m.len()));
            assert(occurs_at(a, m, i));
        } else if i >= a.len() {
            assert(b.subrange(i - a.len(), i - a.len() + m.len()) =~= t.subrange(i, i + m.len()));
            assert(occurs_at(b, m, i - a.len()));
        } else {
            assert(t[a.len() - 1] == m[a.len() - 1 - i]);
            assert(t[a.len() as int] == m[a.len() - i]);
            assert(in_quoted(m[a.len() - 1 - i]));
            assert(in_quoted(m[a.len() - i]));
        }
    }
}

/// Text without a quote holds no quoted name.
proof fn lemma_unquoted_no_occ(a: Seq<char>, f: Seq<char>)
    requires
        key_name(f),
        forall|i: int| 0 <= i < a.len() ==> #[trigger] a[i] != '"',
    ensures
        !contains_seq(a, quoted(f)),
{
    lemma_quoted_chars(f);
    if contains_seq(a, quoted(f)) {
        let i = choose|i: int| occurs_at(a, quoted(f), i);
        assert(a.subrange(i, i + quoted(f).len())[0] == a[i]);
    }
}

/// One quoted name does not hold another.
proof fn lemma_quoted_distinct(f: Seq<char>, g: Seq<char>)
    requires
        key_name(f),
        key_name(g),
        f != g,
    ensures
        !contains_seq(quoted(g), quoted(f)),
{
    lemma_quoted_chars(f);
    lemma_quoted_chars(g);
    let m = quoted(f);
    let h = quoted(g);
    if contains_seq(h, m) {
        let i = choose|i: int| occurs_at(h, m, i);
        assert(h.subrange(i, i + m.len()) == m);
        assert(h[i] == m[0]);
        assert(h[i + m.len() - 1] == m[m.len() - 1]);
        assert(i == 0);
        assert(m.len() == h.len());
        assert(f =~= m.subrange(1, m.len() - 1));
        assert(g =~= h.subrange(1, h.len() - 1));
        assert(h.subrange(0, m.len() as int) =~= h);
    }
}

/// A quoted name written right after a space, with no earlier occurrence,
/// is found first there.
proof fn lemma_first_at(before: Seq<char>, f: Seq<char>, rest: Seq<char>)
    requires
        key_name(f),
        !contains_seq(before, quoted(f)),
        before.len() == 0 || !in_quoted(before.last()),
    ensures
        crate::parser::generic::first_occurrence(before + quoted(f) + rest, quoted(f)) == Some(
            before.len() as int,
        ),
{
    let m = quoted(f);
    let t = before + m + rest;
    lemma_quoted_chars(f);
    assert(t.subrange(before.len() as int, (before.len() + m.len()) as int) =~= m);
    assert(occurs_at(t, m, before.len() as int));
    assert forall|j: int| 0 <= j < before.len() implies !occurs_at(t, m, j) by {
        if occurs_at(t, m, j) {
            if j + m.len() <= before.len() {
                assert(before.subrange(j, j + m.len()) =~= t.subrange(j, j + m.len()));
                assert(occurs_at(before, m, j));
            } else {
                let k = before.len() - j;
                assert(t[before.len() as int] == m[k]);
                assert(t[before.len() as int] == '"');
                assert(k == m.len() - 1);
                assert(t[before.len() - 1] == m[k - 1]);
                assert(t[before.len() - 1] == before.last());
                assert(in_quoted(m[k - 1]));
            }
        }
    }
    reveal(crate::parser::generic::first_occurrence);
    assert(contains_seq(t, m));
    let w = before.len() as int;
    assert(occurs_at(t, m, w) && forall|j: int| 0 <= j < w ==> !occurs_at(t, m, j));
    let i = choose|i: int| occurs_at(t, m, i) && forall|j: int| 0 <= j < i ==> !occurs_at(t, m, j);
    assert(occurs_at(t, m, i) && forall|j: int| 0 <= j < i ==> !occurs_at(t, m, j));
    assert(crate::parser::generic::first_occurrence(t, m) == Some(i));
    if i < before.len() {
        assert(!occurs_at(t, m, i));
    }
    if i > before.len() {
        assert(!occurs_at(t, m, before.len() as int));
    }
}

/// A key written as `"name": ` before a value that starts with no space
/// gives that value, and what follows it, as the field's text.
proof fn lemma_first_colon(tail: Seq<char>)
    requires
        tail.len() > 0,
        tail[0] == ':',
    ensures
        crate::parser::generic::first_occurrence(tail, seq![':']) == Some(0int),
{
    reveal(crate::parser::generic::first_occurrence);
    let colon = seq![':'];
    assert(tail.subrange(0, 1) =~= colon);
    assert(occurs_at(tail, colon, 0));
    assert(occurs_at(tail, colon, 0) && forall|j: int| 0 <= j < 0 ==> !occurs_at(tail, colon, j));
    let c = choose|i: int| occurs_at(tail, colon, i) && forall|j: int| 0 <= j < i ==> !occurs_at(tail, colon, j);
    assert(occurs_at(tail, colon, c) && forall|j: int| 0 <= j < c ==> !occurs_at(tail, colon, j));
    if c > 0 {
        assert(!occurs_at(tail, colon, 0));
    }
}

proof fn lemma_trim_one_space(value: Seq<char>)
    requires
        value.len() > 0,
        !crate::text::is_ws(value[0]),
    ensures
        trim_start(seq![' '] + value) == value,
{
    let after = seq![' '] + value;
    assert(after.drop_first() =~= value);
    assert(crate::text::is_ws(after[0]));
    assert(trim_start(after) == trim_start(after.drop_first()));
}

/// A key written as `"name": ` before a value that starts with no space
/// gives that value, and what follows it, as the field's text.
proof fn lemma_field_value_at(before: Seq<char>, f: Seq<char>, value: Seq<char>)
    requires
        key_name(f),
        !contains_seq(before, quoted(f)),
        before.len() == 0 || !in_quoted(before.last()),
        value.len() > 0,
        !crate::text::is_ws(value[0]),
    ensures
        field_value(before + quoted(f) + seq![':', ' '] + value, f) == Some(value),
{
    let rest = seq![':', ' '] + value;
    let t = before + quoted(f) + rest;
    lemma_first_at(before, f, rest);
    assert(seq!['"'] + f + seq!['"'] == quoted(f));
    assert(before + quoted(f) + seq![':', ' '] + value =~= t);
    let tail = t.skip((before.len() + quoted(f).len()) as int);
    assert(tail =~= rest);
    lemma_first_colon(tail);
    assert(tail.skip(1) =~= seq![' '] + value);
    lemma_trim_one_space(value);
}

/// Plain text is written as it is.
proof fn lemma_escaped_plain(s: Seq<char>)
    requires
        forall|i: int| 0 <= i < s.len() ==> (#[trigger] s[i] as u32) >= 0x20 && s[i] != '"' && s[i] != '\\',
    ensures
        escaped_chars(s) == s,
    decreases s.len(),
{
    if s.len() > 0 {
        lemma_escaped_plain(s.drop_last());
        assert(escape_char(s.last()) == seq![s.last()]);
        assert(s.drop_last().push(s.last()) =~= s);
        assert(s.drop_last() + seq![s.last()] =~= s);
    }
}

/// The end of a written string literal is found after its closing quote.
proof fn lemma_quote_end_escaped(p: Seq<char>, s: Seq<char>, q: Seq<char>)
    ensures
        quote_end(p + escaped_chars(s) + seq!['"'] + q, p.len() as int, false) == p.len() + escaped_chars(s).len() + 1,
    decreases s.len(),
{
    let t = p + escaped_chars(s) + seq!['"'] + q;
    if s.len() == 0 {
        assert(escaped_chars(s) =~= Seq::<char>::empty());
        assert(t[p.len() as int] == '"');
    } else {
        let c = s[0];
        let rest = s.drop_first();
        assert(s =~= seq![c] + rest);
        lemma_escaped_front(c, rest);
        let e = escape_char(c);
        let p2 = p + e;
        assert(t =~= p2 + escaped_chars(rest) + seq!['"'] + q);
        lemma_quote_end_escaped(p2, rest, q);
        if e.len() == 1 {
            assert(t[p.len() as int] == e[0]);
            assert(e[0] != '\\' && e[0] != '"');
        } else {
            assert(t[p.len() as int] == '\\');
            assert(quote_end(t, p.len() + 1int, true) == quote_end(t, p.len() + 2int, false));
        }
    }
}

/// A written string literal is passed over whole when an array's end is
/// looked for.
proof fn lemma_scan_escaped(v: Seq<char>, i: int, d: nat, s: Seq<char>)
    requires
        0 <= i,
        i + escaped_chars(s).len() <= v.len(),
        v.subrange(i, i + escaped_chars(s).len()) == escaped_chars(s),
    ensures
        array_end(v, i, d, true, false) == array_end(v, i + escaped_chars(s).len(), d, true, false),
    decreases s.len(),
{
    if s.len() > 0 {
        let c = s[0];
        let rest = s.drop_first();
        assert(s =~= seq![c] + rest);
        lemma_escaped_front(c, rest);
        let e = escape_char(c);
        let n = escaped_chars(s).len();
        assert(v.subrange(i + e.len(), i + e.len() + escaped_chars(rest).len()) =~= escaped_chars(rest)) by {
            let w = v.subrange(i, i + n);
            assert(w =~= e + escaped_chars(rest));
            assert(v.subrange(i + e.len(), i + n) =~= w.subrange(e.len() as int, n as int));
            assert(w.subrange(e.len() as int, n as int) =~= escaped_chars(rest));
        }
        lemma_scan_escaped(v, i + e.len(), d, rest);
        assert(v[i] == e[0]) by {
            assert(v.subrange(i, i + escaped_chars(s).len())[0] == v[i]);
        }
        if e.len() == 2 {
            assert(e[0] == '\\');
            assert(array_end(v, i + 1, d, true, true) == array_end(v, i + 2, d, true, false));
        } else {
            assert(e[0] != '\\' && e[0] != '"');
        }
    }
}

proof fn lemma_scan_json_string(v: Seq<char>, i: int, d: nat, s: Seq<char>)
    requires
        0 <= i,
        i + json_string_spec(s).len() <= v.len(),
        v.subrange(i, i + json_string_spec(s).len()) == json_string_spec(s),
    ensures
        array_end(v, i, d, false, false) == array_end(v, i + json_string_spec(s).len(), d, false, false),
{
    let j = json_string_spec(s);
    let n = escaped_chars(s).len();
    assert(v[i] == j[0]);
    assert(v.subrange(i + 1, i + 1 + n) =~= escaped_chars(s)) by {
        assert(v.subrange(i + 1, i + 1 + n) =~= j.subrange(1, 1 + n as int));
    }
    lemma_scan_escaped(v, i + 1, d, s);
    assert(v[i + 1 + n] == j[1 + n as int]);
}

pub open spec fn json_strings(l: Seq<Seq<char>>) -> Seq<Seq<char>> {
    l.map_values(|v: Seq<char>| json_string_spec(v))
}

proof fn lemma_join_front(x: Seq<char>, rest: Seq<Seq<char>>, sep: Seq<char>)
    requires
        rest.len() > 0,
    ensures
        join(seq![x] + rest, sep) == x + sep + join(rest, sep),
    decreases rest.len(),
{
    let all = seq![x] + rest;
    assert(all.last() == rest.last());
    assert(join(all, sep) == join(all.drop_last(), sep) + sep + all.last());
    if rest.len() == 1 {
        assert(all.drop_last() =~= seq![x]);
        assert(join(seq![x], sep) == x);
        assert(join(rest, sep) == rest[0]);
    } else {
        lemma_join_front(x, rest.drop_last(), sep);
        assert(all.drop_last() =~= seq![x] + rest.drop_last());
        assert(join(rest, sep) == join(rest.drop_last(), sep) + sep + rest.last());
        assert(x + sep + join(rest, sep) =~= x + sep + join(rest.drop_last(), sep) + sep + rest.last());
    }
}

/// The string literals of an argument list, with the separators between
/// them, are passed over when an array's end is looked for.
proof fn lemma_scan_join(v: Seq<char>, i: int, d: nat, l: Seq<Seq<char>>)
    requires
        0 <= i,
        i + join(json_strings(l), seq![',', ' ']).len() <= v.len(),
        v.subrange(i, i + join(json_strings(l), seq![',', ' ']).len()) == join(json_strings(l), seq![',', ' ']),
    ensures
        array_end(v, i, d, false, false) == array_end(v, i + join(json_strings(l), seq![',', ' ']).len(), d, false, false),
    decreases l.len(),
{
    let sep = seq![',', ' '];
    if l.len() == 0 {
        assert(json_strings(l).len() == 0);
        assert(join(json_strings(l), sep).len() == 0);
    } else if l.len() == 1 {
        assert(json_strings(l) =~= seq![json_string_spec(l[0])]);
        assert(join(json_strings(l), sep) == json_string_spec(l[0]));
        lemma_scan_json_string(v, i, d, l[0]);
    } else {
        let front = l.drop_last();
        assert(json_strings(l).drop_last() =~= json_strings(front));
        assert(json_strings(l).last() == json_string_spec(l.last()));
        let jf = join(json_strings(front), sep);
        let whole = join(json_strings(l), sep);
        assert(whole == jf + sep + json_string_spec(l.last()));
        assert(v.subrange(i, i + jf.len()) =~= jf) by {
            assert(v.subrange(i, i + jf.len()) =~= whole.subrange(0, jf.len() as int));
        }
        lemma_scan_join(v, i, d, front);
        let k = i + jf.len();
        assert(v[k] == ',') by {
            assert(whole[jf.len() as int] == ',');
        }
        assert(v[k + 1] == ' ') by {
            assert(whole[jf.len() + 1int] == ' ');
        }
        let js = json_string_spec(l.last());
        assert(whole.len() == jf.len() + 2 + js.len());
        assert(v.subrange(k + 2, k + 2 + js.len()) =~= js) by {
            assert(v.subrange(k + 2, k + 2 + js.len()) =~= whole.subrange(jf.len() + 2int, whole.len() as int));
        }
        lemma_scan_json_string(v, k + 2, d, l.last());
        assert(array_end(v, k, d, false, false) == array_end(v, k + 1, d, false, false));
        assert(array_end(v, k + 1, d, false, false) == array_end(v, k + 2, d, false, false));
    }
}

proof fn lemma_skip_sep_over(a: Seq<char>, i: int, k: int)
    requires
        0 <= i,
        0 <= k,
        i + k <= a.len(),
        forall|m: int| i <= m < i + k ==> #[trigger] a[m] == ',' || a[m] == ' ',
        i + k < a.len() ==> !(crate::text::is_ascii_ws(a[i + k]) || a[i + k] == ','),
    ensures
        skip_sep(a, i) == i + k,
    decreases k,
{
    if k > 0 {
        assert(a[i] == ',' || a[i] == ' ');
        lemma_skip_sep_over(a, i + 1, k - 1);
    }
}

proof fn lemma_json_string_len(s: Seq<char>)
    ensures
        json_string_spec(s).len() >= 2,
        json_string_spec(s)[0] == '"',
{
}

/// The string literals of a written argument list read back as the
/// arguments.
proof fn lemma_strings_in(p: Seq<char>, w: Seq<char>, l: Seq<Seq<char>>, acc: Seq<Seq<char>>)
    requires
        forall|i: int| 0 <= i < l.len() ==> writable(#[trigger] l[i]),
        forall|i: int| 0 <= i < w.len() ==> #[trigger] w[i] == ',' || w[i] == ' ',
    ensures
        strings_in(p + w + join(json_strings(l), seq![',', ' ']) + seq![']'], p.len() as int, acc) == Some(acc + l),
    decreases l.len(),
{
    let sep = seq![',', ' '];
    let body = join(json_strings(l), sep);
    let a = p + w + body + seq![']'];
    let index = p.len() as int;
    if l.len() == 0 {
        assert(json_strings(l).len() == 0);
        assert(body.len() == 0);
        assert(acc + l =~= acc);
        if index + 1 < a.len() {
            assert(a[index + w.len()] == ']');
            lemma_skip_sep_over(a, index, w.len() as int);
        }
    } else {
        let x = l[0];
        let rest = l.drop_first();
        assert(l =~= seq![x] + rest);
        assert(json_strings(l) =~= seq![json_string_spec(x)] + json_strings(rest));
        lemma_json_string_len(x);
        let jx = json_string_spec(x);
        let w2: Seq<char> = if rest.len() > 0 {
            sep
        } else {
            seq![]
        };
        if rest.len() > 0 {
            assert(json_strings(rest).len() > 0);
            lemma_join_front(jx, json_strings(rest), sep);
            assert(body == jx + sep + join(json_strings(rest), sep));
        } else {
            assert(json_strings(l) =~= seq![jx]);
            assert(body == jx);
            assert(json_strings(rest).len() == 0);
            assert(join(json_strings(rest), sep) =~= Seq::<char>::empty());
        }
        assert(body =~= jx + w2 + join(json_strings(rest), sep));
        let j = index + w.len();
        assert(a[j] == '"');
        lemma_skip_sep_over(a, index, w.len() as int);
        let pre = p + w + seq!['"'];
        let q = w2 + join(json_strings(rest), sep) + seq![']'];
        assert(a =~= pre + escaped_chars(x) + seq!['"'] + q);
        lemma_read_escaped(pre, x, q, seq![]);
        lemma_quote_end_escaped(pre, x, q);
        assert(Seq::<char>::empty() + x =~= x);
        let p2 = p + w + jx;
        assert(a =~= p2 + w2 + join(json_strings(rest), sep) + seq![']']);
        assert forall|i: int| 0 <= i < rest.len() implies writable(#[trigger] rest[i]) by {
            assert(rest[i] == l[i + 1]);
        }
        lemma_strings_in(p2, w2, rest, acc.push(x));
        assert(acc.push(x) + rest =~= acc + l);
        assert(quote_end(a, j + 1, false) == p2.len());
    }
}

/// Decimal digits read back as the number they were written from.
proof fn lemma_dec_digits(n: nat)
    ensures
        dec(n).len() > 0,
        all_digits(dec(n)),
        digits_value(dec(n)) == n,
    decreases n,
{
    if n < 10 {
        let c = crate::text::digit_char(n as int);
        assert(dec(n) == seq![c]);
        assert(c as int == n + 48);
        assert(seq![c].drop_last() =~= Seq::<char>::empty());
        assert(digits_value(seq![c]) == digits_value(Seq::<char>::empty()) * 10 + (c as int - 48));
    } else {
        lemma_dec_digits(n / 10);
        let c = crate::text::digit_char((n % 10) as int);
        let d = dec(n);
        assert(d == dec(n / 10).push(c));
        assert(c as int == n % 10 + 48);
        assert(d.drop_last() =~= dec(n / 10));
        assert((n / 10) * 10 + n % 10 == n) by (nonlinear_arith);
        assert forall|j: int| 0 <= j < d.len() implies is_digit(#[trigger] d[j]) by {
            if j < d.len() - 1 {
                assert(d[j] == dec(n / 10)[j]);
            }
        }
    }
}

proof fn lemma_digit_run_prefix(dd: Seq<char>, rest: Seq<char>)
    requires
        all_digits(dd),
        rest.len() > 0 ==> !is_digit(rest[0]),
    ensures
        digit_run(dd + rest) == dd.len(),
    decreases dd.len(),
{
    if dd.len() == 0 {
        assert(dd + rest =~= rest);
    } else {
        assert((dd + rest)[0] == dd[0]);
        assert((dd + rest).drop_first() =~= dd.drop_first() + rest);
        assert forall|j: int| 0 <= j < dd.drop_first().len() implies is_digit(#[trigger] dd.drop_first()[j]) by {
            assert(dd.drop_first()[j] == dd[j + 1]);
        }
        lemma_digit_run_prefix(dd.drop_first(), rest);
    }
}

/// Where an array closes within a text, it closes at the same place when
/// more text follows.
proof fn lemma_array_end_prefix(r: Seq<char>, z: Seq<char>, i: int, d: nat, q: bool, e: bool)
    requires
        0 <= i,
        array_end(r, i, d, q, e) is Some,
    ensures
        array_end(r + z, i, d, q, e) == array_end(r, i, d, q, e),
    decreases r.len() - i,
{
    let v = r + z;
    if i < r.len() {
        assert(v[i] == r[i]);
        if q {
            if e {
                lemma_array_end_prefix(r, z, i + 1, d, true, false);
            } else if r[i] == '\\' {
                lemma_array_end_prefix(r, z, i + 1, d, true, true);
            } else if r[i] == '"' {
                lemma_array_end_prefix(r, z, i + 1, d, false, false);
            } else {
                lemma_array_end_prefix(r, z, i + 1, d, true, false);
            }
        } else if r[i] == '"' {
            lemma_array_end_prefix(r, z, i + 1, d, true, false);
        } else if r[i] == '[' {
            lemma_array_end_prefix(r, z, i + 1, d + 1, false, false);
        } else if r[i] == ']' {
            if d > 1 {
                lemma_array_end_prefix(r, z, i + 1, (d - 1) as nat, false, false);
            }
        } else {
            lemma_array_end_prefix(r, z, i + 1, d, false, false);
        }
    }
}

/// `"name": value,` and the indent of the next line.
pub open spec fn entry_segment(g: Seq<char>, v: Seq<char>) -> Seq<char> {
    quoted(g) + seq![':', ' '] + v + seq![',', '\n', ' ', ' ']
}

/// The start of an entry's text, up to the first field.
pub open spec fn entry_head() -> Seq<char> {
    seq!['{', '\n', ' ', ' '] + quoted("version"@) + seq![':', ' ', '1', ',', '\n', ' ', ' ']
}

/// The last field of an entry's text and the closing brace.
pub open spec fn entry_tail(hex: Seq<char>) -> Seq<char> {
    quoted("raw_hex"@) + seq![':', ' '] + (seq!['"'] + hex + seq!['"'] + seq!['\n', '}', '\n'])
}

#[verifier::spinoff_prover]
#[verifier::rlimit(40)]
proof fn lemma_entry_layout(
    source: Seq<char>,
    command: Seq<char>,
    argv: Seq<Seq<char>>,
    timestamp: u64,
    raw: Seq<u8>,
    rows: Seq<char>,
)
    ensures
        encode_spec(source, command, argv, timestamp, raw, rows) == entry_head() + entry_segment(
            "source"@,
            json_string_spec(source),
        ) + entry_segment("command"@, json_string_spec(command)) + entry_segment(
            "argv"@,
            json_string_array_spec(argv),
        ) + entry_segment("timestamp"@, dec(timestamp as nat)) + entry_segment("rows"@, rows) + entry_tail(
            hex_of(raw),
        ),
{
    reveal_strlit("{\n  \"version\": 1,\n  \"source\": ");
    reveal_strlit(",\n  \"command\": ");
    reveal_strlit(",\n  \"argv\": ");
    reveal_strlit(",\n  \"timestamp\": ");
    reveal_strlit(",\n  \"rows\": ");
    reveal_strlit(",\n  \"raw_hex\": \"");
    reveal_strlit("\"\n}\n");
    reveal_strlit("version");
    reveal_strlit("source");
    reveal_strlit("command");
    reveal_strlit("argv");
    reveal_strlit("timestamp");
    reveal_strlit("rows");
    reveal_strlit("raw_hex");
    assert(encode_spec(source, command, argv, timestamp, raw, rows) =~= entry_head() + entry_segment(
        "source"@,
        json_string_spec(source),
    ) + entry_segment("command"@, json_string_spec(command)) + entry_segment(
        "argv"@,
        json_string_array_spec(argv),
    ) + entry_segment("timestamp"@, dec(timestamp as nat)) + entry_segment("rows"@, rows) + entry_tail(
        hex_of(raw),
    ));
}

/// A segment holds no other field's quoted name when its value holds none,
/// and ends in a space.
proof fn lemma_segment_clean(p: Seq<char>, g: Seq<char>, v: Seq<char>, f: Seq<char>)
    requires
        key_name(g),
        key_name(f),
        g != f,
        !contains_seq(p, quoted(f)),
        p.len() == 0 || !in_quoted(p.last()),
        !contains_seq(v, quoted(f)),
    ensures
        !contains_seq(p + entry_segment(g, v), quoted(f)),
        !in_quoted((p + entry_segment(g, v)).last()),
{
    let colon = seq![':', ' '];
    let comma = seq![',', '\n', ' ', ' '];
    lemma_quoted_distinct(f, g);
    lemma_unquoted_no_occ(colon, f);
    lemma_unquoted_no_occ(comma, f);
    lemma_quoted_chars(g);
    lemma_concat_no_occ(p, quoted(g), f);
    lemma_concat_no_occ(p + quoted(g), colon, f);
    lemma_concat_no_occ(p + quoted(g) + colon, v, f);
    lemma_concat_no_occ(p + quoted(g) + colon + v, comma, f);
    assert(p + entry_segment(g, v) =~= p + quoted(g) + colon + v + comma);
}

/// A field written in its segment, after text that does not hold its
/// quoted name, is read as the segment's value and what follows.
proof fn lemma_read_segment(p: Seq<char>, g: Seq<char>, v: Seq<char>, q: Seq<char>)
    requires
        key_name(g),
        !contains_seq(p, quoted(g)),
        p.len() == 0 || !in_quoted(p.last()),
        v.len() > 0,
        !crate::text::is_ws(v[0]),
    ensures
        field_value(p + entry_segment(g, v) + q, g) == Some(v + seq![',', '\n', ' ', ' '] + q),
{
    let rest = v + seq![',', '\n', ' ', ' '] + q;
    assert(p + entry_segment(g, v) + q =~= p + quoted(g) + seq![':', ' '] + rest);
    lemma_field_value_at(p, g, rest);
}

proof fn lemma_read_string_segment(p: Seq<char>, g: Seq<char>, s: Seq<char>, q: Seq<char>)
    requires
        key_name(g),
        !contains_seq(p, quoted(g)),
        p.len() == 0 || !in_quoted(p.last()),
        writable(s),
    ensures
        string_field(p + entry_segment(g, json_string_spec(s)), g) == Some(s),
        string_field(p + entry_segment(g, json_string_spec(s)) + q, g) == Some(s),
{
    let v = json_string_spec(s);
    let comma = seq![',', '\n', ' ', ' '];
    assert(p + entry_segment(g, v) =~= p + entry_segment(g, v) + Seq::<char>::empty());
    lemma_read_segment(p, g, v, Seq::<char>::empty());
    lemma_read_segment(p, g, v, q);
    let r1 = comma + Seq::<char>::empty();
    let r2 = comma + q;
    assert(v + comma + Seq::<char>::empty() =~= seq!['"'] + escaped_chars(s) + seq!['"'] + r1);
    assert(v + comma + q =~= seq!['"'] + escaped_chars(s) + seq!['"'] + r2);
    lemma_read_escaped(seq!['"'], s, r1, seq![]);
    lemma_read_escaped(seq!['"'], s, r2, seq![]);
    assert(Seq::<char>::empty() + s =~= s);
}

proof fn lemma_read_argv_segment(p: Seq<char>, g: Seq<char>, args: Seq<Seq<char>>, q: Seq<char>)
    requires
        key_name(g),
        !contains_seq(p, quoted(g)),
        p.len() == 0 || !in_quoted(p.last()),
        forall|i: int| 0 <= i < args.len() ==> writable(#[trigger] args[i]),
    ensures
        string_array_field(p + entry_segment(g, json_string_array_spec(args)) + q, g) == Some(args),
{
    let sep = seq![',', ' '];
    let a = json_string_array_spec(args);
    let body = join(json_strings(args), sep);
    assert(a =~= seq!['['] + body + seq![']']);
    let comma = seq![',', '\n', ' ', ' '];
    lemma_read_segment(p, g, a, q);
    let v = a + comma + q;
    let e: int = 1 + body.len() as int;
    assert(v[0] == '[');
    assert(v.subrange(1, e) =~= body);
    lemma_scan_join(v, 1, 1, args);
    assert(v[e] == ']');
    assert(array_end(v, 0, 0, false, false) == array_end(v, 1, 1, false, false));
    assert(array_end(v, e, 1, false, false) == Some(e));
    assert(v.take(e + 1) =~= a);
    assert(a =~= seq!['['] + Seq::<char>::empty() + body + seq![']']);
    lemma_strings_in(seq!['['], Seq::<char>::empty(), args, seq![]);
    assert(Seq::<Seq<char>>::empty() + args =~= args);
}

proof fn lemma_read_number_segment(p: Seq<char>, g: Seq<char>, n: u64, q: Seq<char>)
    requires
        key_name(g),
        !contains_seq(p, quoted(g)),
        p.len() == 0 || !in_quoted(p.last()),
    ensures
        number_field(p + entry_segment(g, dec(n as nat)) + q, g) == Some(n),
{
    let d = dec(n as nat);
    lemma_dec_digits(n as nat);
    assert(is_digit(d[0]));
    lemma_read_segment(p, g, d, q);
    let rest = seq![',', '\n', ' ', ' '] + q;
    let v = d + seq![',', '\n', ' ', ' '] + q;
    assert(v =~= d + rest);
    lemma_digit_run_prefix(d, rest);
    assert(v.take(digit_run(v)) =~= d);
}

proof fn lemma_read_rows_segment(p: Seq<char>, g: Seq<char>, rows: Seq<char>, q: Seq<char>)
    requires
        key_name(g),
        !contains_seq(p, quoted(g)),
        p.len() == 0 || !in_quoted(p.last()),
        rows.len() > 0,
        rows[0] == '[',
        array_end(rows, 0, 0, false, false) == Some(rows.len() - 1),
    ensures
        array_field(p + entry_segment(g, rows) + q, g) == Some(rows),
{
    lemma_read_segment(p, g, rows, q);
    let z = seq![',', '\n', ' ', ' '] + q;
    let v = rows + seq![',', '\n', ' ', ' '] + q;
    assert(v =~= rows + z);
    lemma_array_end_prefix(rows, z, 0, 0, false, false);
    assert(v.take(rows.len() as int) =~= rows);
}

proof fn lemma_hex_char_range(d: int)
    requires
        0 <= d < 16,
    ensures
        48 <= (hex_char(d) as u32) <= 102,
        hex_char(d) != '"',
        hex_char(d) != '\\',
{
    if d < 10 {
        assert(hex_char(d) as u32 == d + 48);
    } else {
        assert(hex_char(d) as u32 == d + 87);
    }
}

proof fn lemma_hex_plain(b: Seq<u8>)
    ensures
        forall|i: int|
            0 <= i < hex_of(b).len() ==> (#[trigger] hex_of(b)[i] as u32) >= 0x20 && hex_of(b)[i] != '"'
                && hex_of(b)[i] != '\\',
{
    lemma_hex_of_shape(b);
    assert forall|i: int| 0 <= i < hex_of(b).len() implies (#[trigger] hex_of(b)[i] as u32) >= 0x20 && hex_of(
        b,
    )[i] != '"' && hex_of(b)[i] != '\\' by {
        let k = i / 2;
        lemma_hex_char_range(b[k] as int / 16);
        lemma_hex_char_range(b[k] as int % 16);
        if i % 2 == 0 {
            assert(i == 2 * k);
            assert(hex_of(b)[2 * k] == hex_char(b[k] as int / 16));
        } else {
            assert(i == 2 * k + 1);
            assert(hex_of(b)[2 * k] == hex_char(b[k] as int / 16));
            assert(hex_of(b)[2 * k + 1] == hex_char(b[k] as int % 16));
        }
    }
}

proof fn lemma_read_raw_tail(p: Seq<char>, b: Seq<u8>)
    requires
        key_name("raw_hex"@),
        !contains_seq(p, quoted("raw_hex"@)),
        p.len() == 0 || !in_quoted(p.last()),
    ensures
        string_field(p + entry_tail(hex_of(b)), "raw_hex"@) == Some(hex_of(b)),
{
    let x = hex_of(b);
    let close = seq!['\n', '}', '\n'];
    let value = seq!['"'] + x + seq!['"'] + close;
    assert(p + entry_tail(x) =~= p + quoted("raw_hex"@) + seq![':', ' '] + value);
    lemma_field_value_at(p, "raw_hex"@, value);
    lemma_hex_plain(b);
    lemma_escaped_plain(x);
    assert(writable(x));
    assert(value =~= seq!['"'] + escaped_chars(x) + seq!['"'] + close);
    lemma_read_escaped(seq!['"'], x, close, seq![]);
    assert(Seq::<char>::empty() + x =~= x);
}

proof fn lemma_head_clean(f: Seq<char>)
    requires
        key_name(f),
        f != "version"@,
    ensures
        !contains_seq(entry_head(), quoted(f)),
        !in_quoted(entry_head().last()),
{
    reveal_strlit("version");
    let open = seq!['{', '\n', ' ', ' '];
    let v1 = seq![':', ' ', '1', ',', '\n', ' ', ' '];
    assert(key_name("version"@));
    lemma_quoted_distinct(f, "version"@);
    lemma_unquoted_no_occ(open, f);
    lemma_unquoted_no_occ(v1, f);
    lemma_concat_no_occ(open, quoted("version"@), f);
    lemma_concat_no_occ(open + quoted("version"@), v1, f);
}

/// Rows text that closes its array at its last character.
pub open spec fn rows_closed(rows: Seq<char>) -> bool {
    rows.len() > 0 && rows[0] == '[' && array_end(rows, 0, 0, false, false) == Some(rows.len() - 1)
}

/// No value, as written, spells the quoted name of a field written after
/// it (the fields are found by their first quoted name).
pub open spec fn names_unwritten(source: Seq<char>, command: Seq<char>, argv: Seq<Seq<char>>, rows: Seq<char>) -> bool {
    let s = json_string_spec(source);
    let c = json_string_spec(command);
    let a = json_string_array_spec(argv);
    &&& !contains_seq(s, quoted("command"@))
    &&& !contains_seq(s, quoted("argv"@))
    &&& !contains_seq(s, quoted("timestamp"@))
    &&& !contains_seq(s, quoted("rows"@))
    &&& !contains_seq(s, quoted("raw_hex"@))
    &&& !contains_seq(c, quoted("argv"@))
    &&& !contains_seq(c, quoted("timestamp"@))
    &&& !contains_seq(c, quoted("rows"@))
    &&& !contains_seq(c, quoted("raw_hex"@))
    &&& !contains_seq(a, quoted("timestamp"@))
    &&& !contains_seq(a, quoted("rows"@))
    &&& !contains_seq(a, quoted("raw_hex"@))
    &&& !contains_seq(rows, quoted("raw_hex"@))
}

proof fn lemma_field_names()
    ensures
        key_name("source"@),
        key_name("command"@),
        key_name("argv"@),
        key_name("timestamp"@),
        key_name("rows"@),
        key_name("raw_hex"@),
        "source"@ != "version"@,
        "command"@ != "version"@,
        "argv"@ != "version"@,
        "timestamp"@ != "version"@,
        "rows"@ != "version"@,
        "raw_hex"@ != "version"@,
        "source"@ != "command"@,
        "source"@ != "argv"@,
        "source"@ != "timestamp"@,
        "source"@ != "rows"@,
        "source"@ != "raw_hex"@,
        "command"@ != "argv"@,
        "command"@ != "timestamp"@,
        "command"@ != "rows"@,
        "command"@ != "raw_hex"@,
        "argv"@ != "timestamp"@,
        "argv"@ != "rows"@,
        "argv"@ != "raw_hex"@,
        "timestamp"@ != "rows"@,
        "timestamp"@ != "raw_hex"@,
        "rows"@ != "raw_hex"@,
{
    reveal_strlit("version");
    reveal_strlit("source");
    reveal_strlit("command");
    reveal_strlit("argv");
    reveal_strlit("timestamp");
    reveal_strlit("rows");
    reveal_strlit("raw_hex");
    assert("source"@.len() != "version"@.len());
    assert("command"@[0] != "version"@[0]);
    assert("argv"@.len() != "version"@.len());
    assert("timestamp"@.len() != "version"@.len());
    assert("rows"@.len() != "version"@.len());
    assert("raw_hex"@[0] != "version"@[0]);
    assert("source"@.len() != "command"@.len());
    assert("source"@.len() != "argv"@.len());
    assert("source"@.len() != "timestamp"@.len());
    assert("source"@.len() != "rows"@.len());
    assert("source"@.len() != "raw_hex"@.len());
    assert("command"@.len() != "argv"@.len());
    assert("command"@.len() != "timestamp"@.len());
    assert("command"@.len() != "rows"@.len());
    assert("command"@[0] != "raw_hex"@[0]);
    assert("argv"@.len() != "timestamp"@.len());
    assert("argv"@[0] != "rows"@[0]);
    assert("argv"@.len() != "raw_hex"@.len());
    assert("timestamp"@.len() != "rows"@.len());
    assert("timestamp"@.len() != "raw_hex"@.len());
    assert("rows"@.len() != "raw_hex"@.len());
}

/// What a read gives back of a write: the text of a cache entry reads back
/// as the same entry, wherever writing loses nothing (no control character
/// but newline, return and tab in the source, command and arguments; rows
/// that form one JSON array) and no value spells the quoted name of a
/// field written after it.
#[verifier::spinoff_prover]
#[verifier::rlimit(40)]
pub proof fn lemma_entry_round_trip(e: CacheEntry)
    requires
        writable(e.source@),
        writable(e.command@),
        forall|i: int| 0 <= i < e.argv@.len() ==> writable(#[trigger] e.argv@[i]@),
        rows_closed(e.rows_json@),
        names_unwritten(e.source@, e.command@, e.argv@.map_values(|a: String| a@), e.rows_json@),
    ensures
        entry_of(entry_text(e)) == Some(entry_view(e)),
{
    let so = e.source@;
    let co = e.command@;
    let av = e.argv@.map_values(|a: String| a@);
    let ts = e.timestamp;
    let raw = e.raw@;
    let ro = e.rows_json@;
    let fs = "source"@;
    let fc = "command"@;
    let fa = "argv"@;
    let ft = "timestamp"@;
    let fr = "rows"@;
    let fx = "raw_hex"@;
    lemma_field_names();
    assert forall|i: int| 0 <= i < av.len() implies writable(#[trigger] av[i]) by {
        assert(av[i] == e.argv@[i]@);
    }
    let sv = json_string_spec(so);
    let cv = json_string_spec(co);
    let a = json_string_array_spec(av);
    let d = dec(ts as nat);
    let x = hex_of(raw);
    lemma_entry_layout(so, co, av, ts, raw, ro);
    let b0 = entry_head();
    let b1 = b0 + entry_segment(fs, sv);
    let b2 = b1 + entry_segment(fc, cv);
    let b3 = b2 + entry_segment(fa, a);
    let b4 = b3 + entry_segment(ft, d);
    let b5 = b4 + entry_segment(fr, ro);
    let t = b5 + entry_tail(x);
    assert(entry_text(e) == t);
    lemma_dec_digits(ts as nat);
    assert forall|i: int| 0 <= i < d.len() implies #[trigger] d[i] != '"' by {
        assert(is_digit(d[i]));
    }
    // source
    lemma_head_clean(fs);
    lemma_read_string_segment(b0, fs, so, entry_segment(fc, cv) + entry_segment(fa, a) + entry_segment(ft, d)
        + entry_segment(fr, ro) + entry_tail(x));
    assert(t =~= b0 + entry_segment(fs, sv) + (entry_segment(fc, cv) + entry_segment(fa, a) + entry_segment(ft, d)
        + entry_segment(fr, ro) + entry_tail(x)));
    // command
    lemma_head_clean(fc);
    lemma_segment_clean(b0, fs, sv, fc);
    lemma_read_string_segment(b1, fc, co, entry_segment(fa, a) + entry_segment(ft, d) + entry_segment(fr, ro)
        + entry_tail(x));
    assert(t =~= b1 + entry_segment(fc, cv) + (entry_segment(fa, a) + entry_segment(ft, d) + entry_segment(fr, ro)
        + entry_tail(x)));
    // argv
    lemma_head_clean(fa);
    lemma_segment_clean(b0, fs, sv, fa);
    lemma_segment_clean(b1, fc, cv, fa);
    lemma_read_argv_segment(b2, fa, av, entry_segment(ft, d) + entry_segment(fr, ro) + entry_tail(x));
    assert(t =~= b2 + entry_segment(fa, a) + (entry_segment(ft, d) + entry_segment(fr, ro) + entry_tail(x)));
    // timestamp
    lemma_head_clean(ft);
    lemma_segment_clean(b0, fs, sv, ft);
    lemma_segment_clean(b1, fc, cv, ft);
    lemma_segment_clean(b2, fa, a, ft);
    lemma_read_number_segment(b3, ft, ts, entry_segment(fr, ro) + entry_tail(x));
    assert(t =~= b3 + entry_segment(ft, d) + (entry_segment(fr, ro) + entry_tail(x)));
    // rows
    lemma_head_clean(fr);
    lemma_segment_clean(b0, fs, sv, fr);
    lemma_segment_clean(b1, fc, cv, fr);
    lemma_segment_clean(b2, fa, a, fr);
    lemma_unquoted_no_occ(d, fr);
    lemma_segment_clean(b3, ft, d, fr);
    lemma_read_rows_segment(b4, fr, ro, entry_tail(x));
    // raw bytes
    lemma_head_clean(fx);
    lemma_segment_clean(b0, fs, sv, fx);
    lemma_segment_clean(b1, fc, cv, fx);
    lemma_segment_clean(b2, fa, a, fx);
    lemma_unquoted_no_occ(d, fx);
    lemma_segment_clean(b3, ft, d, fx);
    lemma_segment_clean(b4, fr, ro, fx);
    lemma_read_raw_tail(b5, raw);
    lemma_hex_round_trip(raw);
}

} // verus!

//! The decisions behind the full-screen modes: what a frame shows, how keys
//! move and filter, and how rows are sorted and marked.
use vstd::prelude::*;

use crate::model::{Cell, CellV, Content, ContentV, LogRecord, LogRecordV, Style, Table, TableV};
use crate::number::{number_below, number_of, numeric_text, numeric_text_exec, parse_number, Number, NumberV};
use crate::render::{char_width, cols_of, text_width};
use crate::text::{chars_of, contains_seq, is_alpha, string_of};

verus! {

// ---------------------------------------------------------------------------
// Widths of styled text
// ---------------------------------------------------------------------------

/// The columns a styled text takes from position `i`: escape sequences
/// (from ESC to the next ASCII letter) take none.
pub open spec fn visible_cols(s: Seq<char>, i: int, in_escape: bool) -> nat
    decreases s.len() - i,
{
    if i < 0 || i >= s.len() {
        0
    } else if in_escape {
        visible_cols(s, i + 1, !is_alpha(s[i]))
    } else if s[i] == '\u{1b}' {
        visible_cols(s, i + 1, true)
    } else {
        cols_of(s[i]) + visible_cols(s, i + 1, false)
    }
}

/// The visible width of a styled text, at most `usize::MAX`.
pub open spec fn visible_width_spec(s: Seq<char>) -> nat {
    let w = visible_cols(s, 0, false);
    if w > usize::MAX {
        usize::MAX as nat
    } else {
        w
    }
}

pub fn visible_width(value: &str) -> (r: usize)
    ensures
        r as nat == visible_width_spec(value@),
{
    let s = chars_of(value);
    let ghost total = visible_cols(s@, 0, false);
    let ghost mut exact: int = 0;
    let mut width: usize = 0;
    let mut in_escape = false;
    let mut i: usize = 0;
    while i < s.len()
        invariant
            i <= s.len(),
            s@ == value@,
            total == visible_cols(s@, 0, false),
            exact + visible_cols(s@, i as int, in_escape) == total,
            exact >= 0,
            width == (if exact > usize::MAX {
                usize::MAX as int
            } else {
                exact
            }),
        decreases s.len() - i,
    {
        let c = s[i];
        if in_escape {
            if crate::text::is_ascii_alphabetic(c) {
                in_escape = false;
            }
        } else if c == '\u{1b}' {
            in_escape = true;
        } else {
            let w = match char_width(c) {
                Some(w) => w,
                None => 0,
            };
            proof {
                exact = exact + w;
            }
            width = width.saturating_add(w);
        }
        i += 1;
    }
    width
}

/// The end of an escape sequence that starts before `i`: just past the next
/// ASCII letter, or the end.
pub open spec fn sequence_end(s: Seq<char>, i: int) -> int
    decreases s.len() - i,
{
    if i < 0 || i >= s.len() {
        s.len() as int
    } else if is_alpha(s[i]) {
        i + 1
    } else {
        sequence_end(s, i + 1)
    }
}

pub proof fn lemma_sequence_end(s: Seq<char>, i: int)
    requires
        0 <= i <= s.len(),
    ensures
        i <= sequence_end(s, i) <= s.len(),
        i < s.len() ==> i < sequence_end(s, i),
    decreases s.len() - i,
{
    if i < s.len() && !is_alpha(s[i]) {
        lemma_sequence_end(s, i + 1);
    }
}

/// The part of a styled text from `i` that fits in `target` columns once
/// `width` are taken; escape sequences (ESC `[` … letter) are all kept.
pub open spec fn ansi_cut(s: Seq<char>, i: int, width: nat, target: nat) -> Seq<char>
    decreases s.len() - i,
{
    if i < 0 || i >= s.len() {
        seq![]
    } else if s[i] == '\u{1b}' && i + 1 < s.len() && s[i + 1] == '[' {
        let j = sequence_end(s, i + 1);
        proof {
            lemma_sequence_end(s, i + 1);
        }
        if j <= i {
            seq![]
        } else {
            s.subrange(i, j) + ansi_cut(s, j, width, target)
        }
    } else if width + cols_of(s[i]) > target {
        seq![]
    } else {
        seq![s[i]] + ansi_cut(s, i + 1, width + cols_of(s[i]), target)
    }
}

/// A styled text cut to `max` visible columns: an ellipsis where it was cut
/// and a reset of the style after it.
pub open spec fn truncate_ansi_spec(v: Seq<char>, max: nat) -> Seq<char> {
    if visible_width_spec(v) <= max {
        v
    } else if max == 0 {
        seq![]
    } else {
        ansi_cut(v, 0, 0, (max - 1) as nat) + seq!['…'] + seq!['\u{1b}', '[', '0', 'm']
    }
}

pub fn truncate_ansi_aware(value: &str, max_width: usize) -> (r: String)
    ensures
        r@ == truncate_ansi_spec(value@, max_width as nat),
{
    if visible_width(value) <= max_width {
        return value.to_owned();
    }
    if max_width == 0 {
        return String::new();
    }
    let s = chars_of(value);
    let target = max_width - 1;
    let mut out: Vec<char> = Vec::new();
    let mut width: usize = 0;
    let mut i: usize = 0;
    let mut stop = false;
    let ghost whole = ansi_cut(s@, 0, 0, target as nat);
    while i < s.len() && !stop
        invariant
            i <= s.len(),
            s@ == value@,
            width <= target,
            whole == ansi_cut(s@, 0, 0, target as nat),
            out@ + ansi_cut(s@, i as int, width as nat, target as nat) == whole,
            stop ==> ansi_cut(s@, i as int, width as nat, target as nat) == Seq::<char>::empty(),
        decreases s.len() - i, (if stop { 0int } else { 1int }),
    {
        if s[i] == '\u{1b}' && i + 1 < s.len() && s[i + 1] == '[' {
            proof {
                lemma_sequence_end(s@, i + 1);
            }
            let ghost base = out@;
            out.push(s[i]);
            let mut j = i + 1;
            let mut done = false;
            while j < s.len() && !done
                invariant
                    i + 1 <= j <= s.len(),
                    i < s.len(),
                    out@ == base + s@.subrange(i as int, j as int),
                    done ==> j == sequence_end(s@, i + 1),
                    !done ==> sequence_end(s@, j as int) == sequence_end(s@, i + 1),
                decreases s.len() - j,
            {
                out.push(s[j]);
                if crate::text::is_ascii_alphabetic(s[j]) {
                    done = true;
                }
                j += 1;
                assert(out@ =~= base + s@.subrange(i as int, j as int));
            }
            assert(out@ + ansi_cut(s@, j as int, width as nat, target as nat) =~= base + ansi_cut(
                s@,
                i as int,
                width as nat,
                target as nat,
            ));
            i = j;
        } else {
            let w = match char_width(s[i]) {
                Some(w) => w,
                None => 0,
            };
            if w > target - width {
                stop = true;
            } else {
                let ghost base = out@;
                out.push(s[i]);
                assert(out@ + ansi_cut(s@, i + 1, (width + w) as nat, target as nat) =~= base + ansi_cut(
                    s@,
                    i as int,
                    width as nat,
                    target as nat,
                ));
                width += w;
                i += 1;
            }
        }
    }
    assert(out@ =~= whole);
    out.push('…');
    out.push('\u{1b}');
    out.push('[');
    out.push('0');
    out.push('m');
    assert(out@ =~= whole + seq!['…'] + seq!['\u{1b}', '[', '0', 'm']);
    string_of(out.as_slice())
}

/// The escape state after reading a styled text from `i` in state `e`.
pub open spec fn escape_after(s: Seq<char>, i: int, e: bool) -> bool
    decreases s.len() - i,
{
    if i < 0 || i >= s.len() {
        e
    } else if e {
        escape_after(s, i + 1, !is_alpha(s[i]))
    } else if s[i] == '\u{1b}' {
        escape_after(s, i + 1, true)
    } else {
        escape_after(s, i + 1, false)
    }
}

pub(crate) proof fn lemma_visible_shift(a: Seq<char>, b: Seq<char>, j: int, e: bool)
    requires
        0 <= j <= b.len(),
    ensures
        visible_cols(a + b, a.len() + j, e) == visible_cols(b, j, e),
    decreases b.len() - j,
{
    if j < b.len() {
        assert((a + b)[a.len() + j] == b[j]);
        lemma_visible_shift(a, b, j + 1, !is_alpha(b[j]));
        lemma_visible_shift(a, b, j + 1, true);
        lemma_visible_shift(a, b, j + 1, false);
    }
}

/// The visible width of two styled texts read one after the other.
pub(crate) proof fn lemma_visible_concat(a: Seq<char>, b: Seq<char>, i: int, e: bool)
    requires
        0 <= i <= a.len(),
    ensures
        visible_cols(a + b, i, e) == visible_cols(a, i, e) + visible_cols(b, 0, escape_after(a, i, e)),
    decreases a.len() - i,
{
    if i == a.len() {
        lemma_visible_shift(a, b, 0, e);
    } else {
        assert((a + b)[i] == a[i]);
        lemma_visible_concat(a, b, i + 1, !is_alpha(a[i]));
        lemma_visible_concat(a, b, i + 1, true);
        lemma_visible_concat(a, b, i + 1, false);
    }
}

/// Reading inside an escape sequence never shows more than reading outside.
proof fn lemma_escape_shows_less(s: Seq<char>, i: int)
    requires
        0 <= i,
    ensures
        visible_cols(s, i, true) <= visible_cols(s, i, false),
    decreases s.len() - i,
{
    if i < s.len() {
        lemma_escape_shows_less(s, i + 1);
    }
}

proof fn lemma_sequence_scan(s: Seq<char>, k: int, m: int)
    requires
        0 <= k <= m < sequence_end(s, k) - 1,
        sequence_end(s, k) <= s.len(),
    ensures
        !is_alpha(s[m]),
    decreases s.len() - k,
{
    if k < s.len() && !is_alpha(s[k]) && m > k {
        lemma_sequence_scan(s, k + 1, m);
    }
}

/// An escape sequence kept whole shows nothing.
proof fn lemma_sequence_invisible(s: Seq<char>, i: int, m: int)
    requires
        0 <= i < s.len(),
        i + 1 <= m <= sequence_end(s, i + 1),
        sequence_end(s, i + 1) <= s.len(),
    ensures
        visible_cols(s.subrange(i, sequence_end(s, i + 1)), m - i, true) == 0,
    decreases sequence_end(s, i + 1) - m,
{
    let j = sequence_end(s, i + 1);
    let seg = s.subrange(i, j);
    assert(seg.len() == j - i);
    if m < j {
        assert(seg[m - i] == s[m]);
        if m < j - 1 {
            lemma_sequence_scan(s, i + 1, m);
            lemma_sequence_invisible(s, i, m + 1);
            assert(visible_cols(seg, m - i, true) == visible_cols(seg, m - i + 1, true));
        } else {
            assert(visible_cols(seg, m - i + 1, !is_alpha(seg[m - i])) == 0);
        }
    }
}

/// What `ansi_cut` keeps shows at most the columns left.
proof fn lemma_cut_fits(s: Seq<char>, i: int, w: nat, t: nat)
    requires
        0 <= i <= s.len(),
        w <= t,
    ensures
        visible_cols(ansi_cut(s, i, w, t), 0, false) + w <= t,
        visible_cols(ansi_cut(s, i, w, t), 0, true) + w <= t,
    decreases s.len() - i,
{
    let p = ansi_cut(s, i, w, t);
    lemma_escape_shows_less(p, 0);
    if i < s.len() {
        if s[i] == '\u{1b}' && i + 1 < s.len() && s[i + 1] == '[' {
            let j = sequence_end(s, i + 1);
            lemma_sequence_end(s, i + 1);
            if j > i {
                let seg = s.subrange(i, j);
                let rest = ansi_cut(s, j, w, t);
                lemma_cut_fits(s, j, w, t);
                assert(p == seg + rest);
                lemma_visible_concat(seg, rest, 0, false);
                assert(seg[0] == '\u{1b}');
                lemma_sequence_invisible(s, i, i + 1);
                assert(visible_cols(seg, 0, false) == visible_cols(seg, 1, true));
            }
        } else if w + cols_of(s[i]) <= t {
            let rest = ansi_cut(s, i + 1, w + cols_of(s[i]), t);
            lemma_cut_fits(s, i + 1, w + cols_of(s[i]), t);
            assert(p =~= seq![s[i]] + rest);
            lemma_visible_concat(seq![s[i]], rest, 0, false);
            reveal_with_fuel(visible_cols, 3);
            reveal_with_fuel(escape_after, 3);
        }
    }
}

/// Cutting a styled line for the screen never widens it past `max`
/// columns, counting the ellipsis at its own width; escape sequences take
/// no column.
pub proof fn lemma_truncate_ansi_fits(v: Seq<char>, max: nat)
    ensures
        visible_width_spec(truncate_ansi_spec(v, max)) <= (if visible_width_spec(v) <= max || max == 0 {
            max as int
        } else {
            (max - 1) + cols_of('…')
        }),
{
    if visible_width_spec(v) > max && max > 0 {
        let p = ansi_cut(v, 0, 0, (max - 1) as nat);
        let tail = seq!['…'] + seq!['\u{1b}', '[', '0', 'm'];
        lemma_cut_fits(v, 0, 0, (max - 1) as nat);
        assert(truncate_ansi_spec(v, max) =~= p + tail);
        lemma_visible_concat(p, tail, 0, false);
        lemma_escape_shows_less(tail, 0);
        reveal_with_fuel(visible_cols, 6);
    }
}

// ---------------------------------------------------------------------------
// Natural order
// ---------------------------------------------------------------------------

/// The lowercase form of a text as `str::to_lowercase` gives it (the
/// Unicode lowercase mapping). The result is named; no more is stated.
pub uninterp spec fn lowercase_of(s: Seq<char>) -> Seq<char>;

/// `str::to_lowercase`, whose result the contract names.
#[verifier::external_body]
fn lowercase(s: &str) -> (r: String)
    ensures
        r@ == lowercase_of(s@),
{
    s.to_lowercase()
}

/// Character sequences in lexicographic order: -1, 0 or 1.
pub open spec fn text_order(x: Seq<char>, y: Seq<char>) -> int
    decreases x.len(),
{
    if x.len() == 0 && y.len() == 0 {
        0
    } else if x.len() == 0 {
        -1
    } else if y.len() == 0 {
        1
    } else if x[0] < y[0] {
        -1
    } else if x[0] > y[0] {
        1
    } else {
        text_order(x.drop_first(), y.drop_first())
    }
}

/// The number a cell text reads as, `NaN` aside (it is sorted as text).
pub open spec fn sort_number(t: Seq<char>) -> Option<NumberV> {
    match number_of(numeric_text(t)) {
        Some(n) => if n is NotANumber {
            None
        } else {
            Some(n)
        },
        None => None,
    }
}

/// What a cell is sorted by: its number, when it reads as one, and its
/// lowercase text.
pub open spec fn sort_key(t: Seq<char>) -> (Option<NumberV>, Seq<char>) {
    (sort_number(t), lowercase_of(t))
}

/// Two keys in natural order (-1, 0 or 1): numbers by value, before all
/// text; text by its lowercase form.
///
/// Numbers come before all text so that the order is total. Comparing by
/// text whenever either side is not a number would be cyclic ("1a" before
/// "9" by text, "9" before "10" by value, "10" before "1a" by text), and a
/// sort needs a total order: no order agrees with that rule on every pair.
pub open spec fn key_order(a: (Option<NumberV>, Seq<char>), b: (Option<NumberV>, Seq<char>)) -> int {
    match (a.0, b.0) {
        (Some(x), Some(y)) => if number_below(x, y) {
            -1
        } else if number_below(y, x) {
            1
        } else {
            0
        },
        (Some(_), None) => -1,
        (None, Some(_)) => 1,
        (None, None) => text_order(a.1, b.1),
    }
}

/// The natural order of two cell texts: numbers by value, before other text,
/// which goes by its lowercase form.
pub open spec fn natural_order(a: Seq<char>, b: Seq<char>) -> int {
    key_order(sort_key(a), sort_key(b))
}

proof fn lemma_text_order(x: Seq<char>, y: Seq<char>, z: Seq<char>)
    ensures
        text_order(x, y) == -text_order(y, x),
        -1 <= text_order(x, y) <= 1,
        text_order(x, z) < 0 ==> text_order(x, y) < 0 || text_order(y, z) < 0,
    decreases x.len(),
{
    if x.len() > 0 && y.len() > 0 && z.len() > 0 {
        lemma_text_order(x.drop_first(), y.drop_first(), z.drop_first());
    } else if x.len() > 0 && y.len() > 0 {
        lemma_text_order(x.drop_first(), y.drop_first(), y.drop_first());
    }
}

/// The natural order is a total preorder, as sorting needs: reversing the
/// arguments reverses the answer, and both "before" and "not after" carry
/// over from `a` to `b` to `c`.
pub proof fn lemma_natural_order_is_total(a: Seq<char>, b: Seq<char>, c: Seq<char>)
    ensures
        natural_order(a, b) == -natural_order(b, a),
        natural_order(a, b) < 0 && natural_order(b, c) < 0 ==> natural_order(a, c) < 0,
        natural_order(a, b) <= 0 && natural_order(b, c) <= 0 ==> natural_order(a, c) <= 0,
{
    let (ka, kb, kc) = (sort_key(a), sort_key(b), sort_key(c));
    lemma_text_order(ka.1, kb.1, kc.1);
    lemma_text_order(kc.1, kb.1, ka.1);
    lemma_text_order(ka.1, kc.1, kb.1);
    lemma_text_order(kb.1, ka.1, kc.1);
    lemma_text_order(kb.1, kc.1, ka.1);
    lemma_text_order(kc.1, ka.1, kb.1);
    if let (Some(x), Some(y), Some(z)) = (ka.0, kb.0, kc.0) {
        crate::number::lemma_number_below_order(x, y, z);
        crate::number::lemma_number_below_order(z, y, x);
        crate::number::lemma_number_below_order(x, z, y);
        crate::number::lemma_number_below_order(y, x, z);
        crate::number::lemma_number_below_order(y, z, x);
        crate::number::lemma_number_below_order(z, x, y);
    } else if let (Some(x), Some(y)) = (ka.0, kb.0) {
        crate::number::lemma_number_below_order(x, y, x);
        crate::number::lemma_number_below_order(y, x, y);
    } else if let (Some(x), Some(z)) = (ka.0, kc.0) {
        crate::number::lemma_number_below_order(x, z, x);
        crate::number::lemma_number_below_order(z, x, z);
    } else if let (Some(y), Some(z)) = (kb.0, kc.0) {
        crate::number::lemma_number_below_order(y, z, y);
        crate::number::lemma_number_below_order(z, y, z);
    }
}

/// A sort key ready for comparisons.
pub struct SortKey {
    pub number: Option<Number>,
    pub lower: Vec<char>,
}

impl View for SortKey {
    type V = (Option<NumberV>, Seq<char>);

    open spec fn view(&self) -> (Option<NumberV>, Seq<char>) {
        (crate::number::number_opt_view(self.number), self.lower@)
    }
}

pub fn sort_key_of(text: &str) -> (r: SortKey)
    ensures
        r@ == sort_key(text@),
{
    let t = chars_of(text);
    let numeric = numeric_text_exec(t.as_slice());
    let number = match parse_number(numeric.as_slice()) {
        Some(Number::NotANumber) => None,
        other => other,
    };
    let lower = chars_of(lowercase(text).as_str());
    SortKey { number, lower }
}

fn text_order_exec(x: &Vec<char>, y: &Vec<char>) -> (r: i8)
    ensures
        r as int == text_order(x@, y@),
{
    let mut i: usize = 0;
    assert(x@.skip(0) =~= x@);
    assert(y@.skip(0) =~= y@);
    while i < x.len() && i < y.len() && x[i] == y[i]
        invariant
            i <= x.len(),
            i <= y.len(),
            text_order(x@.skip(i as int), y@.skip(i as int)) == text_order(x@, y@),
        decreases x.len() - i,
    {
        assert(x@.skip(i as int).drop_first() =~= x@.skip(i + 1));
        assert(y@.skip(i as int).drop_first() =~= y@.skip(i + 1));
        i += 1;
    }
    if i >= x.len() && i >= y.len() {
        0
    } else if i >= x.len() {
        -1
    } else if i >= y.len() {
        1
    } else if x[i] < y[i] {
        -1
    } else {
        1
    }
}

/// Compares two sort keys: -1, 0 or 1.
pub fn compare_keys(a: &SortKey, b: &SortKey) -> (r: i8)
    ensures
        r as int == key_order(a@, b@),
{
    match (&a.number, &b.number) {
        (Some(x), Some(y)) => {
            if crate::number::below(x, y) {
                -1
            } else if crate::number::below(y, x) {
                1
            } else {
                0
            }
        },
        (Some(_), None) => -1,
        (None, Some(_)) => 1,
        (None, None) => text_order_exec(&a.lower, &b.lower),
    }
}

/// Compares two cell texts in natural order: -1, 0 or 1.
pub fn natural_compare(left: &str, right: &str) -> (r: i8)
    ensures
        r as int == natural_order(left@, right@),
{
    let a = sort_key_of(left);
    let b = sort_key_of(right);
    compare_keys(&a, &b)
}

// ---------------------------------------------------------------------------
// Sorting rows
// ---------------------------------------------------------------------------

/// The text a row is sorted by: its cell in column `k`, or nothing.
pub open spec fn cell_text_at(row: Seq<CellV>, k: int) -> Seq<char> {
    if 0 <= k < row.len() {
        row[k].text
    } else {
        seq![]
    }
}

/// Where a row goes among sorted rows: after the last one that does not
/// sort after it, scanning back from position `j`.
pub open spec fn insert_pos(sorted: Seq<Seq<CellV>>, row: Seq<CellV>, k: int, j: int) -> int
    decreases j,
{
    if j <= 0 {
        0
    } else if natural_order(cell_text_at(sorted[j - 1], k), cell_text_at(row, k)) > 0 {
        insert_pos(sorted, row, k, j - 1)
    } else {
        j
    }
}

/// The rows sorted stably by column `k` in natural order, one insertion at
/// a time (the first `n` rows).
pub open spec fn sorted_rows(rows: Seq<Seq<CellV>>, k: int, n: int) -> Seq<Seq<CellV>>
    decreases n,
{
    if n <= 0 {
        seq![]
    } else {
        let s = sorted_rows(rows, k, n - 1);
        s.insert(insert_pos(s, rows[n - 1], k, s.len() as int), rows[n - 1])
    }
}

proof fn lemma_insert_pos_range(sorted: Seq<Seq<CellV>>, row: Seq<CellV>, k: int, j: int)
    requires
        0 <= j <= sorted.len(),
    ensures
        0 <= insert_pos(sorted, row, k, j) <= j,
    decreases j,
{
    if j > 0 {
        lemma_insert_pos_range(sorted, row, k, j - 1);
    }
}

proof fn lemma_sorted_len(rows: Seq<Seq<CellV>>, k: int, n: int)
    requires
        0 <= n <= rows.len(),
    ensures
        sorted_rows(rows, k, n).len() == n,
    decreases n,
{
    if n > 0 {
        lemma_sorted_len(rows, k, n - 1);
        let s = sorted_rows(rows, k, n - 1);
        lemma_insert_pos_range(s, rows[n - 1], k, s.len() as int);
    }
}

proof fn lemma_sorted_multiset(rows: Seq<Seq<CellV>>, k: int, n: int)
    requires
        0 <= n <= rows.len(),
    ensures
        sorted_rows(rows, k, n).to_multiset() =~= rows.take(n).to_multiset(),
    decreases n,
{
    broadcast use vstd::seq_lib::group_to_multiset_ensures, vstd::multiset::group_multiset_axioms;

    if n == 0 {
        assert(rows.take(0) =~= Seq::<Seq<CellV>>::empty());
        assert(sorted_rows(rows, k, 0) =~= Seq::<Seq<CellV>>::empty());
    } else {
        lemma_sorted_multiset(rows, k, n - 1);
        let s = sorted_rows(rows, k, n - 1);
        let x = rows[n - 1];
        let p = insert_pos(s, x, k, s.len() as int);
        lemma_insert_pos_range(s, x, k, s.len() as int);
        let s2 = s.insert(p, x);
        s.insert_ensures(p, x);
        assert(s2.remove(p) =~= s);
        assert(s2[p] == x);
        assert(s2.to_multiset().count(x) > 0) by {
            assert(s2.contains(x));
        }
        assert(s2.to_multiset() =~= s.to_multiset().insert(x));
        assert(rows.take(n) =~= rows.take(n - 1).push(x));
    }
}

/// Sorting keeps the rows: the sorted rows are the same rows, each as many
/// times, in another order.
pub proof fn lemma_sort_keeps_rows(rows: Seq<Seq<CellV>>, k: int)
    ensures
        sorted_rows(rows, k, rows.len() as int).to_multiset() == rows.to_multiset(),
        sorted_rows(rows, k, rows.len() as int).len() == rows.len(),
{
    lemma_sorted_multiset(rows, k, rows.len() as int);
    lemma_sorted_len(rows, k, rows.len() as int);
    assert(rows.take(rows.len() as int) =~= rows);
}

fn key_at(row: &Vec<Cell>, k: usize) -> (r: SortKey)
    ensures
        r@ == sort_key(cell_text_at(crate::model::row_view(*row), k as int)),
{
    if k < row.len() {
        sort_key_of(row[k].text.as_str())
    } else {
        let e = String::new();
        sort_key_of(e.as_str())
    }
}

/// Sorts rows stably by column `k` in natural order.
pub fn sort_rows(rows: &Vec<Vec<Cell>>, k: usize) -> (r: Vec<Vec<Cell>>)
    ensures
        r@.map_values(|row: Vec<Cell>| crate::model::row_view(row)) == sorted_rows(
            rows@.map_values(|row: Vec<Cell>| crate::model::row_view(row)),
            k as int,
            rows.len() as int,
        ),
{
    let ghost rv = rows@.map_values(|row: Vec<Cell>| crate::model::row_view(row));
    let mut sorted: Vec<Vec<Cell>> = Vec::new();
    let mut keys: Vec<SortKey> = Vec::new();
    let mut n: usize = 0;
    assert(sorted@.map_values(|row: Vec<Cell>| crate::model::row_view(row)) =~= sorted_rows(rv, k as int, 0));
    while n < rows.len()
        invariant
            n <= rows.len(),
            rv == rows@.map_values(|row: Vec<Cell>| crate::model::row_view(row)),
            sorted@.map_values(|row: Vec<Cell>| crate::model::row_view(row)) == sorted_rows(rv, k as int, n as int),
            keys.len() == sorted.len(),
            forall|q: int|
                0 <= q < keys.len() ==> (#[trigger] keys@[q])@ == sort_key(
                    cell_text_at(crate::model::row_view(sorted@[q]), k as int),
                ),
        decreases rows.len() - n,
    {
        let row = crate::model::copy_row(&rows[n]);
        let key = key_at(&row, k);
        let ghost sv = sorted@.map_values(|r: Vec<Cell>| crate::model::row_view(r));
        let ghost rrv = crate::model::row_view(row);
        assert(rrv == rv[n as int]);
        let mut j = sorted.len();
        while j > 0 && compare_keys(&keys[j - 1], &key) > 0
            invariant
                j <= sorted.len(),
                keys.len() == sorted.len(),
                sv == sorted@.map_values(|r: Vec<Cell>| crate::model::row_view(r)),
                forall|q: int|
                    0 <= q < keys.len() ==> (#[trigger] keys@[q])@ == sort_key(
                        cell_text_at(crate::model::row_view(sorted@[q]), k as int),
                    ),
                key@ == sort_key(cell_text_at(rrv, k as int)),
                insert_pos(sv, rrv, k as int, j as int) == insert_pos(sv, rrv, k as int, sv.len() as int),
            decreases j,
        {
            assert(sv[j - 1] == crate::model::row_view(sorted@[j - 1]));
            j -= 1;
        }
        proof {
            lemma_insert_pos_range(sv, rrv, k as int, sv.len() as int);
            if j > 0 {
                assert(sv[j - 1] == crate::model::row_view(sorted@[j - 1]));
            }
        }
        let ghost old_keys = keys@;
        let ghost old_sorted = sorted@;
        sorted.insert(j, row);
        keys.insert(j, key);
        assert(sorted@.map_values(|r: Vec<Cell>| crate::model::row_view(r)) =~= sv.insert(j as int, rrv));
        assert forall|q: int| 0 <= q < keys.len() implies (#[trigger] keys@[q])@ == sort_key(
            cell_text_at(crate::model::row_view(sorted@[q]), k as int),
        ) by {
            if q < j {
                assert(keys@[q] == old_keys[q] && sorted@[q] == old_sorted[q]);
            } else if q > j {
                assert(keys@[q] == old_keys[q - 1] && sorted@[q] == old_sorted[q - 1]);
            }
        }
        n += 1;
    }
    assert(rv.len() == rows.len());
    sorted
}

// ---------------------------------------------------------------------------
// Exploring a view
// ---------------------------------------------------------------------------

/// Whether some cell of a row contains the needle, compared in lowercase.
pub open spec fn row_has(row: Seq<CellV>, needle: Seq<char>) -> bool {
    exists|k: int| 0 <= k < row.len() && contains_seq(lowercase_of(#[trigger] row[k].text), needle)
}

/// The first `n` rows that contain the needle.
pub open spec fn kept_rows(rows: Seq<Seq<CellV>>, needle: Seq<char>, n: int) -> Seq<Seq<CellV>>
    decreases n,
{
    if n <= 0 {
        seq![]
    } else if row_has(rows[n - 1], needle) {
        kept_rows(rows, needle, n - 1).push(rows[n - 1])
    } else {
        kept_rows(rows, needle, n - 1)
    }
}

/// Whether a record's message or level contains the needle (every record
/// does for an empty needle).
pub open spec fn record_has(r: LogRecordV, needle: Seq<char>) -> bool {
    ||| needle.len() == 0
    ||| contains_seq(lowercase_of(r.message), needle)
    ||| (r.level matches Some(l) && contains_seq(lowercase_of(l), needle))
}

pub open spec fn kept_records(rs: Seq<LogRecordV>, needle: Seq<char>, n: int) -> Seq<LogRecordV>
    decreases n,
{
    if n <= 0 {
        seq![]
    } else if record_has(rs[n - 1], needle) {
        kept_records(rs, needle, n - 1).push(rs[n - 1])
    } else {
        kept_records(rs, needle, n - 1)
    }
}

/// An interactive view of a parsed output: rows filtered by a text, sorted
/// by a column in natural order (descending on request), one selected.
#[derive(Debug)]
pub struct Explorer {
    pub original: Content,
    pub filter: String,
    pub sort_column: usize,
    pub descending: bool,
    pub selected: usize,
}

pub struct ExplorerV {
    pub original: ContentV,
    pub filter: Seq<char>,
    pub sort_column: usize,
    pub descending: bool,
    pub selected: usize,
}

impl View for Explorer {
    type V = ExplorerV;

    open spec fn view(&self) -> ExplorerV {
        ExplorerV {
            original: self.original@,
            filter: self.filter@,
            sort_column: self.sort_column,
            descending: self.descending,
            selected: self.selected,
        }
    }
}

/// The rows shown: those containing the filter (all for an empty filter),
/// sorted by the sort column, reversed when descending.
pub open spec fn explored(e: ExplorerV) -> ContentV {
    match e.original {
        ContentV::Table(t) => {
            let rows = if e.filter.len() > 0 {
                kept_rows(t.rows, lowercase_of(e.filter), t.rows.len() as int)
            } else {
                t.rows
            };
            let s = sorted_rows(rows, e.sort_column as int, rows.len() as int);
            ContentV::Table(
                TableV {
                    rows: if e.descending {
                        s.reverse()
                    } else {
                        s
                    },
                    ..t
                },
            )
        },
        ContentV::Logs(rs) => ContentV::Logs(kept_records(rs, lowercase_of(e.filter), rs.len() as int)),
    }
}

pub open spec fn shown_count(e: ExplorerV) -> nat {
    match explored(e) {
        ContentV::Table(t) => t.rows.len(),
        ContentV::Logs(rs) => rs.len(),
    }
}

/// The position of the selected row among those shown.
pub open spec fn selected_index(e: ExplorerV, n: nat) -> int {
    if n == 0 {
        0
    } else if e.selected < n - 1 {
        e.selected as int
    } else {
        n - 1
    }
}

/// The shown view with the cells of the selected row accented.
pub open spec fn explored_selected(e: ExplorerV) -> ContentV {
    match explored(e) {
        ContentV::Table(t) => {
            let i = selected_index(e, t.rows.len());
            if t.rows.len() > 0 {
                ContentV::Table(
                    TableV {
                        rows: t.rows.update(
                            i,
                            t.rows[i].map_values(|c: CellV| CellV { style: Style::Accent, ..c }),
                        ),
                        ..t
                    },
                )
            } else {
                ContentV::Table(t)
            }
        },
        other => other,
    }
}

fn row_matches(row: &Vec<Cell>, needle: &Vec<char>) -> (r: bool)
    ensures
        r == row_has(crate::model::row_view(*row), needle@),
{
    let ghost rv = crate::model::row_view(*row);
    let mut k: usize = 0;
    while k < row.len()
        invariant
            k <= row.len(),
            rv == crate::model::row_view(*row),
            forall|j: int| 0 <= j < k ==> !contains_seq(lowercase_of(#[trigger] rv[j].text), needle@),
        decreases row.len() - k,
    {
        let l = chars_of(lowercase(row[k].text.as_str()).as_str());
        if crate::text::contains(l.as_slice(), needle.as_slice()) {
            assert(contains_seq(lowercase_of(rv[k as int].text), needle@));
            return true;
        }
        k += 1;
    }
    false
}

fn record_matches(r: &LogRecord, needle: &Vec<char>) -> (b: bool)
    ensures
        b == record_has(r@, needle@),
{
    if needle.len() == 0 {
        return true;
    }
    let m = chars_of(lowercase(r.message.as_str()).as_str());
    if crate::text::contains(m.as_slice(), needle.as_slice()) {
        return true;
    }
    match &r.level {
        Some(l) => {
            let lv = chars_of(lowercase(l.as_str()).as_str());
            crate::text::contains(lv.as_slice(), needle.as_slice())
        },
        None => false,
    }
}

fn reversed_rows(rows: Vec<Vec<Cell>>) -> (r: Vec<Vec<Cell>>)
    ensures
        r@.map_values(|row: Vec<Cell>| crate::model::row_view(row)) == rows@.map_values(
            |row: Vec<Cell>| crate::model::row_view(row),
        ).reverse(),
{
    let mut src = rows;
    let mut out: Vec<Vec<Cell>> = Vec::new();
    let ghost orig = src@;
    while src.len() > 0
        invariant
            out@ + src@.reverse() == orig.reverse(),
        decreases src.len(),
    {
        let ghost before = src@;
        let row = src.pop().unwrap();
        assert(before.reverse() =~= seq![row] + src@.reverse());
        out.push(row);
        assert(out@ + src@.reverse() =~= orig.reverse());
    }
    assert(out@ =~= orig.reverse());
    assert(out@.map_values(|row: Vec<Cell>| crate::model::row_view(row)) =~= orig.map_values(
        |row: Vec<Cell>| crate::model::row_view(row),
    ).reverse());
    out
}

impl Explorer {
    pub fn new(original: Content) -> (r: Self)
        ensures
            r@ == (ExplorerV {
                original: original@,
                filter: seq![],
                sort_column: 0,
                descending: false,
                selected: 0,
            }),
    {
        let f = String::new();
        Explorer { original, filter: f, sort_column: 0, descending: false, selected: 0 }
    }

    /// The view as filtered and sorted, without the selection marked.
    pub fn current_view_unselected(&self) -> (r: Content)
        ensures
            r@ == explored(self@),
    {
        match &self.original {
            Content::Table(table) => {
                let ghost t = table@;
                let mut rows: Vec<Vec<Cell>> = Vec::new();
                if !self.filter.as_str().is_empty() {
                    let needle = chars_of(lowercase(self.filter.as_str()).as_str());
                    let mut i: usize = 0;
                    while i < table.rows.len()
                        invariant
                            i <= table.rows.len(),
                            t == table@,
                            rows@.map_values(|row: Vec<Cell>| crate::model::row_view(row)) == kept_rows(
                                t.rows,
                                needle@,
                                i as int,
                            ),
                        decreases table.rows.len() - i,
                    {
                        if row_matches(&table.rows[i], &needle) {
                            let ghost before = rows@;
                            rows.push(crate::model::copy_row(&table.rows[i]));
                            assert(rows@.map_values(|row: Vec<Cell>| crate::model::row_view(row)) =~= before.map_values(
                                |row: Vec<Cell>| crate::model::row_view(row),
                            ).push(t.rows[i as int]));
                        }
                        i += 1;
                    }
                } else {
                    let mut i: usize = 0;
                    while i < table.rows.len()
                        invariant
                            i <= table.rows.len(),
                            t == table@,
                            rows@.map_values(|row: Vec<Cell>| crate::model::row_view(row)) == t.rows.take(i as int),
                        decreases table.rows.len() - i,
                    {
                        let ghost before = rows@;
                        rows.push(crate::model::copy_row(&table.rows[i]));
                        assert(t.rows[i as int] == crate::model::row_view(table.rows@[i as int]));
                        assert(t.rows.take(i + 1) =~= t.rows.take(i as int).push(t.rows[i as int]));
                        assert(rows@.map_values(|row: Vec<Cell>| crate::model::row_view(row)) =~= before.map_values(
                            |row: Vec<Cell>| crate::model::row_view(row),
                        ).push(t.rows[i as int]));
                        i += 1;
                    }
                    assert(t.rows.take(table.rows.len() as int) =~= t.rows);
                }
                let sorted = sort_rows(&rows, self.sort_column);
                let shown = if self.descending {
                    reversed_rows(sorted)
                } else {
                    sorted
                };
                let mut columns: Vec<crate::model::Column> = Vec::new();
                let mut c: usize = 0;
                while c < table.columns.len()
                    invariant
                        c <= table.columns.len(),
                        t == table@,
                        columns@.map_values(|x: crate::model::Column| x@) == t.columns.take(c as int),
                    decreases table.columns.len() - c,
                {
                    let ghost before = columns@;
                    columns.push(table.columns[c].copied());
                    assert(t.columns[c as int] == table.columns@[c as int]@);
                    assert(t.columns.take(c + 1) =~= t.columns.take(c as int).push(t.columns[c as int]));
                    assert(columns@.map_values(|x: crate::model::Column| x@) =~= before.map_values(
                        |x: crate::model::Column| x@,
                    ).push(t.columns[c as int]));
                    c += 1;
                }
                assert(t.columns.take(table.columns.len() as int) =~= t.columns);
                let mut prelude: Vec<String> = Vec::new();
                let mut p: usize = 0;
                while p < table.prelude.len()
                    invariant
                        p <= table.prelude.len(),
                        t == table@,
                        prelude@.map_values(|x: String| x@) == t.prelude.take(p as int),
                    decreases table.prelude.len() - p,
                {
                    let ghost before = prelude@;
                    prelude.push(crate::model::copy_string(&table.prelude[p]));
                    assert(t.prelude[p as int] == table.prelude@[p as int]@);
                    assert(t.prelude.take(p + 1) =~= t.prelude.take(p as int).push(t.prelude[p as int]));
                    assert(prelude@.map_values(|x: String| x@) =~= before.map_values(|x: String| x@).push(
                        t.prelude[p as int],
                    ));
                    p += 1;
                }
                assert(t.prelude.take(table.prelude.len() as int) =~= t.prelude);
                Content::Table(Table { columns, rows: shown, prelude })
            },
            Content::Logs(records) => {
                let ghost rs = records@.map_values(|r: LogRecord| r@);
                let needle = chars_of(lowercase(self.filter.as_str()).as_str());
                let mut out: Vec<LogRecord> = Vec::new();
                let mut i: usize = 0;
                while i < records.len()
                    invariant
                        i <= records.len(),
                        rs == records@.map_values(|r: LogRecord| r@),
                        needle@ == lowercase_of(self.filter@),
                        out@.map_values(|r: LogRecord| r@) == kept_records(rs, needle@, i as int),
                    decreases records.len() - i,
                {
                    if record_matches(&records[i], &needle) {
                        let ghost before = out@;
                        out.push(records[i].copied());
                        assert(out@.map_values(|r: LogRecord| r@) =~= before.map_values(|r: LogRecord| r@).push(
                            rs[i as int],
                        ));
                    }
                    i += 1;
                }
                Content::Logs(out)
            },
        }
    }

    /// How many rows (or records) are shown.
    pub fn row_count(&self) -> (r: usize)
        ensures
            r as nat == shown_count(self@),
    {
        match self.current_view_unselected() {
            Content::Table(t) => t.rows.len(),
            Content::Logs(rs) => rs.len(),
        }
    }

    /// The view as shown, the selected row accented.
    pub fn current_view(&self) -> (r: Content)
        ensures
            r@ == explored_selected(self@),
    {
        let view = self.current_view_unselected();
        match view {
            Content::Table(t) => {
                let ghost tv = t@;
                let n = t.rows.len();
                if n == 0 {
                    return Content::Table(t);
                }
                let i = if self.selected < n - 1 {
                    self.selected
                } else {
                    n - 1
                };
                let mut row: Vec<Cell> = Vec::new();
                let mut k: usize = 0;
                while k < t.rows[i].len()
                    invariant
                        k <= t.rows[i as int].len(),
                        i < t.rows.len(),
                        tv == t@,
                        crate::model::row_view(row) == tv.rows[i as int].take(k as int).map_values(
                            |c: CellV| CellV { style: Style::Accent, ..c },
                        ),
                    decreases t.rows[i as int].len() - k,
                {
                    let mut c = t.rows[i][k].copied();
                    c.style = Style::Accent;
                    let ghost before = crate::model::row_view(row);
                    row.push(c);
                    assert(tv.rows[i as int][k as int] == t.rows@[i as int]@[k as int]@);
                    assert(tv.rows[i as int].take(k + 1) =~= tv.rows[i as int].take(k as int).push(
                        tv.rows[i as int][k as int],
                    ));
                    assert(crate::model::row_view(row) =~= before.push(c@));
                    assert(crate::model::row_view(row) =~= tv.rows[i as int].take(k + 1).map_values(
                        |c: CellV| CellV { style: Style::Accent, ..c },
                    ));
                    k += 1;
                }
                assert(tv.rows[i as int].take(t.rows[i as int].len() as int) =~= tv.rows[i as int]);
                let mut table = t;
                table.rows.set(i, row);
                assert(table@.rows =~= tv.rows.update(
                    i as int,
                    tv.rows[i as int].map_values(|c: CellV| CellV { style: Style::Accent, ..c }),
                ));
                Content::Table(table)
            },
            other => other,
        }
    }
}

// ---------------------------------------------------------------------------
// Keys
// ---------------------------------------------------------------------------

pub open spec fn is1(k: Seq<u8>, a: u8) -> bool {
    k.len() == 1 && k[0] == a
}

pub open spec fn is3(k: Seq<u8>, a: u8, b: u8, c: u8) -> bool {
    k.len() == 3 && k[0] == a && k[1] == b && k[2] == c
}

pub open spec fn is4(k: Seq<u8>, a: u8, b: u8, c: u8, d: u8) -> bool {
    k.len() == 4 && k[0] == a && k[1] == b && k[2] == c && k[3] == d
}

/// `q`, `Q`, Ctrl-C, Ctrl-Z or Escape.
pub open spec fn quit_key(k: Seq<u8>) -> bool {
    is1(k, 0x71) || is1(k, 0x51) || is1(k, 0x03) || is1(k, 0x1a) || is1(k, 0x1b)
}

/// `k` or the up arrow.
pub open spec fn up_key(k: Seq<u8>) -> bool {
    is1(k, 0x6b) || is3(k, 0x1b, 0x5b, 0x41)
}

/// `j` or the down arrow.
pub open spec fn down_key(k: Seq<u8>) -> bool {
    is1(k, 0x6a) || is3(k, 0x1b, 0x5b, 0x42)
}

pub open spec fn page_up_key(k: Seq<u8>) -> bool {
    is4(k, 0x1b, 0x5b, 0x35, 0x7e)
}

pub open spec fn page_down_key(k: Seq<u8>) -> bool {
    is4(k, 0x1b, 0x5b, 0x36, 0x7e)
}

/// `g` or Home.
pub open spec fn home_key(k: Seq<u8>) -> bool {
    is1(k, 0x67) || is3(k, 0x1b, 0x5b, 0x48)
}

/// `G` or End.
pub open spec fn end_key(k: Seq<u8>) -> bool {
    is1(k, 0x47) || is3(k, 0x1b, 0x5b, 0x46)
}

fn key1(k: &[u8], a: u8) -> (r: bool)
    ensures
        r == is1(k@, a),
{
    k.len() == 1 && k[0] == a
}

fn key3(k: &[u8], a: u8, b: u8, c: u8) -> (r: bool)
    ensures
        r == is3(k@, a, b, c),
{
    k.len() == 3 && k[0] == a && k[1] == b && k[2] == c
}

fn key4(k: &[u8], a: u8, b: u8, c: u8, d: u8) -> (r: bool)
    ensures
        r == is4(k@, a, b, c, d),
{
    k.len() == 4 && k[0] == a && k[1] == b && k[2] == c && k[3] == d
}

/// What a key does in the scrolling modes.
#[derive(Debug, Clone, Copy, PartialEq, Eq, Structural)]
pub enum PagerKey {
    Quit,
    Scroll(usize),
    RefreshNow,
    Ignored,
}

/// A page: two lines less than the screen, at least one.
pub open spec fn page_of(rows: usize) -> nat {
    if rows > 2 {
        (rows - 2) as nat
    } else {
        1
    }
}

/// A key in the scrolling modes: quit, scroll by a line or a page (down no
/// further than `max_scroll`), jump to either end, or, while watching,
/// refresh now with the space bar.
pub open spec fn pager_spec(k: Seq<u8>, scroll: usize, max_scroll: usize, rows: usize, watching: bool) -> PagerKey {
    let page = page_of(rows);
    if quit_key(k) {
        PagerKey::Quit
    } else if up_key(k) {
        PagerKey::Scroll(if scroll > 0 { (scroll - 1) as usize } else { 0 })
    } else if down_key(k) {
        PagerKey::Scroll(if scroll + 1 < max_scroll { (scroll + 1) as usize } else { max_scroll })
    } else if page_up_key(k) {
        PagerKey::Scroll(if scroll > page { (scroll - page) as usize } else { 0 })
    } else if page_down_key(k) {
        PagerKey::Scroll(if scroll + page < max_scroll { (scroll + page) as usize } else { max_scroll })
    } else if home_key(k) {
        PagerKey::Scroll(0)
    } else if end_key(k) {
        PagerKey::Scroll(max_scroll)
    } else if watching && is1(k, 0x20) {
        PagerKey::RefreshNow
    } else {
        PagerKey::Ignored
    }
}

fn page_for(rows: usize) -> (r: usize)
    ensures
        r as nat == page_of(rows),
        r >= 1,
{
    if rows > 2 {
        rows - 2
    } else {
        1
    }
}

/// Decides what a key does in the live and watch modes.
pub fn pager_key(key: &[u8], scroll: usize, max_scroll: usize, rows: usize, watching: bool) -> (r: PagerKey)
    requires
        down_key(key@) ==> scroll < usize::MAX,
        page_down_key(key@) ==> scroll + page_of(rows) <= usize::MAX,
    ensures
        r == pager_spec(key@, scroll, max_scroll, rows, watching),
{
    let page = page_for(rows);
    if key1(key, 0x71) || key1(key, 0x51) || key1(key, 0x03) || key1(key, 0x1a) || key1(key, 0x1b) {
        PagerKey::Quit
    } else if key1(key, 0x6b) || key3(key, 0x1b, 0x5b, 0x41) {
        PagerKey::Scroll(scroll.saturating_sub(1))
    } else if key1(key, 0x6a) || key3(key, 0x1b, 0x5b, 0x42) {
        let next = scroll + 1;
        PagerKey::Scroll(
            if next < max_scroll {
                next
            } else {
                max_scroll
            },
        )
    } else if key4(key, 0x1b, 0x5b, 0x35, 0x7e) {
        PagerKey::Scroll(scroll.saturating_sub(page))
    } else if key4(key, 0x1b, 0x5b, 0x36, 0x7e) {
        let next = scroll + page;
        PagerKey::Scroll(
            if next < max_scroll {
                next
            } else {
                max_scroll
            },
        )
    } else if key1(key, 0x67) || key3(key, 0x1b, 0x5b, 0x48) {
        PagerKey::Scroll(0)
    } else if key1(key, 0x47) || key3(key, 0x1b, 0x5b, 0x46) {
        PagerKey::Scroll(max_scroll)
    } else if watching && key1(key, 0x20) {
        PagerKey::RefreshNow
    } else {
        PagerKey::Ignored
    }
}

/// The characters typed with a key: its text where the bytes are UTF-8,
/// control characters left out.
pub open spec fn is_control(c: char) -> bool {
    (c as u32) < 0x20 || (0x7f <= (c as u32) && (c as u32) <= 0x9f)
}

pub open spec fn printable(s: Seq<char>) -> Seq<char>
    decreases s.len(),
{
    if s.len() == 0 {
        seq![]
    } else if is_control(s.last()) {
        printable(s.drop_last())
    } else {
        printable(s.drop_last()).push(s.last())
    }
}

pub open spec fn typed(k: Seq<u8>) -> Seq<char> {
    if vstd::utf8::valid_utf8(k) {
        printable(vstd::utf8::decode_utf8(k))
    } else {
        seq![]
    }
}

/// What a key did in the explorer.
#[derive(Debug, Clone, Copy, PartialEq, Eq, Structural)]
pub enum ExploreKey {
    Quit,
    Ignored,
    RunAction,
    Handled { filtering: bool, changed: bool },
}

/// The selection moved by `amount`, held between the first and the last row
/// shown.
pub open spec fn moved(selected: usize, amount: int, n: nat) -> usize {
    let raw: int = selected + amount;
    let sat: int = if raw < 0 {
        0
    } else if raw > usize::MAX {
        usize::MAX as int
    } else {
        raw
    };
    let last: int = if n > 0 {
        n - 1
    } else {
        0
    };
    (if sat < last {
        sat
    } else {
        last
    }) as usize
}

/// A key in the explorer, with the filter being typed or not.
pub open spec fn explore_spec(e: ExplorerV, k: Seq<u8>, filtering: bool, page: usize) -> (ExplorerV, ExploreKey) {
    if filtering {
        if is1(k, 0x1b) || is1(k, 0x0d) || is1(k, 0x0a) {
            (e, ExploreKey::Handled { filtering: false, changed: false })
        } else if is1(k, 0x7f) || is1(k, 0x08) {
            (
                ExplorerV {
                    filter: if e.filter.len() > 0 {
                        e.filter.drop_last()
                    } else {
                        e.filter
                    },
                    ..e
                },
                ExploreKey::Handled { filtering: true, changed: true },
            )
        } else {
            (
                ExplorerV { filter: e.filter + typed(k), ..e },
                ExploreKey::Handled { filtering: true, changed: typed(k).len() > 0 },
            )
        }
    } else if quit_key(k) {
        (e, ExploreKey::Quit)
    } else if is1(k, 0x2f) {
        (e, ExploreKey::Handled { filtering: true, changed: false })
    } else if is1(k, 0x73) || is1(k, 0x09) {
        (
            match e.original {
                ContentV::Table(t) => ExplorerV {
                    sort_column: ((e.sort_column + 1) % (if t.columns.len() > 1 {
                        t.columns.len() as int
                    } else {
                        1
                    })) as usize,
                    ..e
                },
                ContentV::Logs(_) => e,
            },
            ExploreKey::Handled { filtering: false, changed: true },
        )
    } else if is1(k, 0x72) {
        (ExplorerV { descending: !e.descending, ..e }, ExploreKey::Handled { filtering: false, changed: true })
    } else if is1(k, 0x61) {
        (e, ExploreKey::RunAction)
    } else if up_key(k) {
        (
            ExplorerV { selected: moved(e.selected, -1, shown_count(e)), ..e },
            ExploreKey::Handled { filtering: false, changed: true },
        )
    } else if down_key(k) {
        (
            ExplorerV { selected: moved(e.selected, 1, shown_count(e)), ..e },
            ExploreKey::Handled { filtering: false, changed: true },
        )
    } else if page_up_key(k) {
        (
            ExplorerV { selected: moved(e.selected, -(page as int), shown_count(e)), ..e },
            ExploreKey::Handled { filtering: false, changed: true },
        )
    } else if page_down_key(k) {
        (
            ExplorerV { selected: moved(e.selected, page as int, shown_count(e)), ..e },
            ExploreKey::Handled { filtering: false, changed: true },
        )
    } else if home_key(k) {
        (ExplorerV { selected: 0, ..e }, ExploreKey::Handled { filtering: false, changed: true })
    } else if end_key(k) {
        (
            ExplorerV {
                selected: if shown_count(e) > 0 {
                    (shown_count(e) - 1) as usize
                } else {
                    0
                },
                ..e
            },
            ExploreKey::Handled { filtering: false, changed: true },
        )
    } else {
        (e, ExploreKey::Ignored)
    }
}

fn printable_chars(s: &Vec<char>) -> (r: Vec<char>)
    ensures
        r@ == printable(s@),
{
    let mut out: Vec<char> = Vec::new();
    let mut i: usize = 0;
    while i < s.len()
        invariant
            i <= s.len(),
            out@ == printable(s@.take(i as int)),
        decreases s.len() - i,
    {
        assert(s@.take(i + 1).drop_last() =~= s@.take(i as int));
        let c = s[i];
        let u = c as u32;
        if !(u < 0x20 || (0x7f <= u && u <= 0x9f)) {
            out.push(c);
        }
        i += 1;
    }
    assert(s@.take(s@.len() as int) =~= s@);
    out
}

impl Explorer {
    /// Sorts by the next column, round to the first.
    pub fn next_sort(&mut self)
        requires
            old(self).sort_column < usize::MAX,
        ensures
            final(self)@ == explore_spec(old(self)@, seq![0x73u8], false, 1).0,
    {
        match &self.original {
            Content::Table(t) => {
                let n = if t.columns.len() > 1 {
                    t.columns.len()
                } else {
                    1
                };
                self.sort_column = (self.sort_column + 1) % n;
            },
            Content::Logs(_) => {},
        }
    }

    /// Moves the selection, held between the first and the last row shown.
    pub fn move_selection(&mut self, amount: isize)
        ensures
            final(self)@ == (ExplorerV {
                selected: moved(old(self)@.selected, amount as int, shown_count(old(self)@)),
                ..old(self)@
            }),
    {
        let n = self.row_count();
        let last = if n > 0 {
            n - 1
        } else {
            0
        };
        let sat: usize = if amount < 0 {
            let down: usize = if amount == isize::MIN {
                (isize::MAX as usize) + 1
            } else {
                (-amount) as usize
            };
            self.selected.saturating_sub(down)
        } else {
            self.selected.saturating_add(amount as usize)
        };
        self.selected = if sat < last {
            sat
        } else {
            last
        };
    }

    /// Handles a key; `page` is how far the page keys move the selection.
    pub fn handle_key(&mut self, key: &[u8], filtering: bool, page: usize) -> (r: ExploreKey)
        requires
            page <= isize::MAX,
            !filtering && (is1(key@, 0x73) || is1(key@, 0x09)) ==> old(self).sort_column < usize::MAX,
        ensures
            (final(self)@, r) == explore_spec(old(self)@, key@, filtering, page),
    {
        if filtering {
            if key1(key, 0x1b) || key1(key, 0x0d) || key1(key, 0x0a) {
                return ExploreKey::Handled { filtering: false, changed: false };
            }
            if key1(key, 0x7f) || key1(key, 0x08) {
                let mut f = chars_of(self.filter.as_str());
                if f.len() > 0 {
                    f.pop();
                }
                self.filter = string_of(f.as_slice());
                return ExploreKey::Handled { filtering: true, changed: true };
            }
            let t: Vec<char> = match crate::utf8_text(key) {
                Some(text) => printable_chars(&chars_of(text.as_str())),
                None => Vec::new(),
            };
            let mut f = chars_of(self.filter.as_str());
            crate::text::extend(&mut f, t.as_slice());
            self.filter = string_of(f.as_slice());
            proof {
                if !vstd::utf8::valid_utf8(key@) {
                    assert(t@ =~= typed(key@));
                }
            }
            return ExploreKey::Handled { filtering: true, changed: t.len() > 0 };
        }
        if key1(key, 0x71) || key1(key, 0x51) || key1(key, 0x03) || key1(key, 0x1a) || key1(key, 0x1b) {
            ExploreKey::Quit
        } else if key1(key, 0x2f) {
            ExploreKey::Handled { filtering: true, changed: false }
        } else if key1(key, 0x73) || key1(key, 0x09) {
            self.next_sort();
            ExploreKey::Handled { filtering: false, changed: true }
        } else if key1(key, 0x72) {
            self.descending = !self.descending;
            ExploreKey::Handled { filtering: false, changed: true }
        } else if key1(key, 0x61) {
            ExploreKey::RunAction
        } else if key1(key, 0x6b) || key3(key, 0x1b, 0x5b, 0x41) {
            self.move_selection(-1);
            ExploreKey::Handled { filtering: false, changed: true }
        } else if key1(key, 0x6a) || key3(key, 0x1b, 0x5b, 0x42) {
            self.move_selection(1);
            ExploreKey::Handled { filtering: false, changed: true }
        } else if key4(key, 0x1b, 0x5b, 0x35, 0x7e) {
            self.move_selection(-(page as isize));
            ExploreKey::Handled { filtering: false, changed: true }
        } else if key4(key, 0x1b, 0x5b, 0x36, 0x7e) {
            self.move_selection(page as isize);
            ExploreKey::Handled { filtering: false, changed: true }
        } else if key1(key, 0x67) || key3(key, 0x1b, 0x5b, 0x48) {
            self.selected = 0;
            ExploreKey::Handled { filtering: false, changed: true }
        } else if key1(key, 0x47) || key3(key, 0x1b, 0x5b, 0x46) {
            let n = self.row_count();
            self.selected = if n > 0 {
                n - 1
            } else {
                0
            };
            ExploreKey::Handled { filtering: false, changed: true }
        } else {
            ExploreKey::Ignored
        }
    }
}

// ---------------------------------------------------------------------------
// Status text and selected values
// ---------------------------------------------------------------------------

pub open spec fn sort_name(e: ExplorerV) -> Seq<char> {
    match e.original {
        ContentV::Table(t) => if e.sort_column < t.columns.len() {
            t.columns[e.sort_column as int].key
        } else {
            "none"@
        },
        ContentV::Logs(_) => "none"@,
    }
}

/// The explorer's status line: the filter being typed, or the selected row,
/// sort, direction and filter with the keys.
pub open spec fn status_spec(e: ExplorerV, filtering: bool) -> Seq<char> {
    if filtering {
        "filter: "@ + e.filter + "_  Enter accept  Esc close"@
    } else {
        let n = shown_count(e);
        let next: nat = if e.selected < usize::MAX {
            (e.selected + 1) as nat
        } else {
            usize::MAX as nat
        };
        let row: nat = if next < n {
            next
        } else {
            n
        };
        "row:"@ + crate::text::dec(row) + "/"@ + crate::text::dec(n) + "  sort:"@ + sort_name(e) + " "@ + (if e.descending {
            "desc"@
        } else {
            "asc"@
        }) + "  filter:"@ + (if e.filter.len() == 0 {
            "—"@
        } else {
            e.filter
        }) + "  / filter  s next  r reverse  a action  q quit"@
    }
}

/// The first column whose key is `key`, from `i`.
pub open spec fn column_pos(cols: Seq<crate::model::ColumnV>, key: Seq<char>, i: int) -> int
    decreases cols.len() - i,
{
    if i < 0 || i >= cols.len() {
        -1
    } else if cols[i].key == key {
        i
    } else {
        column_pos(cols, key, i + 1)
    }
}

/// The text of the selected row's cell in the column with key `key`.
pub open spec fn selected_value_spec(e: ExplorerV, key: Seq<char>) -> Option<Seq<char>> {
    match explored(e) {
        ContentV::Table(t) => {
            let c = column_pos(t.columns, key, 0);
            let i = selected_index(e, t.rows.len());
            if c < 0 || t.rows.len() == 0 || c >= t.rows[i].len() {
                None
            } else {
                Some(t.rows[i][c].text)
            }
        },
        ContentV::Logs(_) => None,
    }
}

impl Explorer {
    pub fn status(&self, filtering: bool) -> (r: String)
        ensures
            r@ == status_spec(self@, filtering),
    {
        let mut out: Vec<char> = Vec::new();
        if filtering {
            crate::text::extend_str(&mut out, "filter: ");
            crate::text::extend_str(&mut out, self.filter.as_str());
            crate::text::extend_str(&mut out, "_  Enter accept  Esc close");
            return string_of(out.as_slice());
        }
        let n = self.row_count();
        let next = self.selected.saturating_add(1);
        let row = if next < n {
            next
        } else {
            n
        };
        crate::text::extend_str(&mut out, "row:");
        let a = crate::text::decimal(row as u64);
        crate::text::extend(&mut out, a.as_slice());
        crate::text::extend_str(&mut out, "/");
        let b = crate::text::decimal(n as u64);
        crate::text::extend(&mut out, b.as_slice());
        crate::text::extend_str(&mut out, "  sort:");
        match &self.original {
            Content::Table(t) => {
                if self.sort_column < t.columns.len() {
                    crate::text::extend_str(&mut out, t.columns[self.sort_column].key.as_str());
                } else {
                    crate::text::extend_str(&mut out, "none");
                }
            },
            Content::Logs(_) => crate::text::extend_str(&mut out, "none"),
        }
        crate::text::extend_str(&mut out, " ");
        if self.descending {
            crate::text::extend_str(&mut out, "desc");
        } else {
            crate::text::extend_str(&mut out, "asc");
        }
        crate::text::extend_str(&mut out, "  filter:");
        if self.filter.as_str().is_empty() {
            crate::text::extend_str(&mut out, "—");
        } else {
            crate::text::extend_str(&mut out, self.filter.as_str());
        }
        crate::text::extend_str(&mut out, "  / filter  s next  r reverse  a action  q quit");
        string_of(out.as_slice())
    }

    /// The selected row's value in the column with key `key`.
    pub fn selected_value(&self, key: &str) -> (r: Option<String>)
        ensures
            match r {
                Some(v) => selected_value_spec(self@, key@) == Some(v@),
                None => selected_value_spec(self@, key@) is None,
            },
    {
        let view = self.current_view_unselected();
        match &view {
            Content::Table(t) => {
                let k = chars_of(key);
                let mut c: usize = 0;
                let mut found = false;
                while c < t.columns.len() && !found
                    invariant
                        c <= t.columns.len(),
                        k@ == key@,
                        column_pos(t@.columns, key@, c as int) == column_pos(t@.columns, key@, 0),
                        found ==> c < t.columns.len() && column_pos(t@.columns, key@, c as int) == c,
                    decreases t.columns.len() - c, (if found { 0int } else { 1int }),
                {
                    let ck = chars_of(t.columns[c].key.as_str());
                    if crate::text::eq(ck.as_slice(), k.as_slice()) {
                        found = true;
                    } else {
                        c += 1;
                    }
                }
                if !found || t.rows.len() == 0 {
                    return None;
                }
                let n = t.rows.len();
                let i = if self.selected < n - 1 {
                    self.selected
                } else {
                    n - 1
                };
                assert(t@.rows[i as int].len() == t.rows@[i as int].len());
                if c >= t.rows[i].len() {
                    return None;
                }
                assert(t@.rows[i as int][c as int] == t.rows@[i as int]@[c as int]@);
                Some(crate::model::copy_string(&t.rows[i][c].text))
            },
            Content::Logs(_) => None,
        }
    }
}

/// The scroll position that keeps the selected row near the middle of a
/// screen of `rows` lines.
pub open spec fn scroll_for_selection_spec(selected: usize, rows: usize) -> usize {
    let viewport: int = if rows > 5 {
        rows - 4
    } else {
        1
    };
    let half = viewport / 2;
    if selected > half {
        (selected - half) as usize
    } else {
        0
    }
}

pub fn scroll_for_selection(selected: usize, rows: usize) -> (r: usize)
    ensures
        r == scroll_for_selection_spec(selected, rows),
{
    let viewport = if rows > 5 {
        rows - 4
    } else {
        1
    };
    selected.saturating_sub(viewport / 2)
}

// ---------------------------------------------------------------------------
// Frames and screens
// ---------------------------------------------------------------------------

/// A text cut to `max` columns with an ellipsis, control characters taking
/// no column.
pub open spec fn truncate_plain_spec(v: Seq<char>, max: nat) -> Seq<char> {
    if text_width(v) <= max {
        v
    } else if max == 0 {
        seq![]
    } else {
        v.take(crate::render::fit_len(v, 0, 0, (max - 1) as nat)) + seq!['…']
    }
}

pub fn truncate_plain(value: &str, max_width: usize) -> (r: String)
    ensures
        r@ == truncate_plain_spec(value@, max_width as nat),
{
    if crate::render::display_width(value) <= max_width {
        return value.to_owned();
    }
    if max_width == 0 {
        return String::new();
    }
    let v = chars_of(value);
    let target = max_width - 1;
    let mut used: usize = 0;
    let mut i: usize = 0;
    let mut stop = false;
    while i < v.len() && !stop
        invariant
            i <= v.len(),
            v@ == value@,
            used <= target,
            crate::render::fit_len(v@, i as int, used as nat, target as nat) == crate::render::fit_len(
                v@,
                0,
                0,
                target as nat,
            ),
            stop ==> crate::render::fit_len(v@, i as int, used as nat, target as nat) == i,
        decreases v.len() - i, (if stop { 0int } else { 1int }),
    {
        let w = match char_width(v[i]) {
            Some(w) => w,
            None => 0,
        };
        if w > target - used {
            stop = true;
        } else {
            used += w;
            i += 1;
        }
    }
    let mut out = crate::text::slice_of(v.as_slice(), 0, i);
    out.push('…');
    assert(out@ =~= v@.take(i as int) + seq!['…']);
    string_of(out.as_slice())
}

/// The status line at the bottom of a screen, in inverse video.
pub open spec fn status_line_spec(
    mode: Seq<char>,
    help: Seq<char>,
    columns: usize,
    rows: usize,
    first_line: usize,
    shown: usize,
    total: usize,
) -> Seq<char> {
    let from: nat = if total == 0 {
        0
    } else {
        (first_line + 1) as nat
    };
    let to: nat = if first_line + shown < total {
        (first_line + shown) as nat
    } else {
        total as nat
    };
    let text = " restty "@ + mode + "  "@ + crate::text::dec(columns as nat) + "×"@ + crate::text::dec(rows as nat)
        + "  lines "@ + crate::text::dec(from) + "–"@ + crate::text::dec(to) + " of "@ + crate::text::dec(
        total as nat,
    ) + "  "@ + help + " "@;
    "\u{1b}[7m"@ + truncate_plain_spec(text, columns as nat) + "\u{1b}[0m"@
}

pub fn status_line(
    mode: &str,
    help: &str,
    columns: usize,
    rows: usize,
    first_line: usize,
    shown: usize,
    total: usize,
) -> (r: String)
    requires
        first_line < usize::MAX,
        first_line + shown <= usize::MAX,
    ensures
        r@ == status_line_spec(mode@, help@, columns, rows, first_line, shown, total),
{
    let from: usize = if total == 0 {
        0
    } else {
        first_line + 1
    };
    let to: usize = if first_line + shown < total {
        first_line + shown
    } else {
        total
    };
    let mut text: Vec<char> = Vec::new();
    crate::text::extend_str(&mut text, " restty ");
    crate::text::extend_str(&mut text, mode);
    crate::text::extend_str(&mut text, "  ");
    crate::text::extend(&mut text, crate::text::decimal(columns as u64).as_slice());
    crate::text::extend_str(&mut text, "×");
    crate::text::extend(&mut text, crate::text::decimal(rows as u64).as_slice());
    crate::text::extend_str(&mut text, "  lines ");
    crate::text::extend(&mut text, crate::text::decimal(from as u64).as_slice());
    crate::text::extend_str(&mut text, "–");
    crate::text::extend(&mut text, crate::text::decimal(to as u64).as_slice());
    crate::text::extend_str(&mut text, " of ");
    crate::text::extend(&mut text, crate::text::decimal(total as u64).as_slice());
    crate::text::extend_str(&mut text, "  ");
    crate::text::extend_str(&mut text, help);
    crate::text::extend_str(&mut text, " ");
    let t = string_of(text.as_slice());
    let cut = truncate_plain(t.as_str(), columns);
    let mut out: Vec<char> = Vec::new();
    crate::text::extend_str(&mut out, "\u{1b}[7m");
    crate::text::extend_str(&mut out, cut.as_str());
    crate::text::extend_str(&mut out, "\u{1b}[0m");
    string_of(out.as_slice())
}

/// What `String::from_utf8_lossy` makes of bytes: their text, with each
/// invalid sequence replaced by U+FFFD. The result is named.
pub uninterp spec fn lossy_of(b: Seq<u8>) -> Seq<char>;

/// `String::from_utf8_lossy`. Its result is named; the contract adds the
/// documented case of valid UTF-8, which decodes unchanged.
#[verifier::external_body]
fn lossy_text(b: &[u8]) -> (r: String)
    ensures
        r@ == lossy_of(b@),
        vstd::utf8::valid_utf8(b@) ==> r@ == vstd::utf8::decode_utf8(b@),
{
    String::from_utf8_lossy(b).into_owned()
}

pub open spec fn strings_of(v: Seq<String>) -> Seq<Seq<char>> {
    v.map_values(|s: String| s@)
}

/// The lines of prepared output drawn at a width, each cut to the width.
pub open spec fn frame_lines_spec(p: crate::PreparedV, width: usize, now: u64) -> Seq<Seq<char>> {
    crate::text::lines(lossy_of(crate::render_at_spec(p, width, now))).map_values(
        |l: Seq<char>| truncate_ansi_spec(l, width as nat),
    )
}

/// Every line of a frame fits the width it was drawn for (the ellipsis of a
/// cut line counted at its own width).
pub proof fn lemma_frame_lines_fit(p: crate::PreparedV, width: usize, now: u64)
    ensures
        forall|i: int|
            0 <= i < frame_lines_spec(p, width, now).len() ==> {
                let w = visible_width_spec(#[trigger] frame_lines_spec(p, width, now)[i]);
                w <= width || w <= (width - 1) + cols_of('…')
            },
{
    let ls = crate::text::lines(lossy_of(crate::render_at_spec(p, width, now)));
    assert forall|i: int| 0 <= i < frame_lines_spec(p, width, now).len() implies {
        let w = visible_width_spec(#[trigger] frame_lines_spec(p, width, now)[i]);
        w <= width || w <= (width - 1) + cols_of('…')
    } by {
        lemma_truncate_ansi_fits(ls[i], width as nat);
    }
}

/// The width content is drawn at on a screen of `columns`: one column
/// less, at least one.
pub open spec fn content_width(columns: usize) -> usize {
    if columns > 2 {
        (columns - 1) as usize
    } else {
        1
    }
}

pub open spec fn viewport_of(rows: usize) -> nat {
    if rows > 0 {
        (rows - 1) as nat
    } else {
        0
    }
}

pub open spec fn max_scroll_of(total: nat, rows: usize) -> nat {
    if total > viewport_of(rows) {
        (total - viewport_of(rows)) as nat
    } else {
        0
    }
}

pub open spec fn first_line_of(total: nat, rows: usize, scroll: usize) -> nat {
    if scroll < max_scroll_of(total, rows) {
        scroll as nat
    } else {
        max_scroll_of(total, rows)
    }
}

/// The lines a screen of `rows` shows from `scroll` on, held so that the
/// last screen is full.
pub open spec fn window<T>(lines: Seq<T>, rows: usize, scroll: usize) -> Seq<T> {
    let first = first_line_of(lines.len(), rows, scroll);
    let end: int = if first + viewport_of(rows) < lines.len() {
        (first + viewport_of(rows)) as int
    } else {
        lines.len() as int
    };
    lines.subrange(first as int, end)
}

/// One screen of a document.
#[derive(Debug)]
pub struct Frame {
    pub lines: Vec<String>,
    pub first_line: usize,
    pub max_scroll: usize,
    pub total_lines: usize,
    pub view: Option<Content>,
    pub render_options: crate::render::RenderOptions,
    pub table_layout: Option<crate::render::TableLayout>,
}

/// Prepared output with its lines kept for the last width drawn.
#[derive(Debug)]
pub struct LiveDocument {
    pub prepared: crate::PreparedOutput,
    pub cached_width: Option<usize>,
    pub cached_lines: Vec<String>,
    pub cached_at: u64,
}

impl LiveDocument {
    /// The kept lines are those of the kept width, drawn at `cached_at`.
    pub open spec fn wf(&self) -> bool {
        match self.cached_width {
            Some(w) => strings_of(self.cached_lines@) == frame_lines_spec(self.prepared@, w, self.cached_at),
            None => true,
        }
    }

    pub fn new(prepared: crate::PreparedOutput) -> (r: Self)
        ensures
            r.wf(),
            r.prepared@ == prepared@,
            r.cached_width is None,
    {
        LiveDocument { prepared, cached_width: None, cached_lines: Vec::new(), cached_at: 0 }
    }

    /// Whether the document can be drawn on a screen of `columns`.
    pub fn renders_at(&self, columns: usize) -> (r: bool)
        ensures
            r == crate::prepared_renders(self.prepared@, content_width(columns)),
    {
        let w = if columns > 2 {
            columns - 1
        } else {
            1
        };
        self.prepared.render_at_checked(w, 0).is_some()
    }

    fn refresh(&mut self, width: usize, now: u64)
        requires
            old(self).wf(),
            crate::prepared_renders(old(self).prepared@, width),
        ensures
            final(self).wf(),
            final(self).prepared@ == old(self).prepared@,
            final(self).cached_width == Some(width),
    {
        let bytes = self.prepared.render_at(width, now);
        let text = lossy_text(bytes.as_slice());
        let chars = chars_of(text.as_str());
        let ls = crate::text::split_lines(chars.as_slice());
        let ghost lv = ls.deep_view();
        let mut out: Vec<String> = Vec::new();
        let mut i: usize = 0;
        while i < ls.len()
            invariant
                i <= ls.len(),
                lv == ls.deep_view(),
                strings_of(out@) == lv.take(i as int).map_values(|l: Seq<char>| truncate_ansi_spec(l, width as nat)),
            decreases ls.len() - i,
        {
            proof {
                crate::text::lemma_deep_chars(&ls[i as int]);
            }
            let line = string_of(ls[i].as_slice());
            let cut = truncate_ansi_aware(line.as_str(), width);
            let ghost before = out@;
            assert(lv[i as int] == ls@[i as int]@);
            out.push(cut);
            assert(strings_of(out@) =~= strings_of(before).push(truncate_ansi_spec(lv[i as int], width as nat)));
            assert(lv.take(i + 1) =~= lv.take(i as int).push(lv[i as int]));
            assert(strings_of(out@) =~= lv.take(i + 1).map_values(
                |l: Seq<char>| truncate_ansi_spec(l, width as nat),
            ));
            i += 1;
        }
        assert(lv.take(ls.len() as int) =~= lv);
        self.cached_lines = out;
        self.cached_width = Some(width);
        self.cached_at = now;
    }

    /// The frame for a screen of `columns` by `rows` scrolled to `scroll`;
    /// the lines are drawn again only when the width changed.
    pub fn build_frame(&mut self, columns: usize, rows: usize, scroll: usize, now: u64) -> (r: Frame)
        requires
            old(self).wf(),
            crate::prepared_renders(old(self).prepared@, content_width(columns)),
        ensures
            final(self).wf(),
            final(self).prepared@ == old(self).prepared@,
            final(self).cached_width == Some(content_width(columns)),
            strings_of(r.lines@) == window(strings_of(final(self).cached_lines@), rows, scroll),
            r.first_line == first_line_of(final(self).cached_lines.len() as nat, rows, scroll),
            r.max_scroll == max_scroll_of(final(self).cached_lines.len() as nat, rows),
            r.total_lines == final(self).cached_lines.len(),
            r.render_options == crate::options_at(old(self).prepared@, content_width(columns)),
            old(self).cached_width == Some(content_width(columns)) ==> final(self).cached_lines@
                == old(self).cached_lines@ && final(self).cached_at == old(self).cached_at,
            match old(self).prepared@.content {
                crate::PreparedContentV::Parsed(v, _) => r.view matches Some(c) && c@ == v && match v {
                    ContentV::Table(t) => r.table_layout matches Some(l) && (l.selected@, l.widths@, l.padding as nat)
                        == crate::render::layout_spec(t, r.render_options, now),
                    ContentV::Logs(_) => r.table_layout is None,
                },
                crate::PreparedContentV::Original(_) => r.view is None && r.table_layout is None,
            },
    {
        let width = if columns > 2 {
            columns - 1
        } else {
            1
        };
        let stale = match self.cached_width {
            Some(w) => w != width,
            None => true,
        };
        if stale {
            self.refresh(width, now);
        }
        let total = self.cached_lines.len();
        let viewport = if rows > 0 {
            rows - 1
        } else {
            0
        };
        let max_scroll = if total > viewport {
            total - viewport
        } else {
            0
        };
        let first = if scroll < max_scroll {
            scroll
        } else {
            max_scroll
        };
        let end = if first + viewport < total {
            first + viewport
        } else {
            total
        };
        let mut lines: Vec<String> = Vec::new();
        let mut i = first;
        while i < end
            invariant
                first <= i <= end <= total,
                total == self.cached_lines.len(),
                strings_of(lines@) == strings_of(self.cached_lines@).subrange(first as int, i as int),
            decreases end - i,
        {
            let ghost before = lines@;
            lines.push(crate::model::copy_string(&self.cached_lines[i]));
            assert(strings_of(lines@) =~= strings_of(before).push(self.cached_lines@[i as int]@));
            i += 1;
            assert(strings_of(lines@) =~= strings_of(self.cached_lines@).subrange(first as int, i as int));
        }
        let render_options = self.prepared.render_options_at(width);
        let (view, table_layout) = match self.prepared.parsed_view() {
            Some(v) => {
                let layout = match v {
                    Content::Table(t) => Some(crate::render::table_layout(t, &render_options, now)),
                    Content::Logs(_) => None,
                };
                (Some(v.copied()), layout)
            },
            None => (None, None),
        };
        Frame { lines, first_line: first, max_scroll, total_lines: total, view, render_options, table_layout }
    }
}

/// A whole screen: the frame's lines, blank lines below them, and the status
/// line last.
pub open spec fn screen_spec(
    lines: Seq<Seq<char>>,
    first_line: usize,
    total: usize,
    columns: usize,
    rows: usize,
    mode: Seq<char>,
    help: Seq<char>,
) -> Seq<Seq<char>> {
    Seq::new(
        rows as nat,
        |r: int|
            if r == rows - 1 {
                status_line_spec(mode, help, columns, rows, first_line, lines.len() as usize, total)
            } else if r < lines.len() {
                lines[r]
            } else {
                seq![]
            },
    )
}

pub fn screen_lines(frame: &Frame, columns: usize, rows: usize, mode: &str, help: &str) -> (r: Vec<String>)
    requires
        frame.first_line < usize::MAX,
        frame.first_line + frame.lines.len() <= usize::MAX,
    ensures
        strings_of(r@) == screen_spec(
            strings_of(frame.lines@),
            frame.first_line,
            frame.total_lines,
            columns,
            rows,
            mode@,
            help@,
        ),
{
    let ghost target = screen_spec(
        strings_of(frame.lines@),
        frame.first_line,
        frame.total_lines,
        columns,
        rows,
        mode@,
        help@,
    );
    let mut out: Vec<String> = Vec::new();
    let mut r: usize = 0;
    while r < rows
        invariant
            r <= rows,
            frame.first_line < usize::MAX,
            frame.first_line + frame.lines.len() <= usize::MAX,
            target == screen_spec(
                strings_of(frame.lines@),
                frame.first_line,
                frame.total_lines,
                columns,
                rows,
                mode@,
                help@,
            ),
            strings_of(out@) == target.take(r as int),
        decreases rows - r,
    {
        let line = if r + 1 == rows {
            status_line(mode, help, columns, rows, frame.first_line, frame.lines.len(), frame.total_lines)
        } else if r < frame.lines.len() {
            crate::model::copy_string(&frame.lines[r])
        } else {
            String::new()
        };
        assert(line@ == target[r as int]);
        let ghost before = out@;
        out.push(line);
        assert(strings_of(out@) =~= strings_of(before).push(target[r as int]));
        r += 1;
        assert(strings_of(out@) =~= target.take(r as int));
    }
    assert(target.take(rows as int) =~= target);
    out
}

// ---------------------------------------------------------------------------
// Watching
// ---------------------------------------------------------------------------

/// Whether a changed row of a table contains the pattern (compared in
/// lowercase).
pub open spec fn changed_match_spec(v: ContentV, pattern: Seq<char>) -> bool {
    match v {
        ContentV::Table(t) => table_alert(t, lowercase_of(pattern)),
        ContentV::Logs(_) => false,
    }
}

pub open spec fn table_alert(t: TableV, needle: Seq<char>) -> bool {
    exists|r: int| 0 <= r < t.rows.len() && #[trigger] row_alert(t.rows[r], needle)
}

/// A cell marked new or changed (a removed row raises no alert).
pub open spec fn raises_alert(c: CellV) -> bool {
    c.change == Some(crate::model::ChangeKind::Added) || c.change == Some(crate::model::ChangeKind::Changed)
}

/// A new or changed row that contains the needle.
pub open spec fn row_alert(row: Seq<CellV>, needle: Seq<char>) -> bool {
    (exists|k: int| 0 <= k < row.len() && raises_alert(#[trigger] row[k])) && row_has(row, needle)
}

fn row_changed(row: &Vec<Cell>) -> (r: bool)
    ensures
        r == (exists|k: int|
            0 <= k < crate::model::row_view(*row).len() && raises_alert(#[trigger] crate::model::row_view(*row)[k])),
{
    let mut k: usize = 0;
    while k < row.len()
        invariant
            k <= row.len(),
            forall|j: int| 0 <= j < k ==> !raises_alert(#[trigger] crate::model::row_view(*row)[j]),
        decreases row.len() - k,
    {
        let alerting = match row[k].change {
            Some(crate::model::ChangeKind::Added) => true,
            Some(crate::model::ChangeKind::Changed) => true,
            _ => false,
        };
        if alerting {
            assert(raises_alert(crate::model::row_view(*row)[k as int]));
            return true;
        }
        k += 1;
    }
    false
}

/// Whether a changed row contains the alert pattern.
pub fn changed_rows_match(view: &Content, pattern: &str) -> (r: bool)
    ensures
        r == changed_match_spec(view@, pattern@),
{
    match view {
        Content::Table(t) => {
            let needle = chars_of(lowercase(pattern).as_str());
            let ghost tv = t@;
            let mut r: usize = 0;
            while r < t.rows.len()
                invariant
                    r <= t.rows.len(),
                    tv == t@,
                    view@ == ContentV::Table(tv),
                    needle@ == lowercase_of(pattern@),
                    forall|q: int| 0 <= q < r ==> !#[trigger] row_alert(tv.rows[q], needle@),
                decreases t.rows.len() - r,
            {
                assert(tv.rows[r as int] == crate::model::row_view(t.rows@[r as int]));
                if row_changed(&t.rows[r]) && row_matches(&t.rows[r], &needle) {
                    assert(row_alert(tv.rows[r as int], needle@));
                    assert(table_alert(tv, needle@));
                    return true;
                }
                r += 1;
            }
            false
        },
        Content::Logs(_) => false,
    }
}

/// The recent percentages of each row and column, newest last, each kept
/// once per row key and column key, in the order first seen.
#[derive(Debug)]
pub struct Trends {
    pub entries: Vec<(String, String, Vec<u64>)>,
}

impl View for Trends {
    type V = Seq<(Seq<char>, Seq<char>, Seq<u64>)>;

    open spec fn view(&self) -> Seq<(Seq<char>, Seq<char>, Seq<u64>)> {
        self.entries@.map_values(|e: (String, String, Vec<u64>)| (e.0@, e.1@, e.2@))
    }
}

/// The last `limit` samples.
pub open spec fn kept_tail(h: Seq<u64>, limit: usize) -> Seq<u64> {
    if h.len() > limit {
        h.skip(h.len() - limit)
    } else {
        h
    }
}

/// One percentage cell: its rounded value appended to its history, the
/// history held to `limit` samples and shown as the cell's trend.
pub open spec fn cell_trend(
    tr: Seq<(Seq<char>, Seq<char>, Seq<u64>)>,
    row_key: Seq<char>,
    column_key: Seq<char>,
    cell: CellV,
    limit: usize,
) -> (Seq<(Seq<char>, Seq<char>, Seq<u64>)>, CellV) {
    match crate::number::percent_of(cell.text) {
        None => (tr, cell),
        Some(v) => {
            let h = match crate::config::pair_get(tr, row_key, column_key) {
                Some(h) => h,
                None => seq![],
            };
            let h2 = kept_tail(h.push(v as u64), limit);
            (crate::config::pair_put(tr, row_key, column_key, h2), CellV { trend: h2, ..cell })
        },
    }
}

/// The percentage cells among the first `k` of a row, updated in order.
pub open spec fn row_trends(
    tr: Seq<(Seq<char>, Seq<char>, Seq<u64>)>,
    cols: Seq<crate::model::ColumnV>,
    row: Seq<CellV>,
    row_key: Seq<char>,
    limit: usize,
    k: int,
) -> (Seq<(Seq<char>, Seq<char>, Seq<u64>)>, Seq<CellV>)
    decreases k,
{
    if k <= 0 {
        (tr, row)
    } else {
        let (tr1, row1) = row_trends(tr, cols, row, row_key, limit, k - 1);
        if k - 1 < cols.len() && cols[k - 1].value_type == crate::model::ValueType::Percentage && k - 1
            < row1.len() {
            let (tr2, c2) = cell_trend(tr1, row_key, cols[k - 1].key, row1[k - 1], limit);
            (tr2, row1.update(k - 1, c2))
        } else {
            (tr1, row1)
        }
    }
}

/// The first `n` rows of a table updated in order, each under the text of
/// its key column.
pub open spec fn table_trends(
    tr: Seq<(Seq<char>, Seq<char>, Seq<u64>)>,
    t: TableV,
    key: int,
    limit: usize,
    n: int,
) -> (Seq<(Seq<char>, Seq<char>, Seq<u64>)>, Seq<Seq<CellV>>)
    decreases n,
{
    if n <= 0 {
        (tr, seq![])
    } else {
        let (tr1, rows1) = table_trends(tr, t, key, limit, n - 1);
        let row = t.rows[n - 1];
        let (tr2, row2) = row_trends(tr1, t.columns, row, cell_text_at(row, key), limit, t.columns.len() as int);
        (tr2, rows1.push(row2))
    }
}

/// A table's percentage cells with their trends, and the histories after
/// them.
pub open spec fn trends_spec(
    v: ContentV,
    tr: Seq<(Seq<char>, Seq<char>, Seq<u64>)>,
    source: Seq<char>,
    limit: usize,
) -> (ContentV, Seq<(Seq<char>, Seq<char>, Seq<u64>)>) {
    match v {
        ContentV::Table(t) => if t.columns.len() > 0 {
            let (tr2, rows) = table_trends(
                tr,
                t,
                crate::cache::key_index_of(source, t.columns),
                limit,
                t.rows.len() as int,
            );
            (ContentV::Table(TableV { rows, ..t }), tr2)
        } else {
            (v, tr)
        },
        ContentV::Logs(_) => (v, tr),
    }
}

/// Every history holds at most `limit` samples.
pub open spec fn histories_bounded(tr: Seq<(Seq<char>, Seq<char>, Seq<u64>)>, limit: usize) -> bool {
    forall|i: int| 0 <= i < tr.len() ==> (#[trigger] tr[i]).2.len() <= limit
}

proof fn lemma_cell_trend_bounded(
    tr: Seq<(Seq<char>, Seq<char>, Seq<u64>)>,
    row_key: Seq<char>,
    column_key: Seq<char>,
    cell: CellV,
    limit: usize,
)
    requires
        histories_bounded(tr, limit),
    ensures
        histories_bounded(cell_trend(tr, row_key, column_key, cell, limit).0, limit),
{
    if let Some(v) = crate::number::percent_of(cell.text) {
        let h = match crate::config::pair_get(tr, row_key, column_key) {
            Some(h) => h,
            None => seq![],
        };
        let h2 = kept_tail(h.push(v as u64), limit);
        assert(h2.len() <= limit);
        crate::config::lemma_pair_pos_range(tr, row_key, column_key, 0);
        let out = crate::config::pair_put(tr, row_key, column_key, h2);
        assert forall|i: int| 0 <= i < out.len() implies (#[trigger] out[i]).2.len() <= limit by {
            if i < tr.len() && i != crate::config::pair_pos(tr, row_key, column_key, 0) {
                assert(out[i] == tr[i]);
            }
        }
    }
}

proof fn lemma_row_trends_bounded(
    tr: Seq<(Seq<char>, Seq<char>, Seq<u64>)>,
    cols: Seq<crate::model::ColumnV>,
    row: Seq<CellV>,
    row_key: Seq<char>,
    limit: usize,
    k: int,
)
    requires
        histories_bounded(tr, limit),
    ensures
        histories_bounded(row_trends(tr, cols, row, row_key, limit, k).0, limit),
    decreases k,
{
    if k > 0 {
        lemma_row_trends_bounded(tr, cols, row, row_key, limit, k - 1);
        let (tr1, row1) = row_trends(tr, cols, row, row_key, limit, k - 1);
        if k - 1 < cols.len() && cols[k - 1].value_type == crate::model::ValueType::Percentage && k - 1 < row1.len() {
            lemma_cell_trend_bounded(tr1, row_key, cols[k - 1].key, row1[k - 1], limit);
        }
    }
}

proof fn lemma_table_trends_bounded(
    tr: Seq<(Seq<char>, Seq<char>, Seq<u64>)>,
    t: TableV,
    key: int,
    limit: usize,
    n: int,
)
    requires
        histories_bounded(tr, limit),
    ensures
        histories_bounded(table_trends(tr, t, key, limit, n).0, limit),
    decreases n,
{
    if n > 0 {
        lemma_table_trends_bounded(tr, t, key, limit, n - 1);
        let (tr1, rows1) = table_trends(tr, t, key, limit, n - 1);
        let row = t.rows[n - 1];
        lemma_row_trends_bounded(tr1, t.columns, row, cell_text_at(row, key), limit, t.columns.len() as int);
    }
}

/// The sample histories of `watch` stay bounded: recording a view keeps
/// every history at `limit` samples or fewer.
pub proof fn lemma_histories_stay_bounded(
    v: ContentV,
    tr: Seq<(Seq<char>, Seq<char>, Seq<u64>)>,
    source: Seq<char>,
    limit: usize,
)
    requires
        histories_bounded(tr, limit),
    ensures
        histories_bounded(trends_spec(v, tr, source, limit).1, limit),
{
    if let ContentV::Table(t) = v {
        if t.columns.len() > 0 {
            lemma_table_trends_bounded(
                tr,
                t,
                crate::cache::key_index_of(source, t.columns),
                limit,
                t.rows.len() as int,
            );
        }
    }
}

/// The sample that cell `j` of a row adds: its rounded percentage, when its
/// column holds percentages.
pub open spec fn cell_sample(cols: Seq<crate::model::ColumnV>, row: Seq<CellV>, j: int) -> Option<nat> {
    if 0 <= j < cols.len() && 0 <= j < row.len() && cols[j].value_type == crate::model::ValueType::Percentage {
        crate::number::percent_of(row[j].text)
    } else {
        None
    }
}

/// A cell after recording sample `s`: only its trend changed, to at most
/// `limit` samples ending with `s`.
pub open spec fn shows_sample(out: CellV, cell: CellV, s: nat, limit: usize) -> bool {
    &&& out == CellV { trend: out.trend, ..cell }
    &&& out.trend.len() <= limit
    &&& limit > 0 ==> out.trend.len() > 0 && out.trend.last() == s as u64
}

/// Whether cell `(r, j)` of the table records a sample under row key `a`
/// and column key `b`.
pub open spec fn records_under(t: TableV, key: int, r: int, j: int, a: Seq<char>, b: Seq<char>) -> bool {
    &&& 0 <= r < t.rows.len()
    &&& cell_sample(t.columns, t.rows[r], j) is Some
    &&& cell_text_at(t.rows[r], key) == a
    &&& t.columns[j].key == b
}

/// No cell after `(r, j)`, among the first `n` rows, records a sample under
/// the same keys.
pub open spec fn last_record(t: TableV, key: int, r: int, j: int, n: int) -> bool {
    forall|r2: int, j2: int|
        r2 < n && (r2 > r || (r2 == r && j2 > j)) ==> !#[trigger] records_under(
            t,
            key,
            r2,
            j2,
            cell_text_at(t.rows[r], key),
            t.columns[j].key,
        )
}

/// Cell `(r2, j2)` comes before cell `(r, j)`, row by row.
pub open spec fn cell_before(r2: int, j2: int, r: int, j: int) -> bool {
    r2 < r || (r2 == r && j2 < j)
}

/// No cell before `(r, j)` records a sample under its keys.
pub open spec fn first_record(t: TableV, key: int, r: int, j: int) -> bool {
    forall|r2: int, j2: int|
        cell_before(r2, j2, r, j) ==> !#[trigger] records_under(
            t,
            key,
            r2,
            j2,
            cell_text_at(t.rows[r], key),
            t.columns[j].key,
        )
}

/// No cell strictly between `(r2, j2)` and `(r, j)` records a sample under
/// the keys of `(r, j)`.
pub open spec fn none_between(t: TableV, key: int, r2: int, j2: int, r: int, j: int) -> bool {
    forall|r3: int, j3: int|
        cell_before(r2, j2, r3, j3) && cell_before(r3, j3, r, j) ==> !#[trigger] records_under(
            t,
            key,
            r3,
            j3,
            cell_text_at(t.rows[r], key),
            t.columns[j].key,
        )
}

/// The history stored under a row key and column key; empty when there is
/// none.
pub open spec fn stored_history(tr: Seq<(Seq<char>, Seq<char>, Seq<u64>)>, a: Seq<char>, b: Seq<char>) -> Seq<u64> {
    match crate::config::pair_get(tr, a, b) {
        Some(h) => h,
        None => seq![],
    }
}

proof fn lemma_cell_trend_sample(
    tr: Seq<(Seq<char>, Seq<char>, Seq<u64>)>,
    row_key: Seq<char>,
    column_key: Seq<char>,
    cell: CellV,
    limit: usize,
)
    ensures
        ({
            let (tr2, c2) = cell_trend(tr, row_key, column_key, cell, limit);
            match crate::number::percent_of(cell.text) {
                None => tr2 == tr && c2 == cell,
                Some(s) => {
                    &&& shows_sample(c2, cell, s, limit)
                    &&& forall|a: Seq<char>, b: Seq<char>|
                        #[trigger] crate::config::pair_get(tr2, a, b) == if a == row_key && b == column_key {
                            Some(c2.trend)
                        } else {
                            crate::config::pair_get(tr, a, b)
                        }
                },
            }
        }),
{
    if let Some(s) = crate::number::percent_of(cell.text) {
        let (tr2, c2) = cell_trend(tr, row_key, column_key, cell, limit);
        let h = match crate::config::pair_get(tr, row_key, column_key) {
            Some(h) => h,
            None => seq![],
        };
        let h2 = h.push(s as u64);
        assert(c2.trend == kept_tail(h2, limit));
        if limit > 0 {
            if h2.len() > limit {
                assert(c2.trend.last() == h2.last());
            }
        }
        assert forall|a: Seq<char>, b: Seq<char>|
            #[trigger] crate::config::pair_get(tr2, a, b) == if a == row_key && b == column_key {
                Some(c2.trend)
            } else {
                crate::config::pair_get(tr, a, b)
            } by {
            crate::config::lemma_pair_put_get(tr, row_key, column_key, c2.trend, a, b);
        }
    }
}

proof fn lemma_row_trends_cells(
    tr: Seq<(Seq<char>, Seq<char>, Seq<u64>)>,
    cols: Seq<crate::model::ColumnV>,
    row: Seq<CellV>,
    row_key: Seq<char>,
    limit: usize,
    k: int,
)
    requires
        0 <= k,
    ensures
        ({
            let (trk, rowk) = row_trends(tr, cols, row, row_key, limit, k);
            &&& rowk.len() == row.len()
            &&& forall|j: int|
                0 <= j < row.len() && (j >= k || cell_sample(cols, row, j) is None) ==> #[trigger] rowk[j]
                    == row[j]
            &&& forall|j: int|
                0 <= j < k && #[trigger] cell_sample(cols, row, j) is Some ==> shows_sample(
                    rowk[j],
                    row[j],
                    cell_sample(cols, row, j)->0,
                    limit,
                )
            &&& forall|j: int|
                0 <= j < k && #[trigger] cell_sample(cols, row, j) is Some && (forall|j2: int|
                    j < j2 < k && #[trigger] cell_sample(cols, row, j2) is Some ==> cols[j2].key != cols[j].key)
                    ==> crate::config::pair_get(trk, row_key, cols[j].key) == Some(rowk[j].trend)
            &&& forall|a: Seq<char>, b: Seq<char>|
                (a != row_key || forall|j: int| 0 <= j < k && #[trigger] cell_sample(cols, row, j) is Some ==> cols[j].key != b)
                    ==> #[trigger] crate::config::pair_get(trk, a, b) == crate::config::pair_get(tr, a, b)
            &&& forall|j: int|
                0 <= j < k && #[trigger] cell_sample(cols, row, j) is Some && (forall|j2: int|
                    0 <= j2 < j && #[trigger] cell_sample(cols, row, j2) is Some ==> cols[j2].key != cols[j].key)
                    ==> rowk[j].trend == kept_tail(
                    stored_history(tr, row_key, cols[j].key).push((cell_sample(cols, row, j)->0) as u64),
                    limit,
                )
            &&& forall|j2: int, j: int|
                0 <= j2 < j < k && #[trigger] cell_sample(cols, row, j) is Some && #[trigger] cell_sample(cols, row, j2)
                    is Some && cols[j2].key == cols[j].key && (forall|j3: int|
                    j2 < j3 < j && #[trigger] cell_sample(cols, row, j3) is Some ==> cols[j3].key != cols[j].key)
                    ==> rowk[j].trend == kept_tail(
                    rowk[j2].trend.push((cell_sample(cols, row, j)->0) as u64),
                    limit,
                )
        }),
    decreases k,
{
    if k > 0 {
        lemma_row_trends_cells(tr, cols, row, row_key, limit, k - 1);
        let (tr1, row1) = row_trends(tr, cols, row, row_key, limit, k - 1);
        let (trk, rowk) = row_trends(tr, cols, row, row_key, limit, k);
        let j = k - 1;
        if j < cols.len() && cols[j].value_type == crate::model::ValueType::Percentage && j < row1.len() {
            assert(row1[j] == row[j]);
            lemma_cell_trend_sample(tr1, row_key, cols[j].key, row1[j], limit);
            let (tr2, c2) = cell_trend(tr1, row_key, cols[j].key, row1[j], limit);
            assert(trk == tr2 && rowk == row1.update(j, c2));
            if cell_sample(cols, row, j) is Some {
                let b = cols[j].key;
                assert(c2.trend == kept_tail(
                    stored_history(tr1, row_key, b).push((cell_sample(cols, row, j)->0) as u64),
                    limit,
                ));
                if forall|j2: int| 0 <= j2 < j && #[trigger] cell_sample(cols, row, j2) is Some ==> cols[j2].key != b {
                    assert(crate::config::pair_get(tr1, row_key, b) == crate::config::pair_get(tr, row_key, b));
                }
                assert forall|j2: int|
                    0 <= j2 < j && #[trigger] cell_sample(cols, row, j2) is Some && cols[j2].key == b && (forall|j3: int|
                        j2 < j3 < j && #[trigger] cell_sample(cols, row, j3) is Some ==> cols[j3].key != b)
                        implies rowk[j].trend == kept_tail(
                        rowk[j2].trend.push((cell_sample(cols, row, j)->0) as u64),
                        limit,
                    ) by {
                    assert(crate::config::pair_get(tr1, row_key, cols[j2].key) == Some(row1[j2].trend));
                    assert(rowk[j2] == row1[j2]);
                }
            }
        } else {
            assert(cell_sample(cols, row, j) is None);
        }
    }
}

proof fn lemma_table_trends_cells(
    tr: Seq<(Seq<char>, Seq<char>, Seq<u64>)>,
    t: TableV,
    key: int,
    limit: usize,
    n: int,
)
    requires
        0 <= n <= t.rows.len(),
    ensures
        ({
            let (trn, rows) = table_trends(tr, t, key, limit, n);
            &&& rows.len() == n
            &&& forall|r: int| 0 <= r < n ==> (#[trigger] rows[r]).len() == t.rows[r].len()
            &&& forall|r: int, j: int|
                0 <= r < n && 0 <= j < t.rows[r].len() && #[trigger] cell_sample(t.columns, t.rows[r], j) is None
                    ==> rows[r][j] == t.rows[r][j]
            &&& forall|r: int, j: int|
                0 <= r < n && #[trigger] cell_sample(t.columns, t.rows[r], j) is Some ==> shows_sample(
                    rows[r][j],
                    t.rows[r][j],
                    cell_sample(t.columns, t.rows[r], j)->0,
                    limit,
                )
            &&& forall|r: int, j: int|
                0 <= r < n && #[trigger] cell_sample(t.columns, t.rows[r], j) is Some && last_record(t, key, r, j, n)
                    ==> crate::config::pair_get(trn, cell_text_at(t.rows[r], key), t.columns[j].key) == Some(
                    rows[r][j].trend,
                )
            &&& forall|a: Seq<char>, b: Seq<char>|
                (forall|r: int, j: int| r < n ==> !#[trigger] records_under(t, key, r, j, a, b))
                    ==> #[trigger] crate::config::pair_get(trn, a, b) == crate::config::pair_get(tr, a, b)
            &&& forall|r: int, j: int|
                0 <= r < n && #[trigger] cell_sample(t.columns, t.rows[r], j) is Some && first_record(t, key, r, j)
                    ==> rows[r][j].trend == kept_tail(
                    stored_history(tr, cell_text_at(t.rows[r], key), t.columns[j].key).push(
                        (cell_sample(t.columns, t.rows[r], j)->0) as u64,
                    ),
                    limit,
                )
            &&& forall|r2: int, j2: int, r: int, j: int|
                0 <= r < n && #[trigger] cell_sample(t.columns, t.rows[r], j) is Some && cell_before(r2, j2, r, j)
                    && #[trigger] records_under(t, key, r2, j2, cell_text_at(t.rows[r], key), t.columns[j].key)
                    && none_between(t, key, r2, j2, r, j) ==> rows[r][j].trend == kept_tail(
                    rows[r2][j2].trend.push((cell_sample(t.columns, t.rows[r], j)->0) as u64),
                    limit,
                )
        }),
    decreases n,
{
    if n > 0 {
        lemma_table_trends_cells(tr, t, key, limit, n - 1);
        let (tr1, rows1) = table_trends(tr, t, key, limit, n - 1);
        let (trn, rows) = table_trends(tr, t, key, limit, n);
        let row = t.rows[n - 1];
        let rk = cell_text_at(row, key);
        let cols = t.columns;
        lemma_row_trends_cells(tr1, cols, row, rk, limit, cols.len() as int);
        let (tr2, row2) = row_trends(tr1, cols, row, rk, limit, cols.len() as int);
        assert(trn == tr2 && rows == rows1.push(row2));
        assert forall|j: int| #[trigger] cell_sample(cols, row, j) is Some implies 0 <= j < cols.len() by {}
        assert forall|r: int, j: int|
            0 <= r < n && #[trigger] cell_sample(t.columns, t.rows[r], j) is Some && last_record(t, key, r, j, n)
                implies crate::config::pair_get(trn, cell_text_at(t.rows[r], key), t.columns[j].key) == Some(
                rows[r][j].trend,
            ) by {
            let a = cell_text_at(t.rows[r], key);
            let b = t.columns[j].key;
            if r < n - 1 {
                assert(last_record(t, key, r, j, n - 1));
                assert forall|j2: int|
                    0 <= j2 < cols.len() && #[trigger] cell_sample(cols, row, j2) is Some implies !(a == rk
                        && cols[j2].key == b) by {
                    assert(!records_under(t, key, n - 1, j2, a, b));
                }
            } else {
                assert forall|j2: int|
                    j < j2 < cols.len() && #[trigger] cell_sample(cols, row, j2) is Some implies cols[j2].key
                        != cols[j].key by {
                    assert(!records_under(t, key, n - 1, j2, a, b));
                }
            }
        }
        assert forall|a: Seq<char>, b: Seq<char>|
            (forall|r: int, j: int| r < n ==> !#[trigger] records_under(t, key, r, j, a, b)) implies
            #[trigger] crate::config::pair_get(trn, a, b) == crate::config::pair_get(tr, a, b) by {
            assert forall|r: int, j: int| r < n - 1 implies !#[trigger] records_under(t, key, r, j, a, b) by {
                assert(!records_under(t, key, r, j, a, b));
            }
            assert forall|j2: int|
                0 <= j2 < cols.len() && #[trigger] cell_sample(cols, row, j2) is Some implies !(a == rk
                    && cols[j2].key == b) by {
                assert(!records_under(t, key, n - 1, j2, a, b));
            }
        }
        assert forall|j: int|
            #[trigger] cell_sample(cols, row, j) is Some && first_record(t, key, n - 1, j) implies rows[n - 1][j].trend
                == kept_tail(
                stored_history(tr, rk, cols[j].key).push((cell_sample(cols, row, j)->0) as u64),
                limit,
            ) by {
            let b = cols[j].key;
            assert forall|j2: int| 0 <= j2 < j && #[trigger] cell_sample(cols, row, j2) is Some implies cols[j2].key
                != b by {
                assert(!records_under(t, key, n - 1, j2, rk, b));
            }
            assert forall|r2: int, j2: int| r2 < n - 1 implies !#[trigger] records_under(t, key, r2, j2, rk, b) by {
                assert(cell_before(r2, j2, n - 1, j));
            }
        }
        assert forall|r2: int, j2: int, j: int|
            #[trigger] cell_sample(cols, row, j) is Some && cell_before(r2, j2, n - 1, j) && #[trigger] records_under(
                t,
                key,
                r2,
                j2,
                rk,
                cols[j].key,
            ) && none_between(t, key, r2, j2, n - 1, j) implies rows[n - 1][j].trend == kept_tail(
                rows[r2][j2].trend.push((cell_sample(cols, row, j)->0) as u64),
                limit,
            ) by {
            let b = cols[j].key;
            if r2 == n - 1 {
                assert forall|j3: int| j2 < j3 < j && #[trigger] cell_sample(cols, row, j3) is Some implies cols[j3].key
                    != b by {
                    assert(!records_under(t, key, n - 1, j3, rk, b));
                }
            } else {
                assert forall|j3: int| 0 <= j3 < j && #[trigger] cell_sample(cols, row, j3) is Some implies cols[j3].key
                    != b by {
                    assert(!records_under(t, key, n - 1, j3, rk, b));
                }
                assert forall|r3: int, j3: int|
                    r3 < n - 1 && (r3 > r2 || (r3 == r2 && j3 > j2)) implies !#[trigger] records_under(
                    t,
                    key,
                    r3,
                    j3,
                    cell_text_at(t.rows[r2], key),
                    t.columns[j2].key,
                ) by {
                    assert(cell_before(r2, j2, r3, j3) && cell_before(r3, j3, n - 1, j));
                }
                assert(last_record(t, key, r2, j2, n - 1));
                assert(crate::config::pair_get(tr1, rk, b) == Some(rows1[r2][j2].trend));
            }
        }
    }
}

/// What recording a table's percentages does, row by row: each percentage
/// cell keeps its text, style and change mark, and its trend is the history
/// under its row key and column key with its own rounded value appended and
/// cut to the last `limit` samples. That history is the trend of the
/// previous cell that recorded under the same keys, or the stored one when
/// no cell did. The last cell to record under a pair of keys leaves its
/// trend as the stored history; every other cell, and every history that no
/// cell records under, is unchanged.
pub proof fn lemma_trends_record_samples(
    t: TableV,
    tr: Seq<(Seq<char>, Seq<char>, Seq<u64>)>,
    source: Seq<char>,
    limit: usize,
)
    requires
        t.columns.len() > 0,
    ensures
        ({
            let (v2, tr2) = trends_spec(ContentV::Table(t), tr, source, limit);
            let key = crate::cache::key_index_of(source, t.columns);
            let rows = v2->Table_0.rows;
            &&& v2 == ContentV::Table(TableV { rows, ..t })
            &&& rows.len() == t.rows.len()
            &&& forall|r: int| 0 <= r < t.rows.len() ==> (#[trigger] rows[r]).len() == t.rows[r].len()
            &&& forall|r: int, j: int|
                0 <= r < t.rows.len() && 0 <= j < t.rows[r].len() && #[trigger] cell_sample(
                    t.columns,
                    t.rows[r],
                    j,
                ) is None ==> rows[r][j] == t.rows[r][j]
            &&& forall|r: int, j: int|
                0 <= r < t.rows.len() && #[trigger] cell_sample(t.columns, t.rows[r], j) is Some ==> shows_sample(
                    rows[r][j],
                    t.rows[r][j],
                    cell_sample(t.columns, t.rows[r], j)->0,
                    limit,
                )
            &&& forall|r: int, j: int|
                0 <= r < t.rows.len() && #[trigger] cell_sample(t.columns, t.rows[r], j) is Some && last_record(
                    t,
                    key,
                    r,
                    j,
                    t.rows.len() as int,
                ) ==> crate::config::pair_get(tr2, cell_text_at(t.rows[r], key), t.columns[j].key) == Some(
                    rows[r][j].trend,
                )
            &&& forall|a: Seq<char>, b: Seq<char>|
                (forall|r: int, j: int| r < t.rows.len() ==> !#[trigger] records_under(t, key, r, j, a, b))
                    ==> #[trigger] crate::config::pair_get(tr2, a, b) == crate::config::pair_get(tr, a, b)
            &&& forall|r: int, j: int|
                0 <= r < t.rows.len() && #[trigger] cell_sample(t.columns, t.rows[r], j) is Some && first_record(
                    t,
                    key,
                    r,
                    j,
                ) ==> rows[r][j].trend == kept_tail(
                    stored_history(tr, cell_text_at(t.rows[r], key), t.columns[j].key).push(
                        (cell_sample(t.columns, t.rows[r], j)->0) as u64,
                    ),
                    limit,
                )
            &&& forall|r2: int, j2: int, r: int, j: int|
                0 <= r < t.rows.len() && #[trigger] cell_sample(t.columns, t.rows[r], j) is Some && cell_before(
                    r2,
                    j2,
                    r,
                    j,
                ) && #[trigger] records_under(t, key, r2, j2, cell_text_at(t.rows[r], key), t.columns[j].key)
                    && none_between(t, key, r2, j2, r, j) ==> rows[r][j].trend == kept_tail(
                    rows[r2][j2].trend.push((cell_sample(t.columns, t.rows[r], j)->0) as u64),
                    limit,
                )
        }),
{
    let key = crate::cache::key_index_of(source, t.columns);
    lemma_table_trends_cells(tr, t, key, limit, t.rows.len() as int);
}

fn copy_samples(v: &Vec<u64>, from: usize) -> (r: Vec<u64>)
    requires
        from <= v.len(),
    ensures
        r@ == v@.skip(from as int),
{
    let mut out: Vec<u64> = Vec::new();
    let mut i = from;
    while i < v.len()
        invariant
            from <= i <= v.len(),
            out@ =~= v@.subrange(from as int, i as int),
        decreases v.len() - i,
    {
        out.push(v[i]);
        i += 1;
    }
    out
}

impl Trends {
    pub fn new() -> (r: Self)
        ensures
            r@ == Seq::<(Seq<char>, Seq<char>, Seq<u64>)>::empty(),
    {
        let t = Trends { entries: Vec::new() };
        assert(t@ =~= Seq::<(Seq<char>, Seq<char>, Seq<u64>)>::empty());
        t
    }

    fn position(&self, a: &[char], b: &[char]) -> (r: Option<usize>)
        ensures
            match r {
                Some(p) => p as int == crate::config::pair_pos(self@, a@, b@, 0) && p < self.entries.len(),
                None => crate::config::pair_pos(self@, a@, b@, 0) < 0,
            },
    {
        let mut i: usize = 0;
        while i < self.entries.len()
            invariant
                i <= self.entries.len(),
                crate::config::pair_pos(self@, a@, b@, i as int) == crate::config::pair_pos(self@, a@, b@, 0),
            decreases self.entries.len() - i,
        {
            let ka = chars_of(self.entries[i].0.as_str());
            let kb = chars_of(self.entries[i].1.as_str());
            if crate::text::eq(ka.as_slice(), a) && crate::text::eq(kb.as_slice(), b) {
                return Some(i);
            }
            i += 1;
        }
        None
    }

    /// Adds a sample to the history of a row and column, keeping the last
    /// `limit`, and returns the history.
    fn record(&mut self, row_key: &[char], column_key: &[char], v: u64, limit: usize) -> (r: Vec<u64>)
        ensures
            ({
                let h = match crate::config::pair_get(old(self)@, row_key@, column_key@) {
                    Some(h) => h,
                    None => seq![],
                };
                &&& r@ == kept_tail(h.push(v), limit)
                &&& final(self)@ == crate::config::pair_put(old(self)@, row_key@, column_key@, r@)
            }),
    {
        proof {
            crate::config::lemma_pair_pos_range(self@, row_key@, column_key@, 0);
        }
        let ghost before = self.entries@;
        match self.position(row_key, column_key) {
            Some(p) => {
                let mut h = copy_samples(&self.entries[p].2, 0);
                assert(h@ =~= self@[p as int].2);
                h.push(v);
                let from = if h.len() > limit {
                    h.len() - limit
                } else {
                    0
                };
                let kept = copy_samples(&h, from);
                assert(h@.skip(0) =~= h@);
                let copy = copy_samples(&kept, 0);
                assert(kept@.skip(0) =~= kept@);
                self.entries.set(p, (string_of(row_key), string_of(column_key), copy));
                assert(self@ =~= crate::config::pair_put(
                    before.map_values(|e: (String, String, Vec<u64>)| (e.0@, e.1@, e.2@)),
                    row_key@,
                    column_key@,
                    kept@,
                ));
                kept
            },
            None => {
                let mut h: Vec<u64> = Vec::new();
                h.push(v);
                assert(h@ =~= Seq::<u64>::empty().push(v));
                let from = if h.len() > limit {
                    h.len() - limit
                } else {
                    0
                };
                let kept = copy_samples(&h, from);
                let copy = copy_samples(&kept, 0);
                assert(kept@.skip(0) =~= kept@);
                self.entries.push((string_of(row_key), string_of(column_key), copy));
                assert(self@ =~= crate::config::pair_put(
                    before.map_values(|e: (String, String, Vec<u64>)| (e.0@, e.1@, e.2@)),
                    row_key@,
                    column_key@,
                    kept@,
                ));
                kept
            },
        }
    }
}

fn row_with_trends(
    trends: &mut Trends,
    columns: &Vec<crate::model::Column>,
    row: &Vec<Cell>,
    row_key: &[char],
    limit: usize,
) -> (r: Vec<Cell>)
    ensures
        ({
            let (tr2, row2) = row_trends(
                old(trends)@,
                columns@.map_values(|c: crate::model::Column| c@),
                crate::model::row_view(*row),
                row_key@,
                limit,
                columns.len() as int,
            );
            &&& final(trends)@ == tr2
            &&& crate::model::row_view(r) == row2
        }),
{
    let ghost cols = columns@.map_values(|c: crate::model::Column| c@);
    let mut out = crate::model::copy_row(row);
    let mut k: usize = 0;
    while k < columns.len()
        invariant
            k <= columns.len(),
            cols == columns@.map_values(|c: crate::model::Column| c@),
            ({
                let (tr1, row1) = row_trends(
                    old(trends)@,
                    cols,
                    crate::model::row_view(*row),
                    row_key@,
                    limit,
                    k as int,
                );
                &&& trends@ == tr1
                &&& crate::model::row_view(out) == row1
            }),
        decreases columns.len() - k,
    {
        let ghost before = crate::model::row_view(out);
        if columns[k].value_type == crate::model::ValueType::Percentage && k < out.len() {
            let text = chars_of(out[k].text.as_str());
            match crate::number::rounded_percent(text.as_slice()) {
                Some(v) => {
                    let key = chars_of(columns[k].key.as_str());
                    let h = trends.record(row_key, key.as_slice(), v, limit);
                    let mut c = out[k].copied();
                    c.trend = h;
                    out.set(k, c);
                    assert(crate::model::row_view(out) =~= before.update(
                        k as int,
                        CellV { trend: h@, ..before[k as int] },
                    ));
                },
                None => {},
            }
        }
        k += 1;
    }
    out
}

/// Records the percentages of a table in their histories (up to `limit`
/// samples each, per row key and column) and shows each history as its
/// cell's trend.
pub fn update_trends(view: &mut Content, trends: &mut Trends, source: &str, limit: usize)
    ensures
        (final(view)@, final(trends)@) == trends_spec(old(view)@, old(trends)@, source@, limit),
{
    if let Content::Table(table) = view {
        if table.columns.len() == 0 {
            return;
        }
        let ghost t = table@;
        let ghost tr0 = trends@;
        let key = crate::cache::key_index(source, table);
        let mut rows: Vec<Vec<Cell>> = Vec::new();
        let mut r: usize = 0;
        while r < table.rows.len()
            invariant
                r <= table.rows.len(),
                t == table@,
                key as int == crate::cache::key_index_of(source@, t.columns),
                ({
                    let (tr1, rows1) = table_trends(tr0, t, key as int, limit, r as int);
                    &&& trends@ == tr1
                    &&& rows@.map_values(|row: Vec<Cell>| crate::model::row_view(row)) == rows1
                }),
            decreases table.rows.len() - r,
        {
            let row_key: Vec<char> = if key < table.rows[r].len() {
                chars_of(table.rows[r][key].text.as_str())
            } else {
                Vec::new()
            };
            assert(t.rows[r as int] == crate::model::row_view(table.rows@[r as int]));
            assert(row_key@ =~= cell_text_at(t.rows[r as int], key as int));
            let row = row_with_trends(trends, &table.columns, &table.rows[r], row_key.as_slice(), limit);
            let ghost before = rows@;
            rows.push(row);
            assert(rows@.map_values(|row: Vec<Cell>| crate::model::row_view(row)) =~= before.map_values(
                |row: Vec<Cell>| crate::model::row_view(row),
            ).push(crate::model::row_view(row)));
            r += 1;
        }
        table.rows = rows;
    }
}

// ---------------------------------------------------------------------------
// Refreshing a watch
// ---------------------------------------------------------------------------

/// What a refresh of `watch` decided: the output to draw, the view to
/// compare the next refresh with, and whether to ring the bell.
#[derive(Debug)]
pub struct WatchRefresh {
    pub prepared: crate::PreparedOutput,
    pub current: Option<Content>,
    pub bell: bool,
}

/// The view a refresh shows: the new view marked against the previous one
/// where both were parsed, else the new view, else nothing.
pub open spec fn watch_display(previous: Option<ContentV>, current: Option<ContentV>, source: Seq<char>) -> ContentV {
    match (previous, current) {
        (Some(p), Some(c)) => crate::cache::diff_spec(p, c, source),
        (_, Some(c)) => c,
        (_, None) => ContentV::Logs(seq![]),
    }
}

/// The new view with its trends recorded, where the new output was parsed.
pub open spec fn refreshed_view(
    p: crate::PreparedV,
    tr: Seq<(Seq<char>, Seq<char>, Seq<u64>)>,
    source: Seq<char>,
    limit: usize,
) -> Option<ContentV> {
    match p.content {
        crate::PreparedContentV::Parsed(v, _) => Some(trends_spec(v, tr, source, limit).0),
        crate::PreparedContentV::Original(_) => None,
    }
}

/// The histories after a refresh.
pub open spec fn refreshed_trends(
    p: crate::PreparedV,
    tr: Seq<(Seq<char>, Seq<char>, Seq<u64>)>,
    source: Seq<char>,
    limit: usize,
) -> Seq<(Seq<char>, Seq<char>, Seq<u64>)> {
    match p.content {
        crate::PreparedContentV::Parsed(v, _) => trends_spec(v, tr, source, limit).1,
        crate::PreparedContentV::Original(_) => tr,
    }
}

/// Decides a refresh of `watch` from the previous view and the newly
/// prepared output: the new view gets its trends and is marked against the
/// previous one; the bell rings once a session, when a new or changed row
/// matches the alert pattern.
pub fn watch_refresh(
    previous: &Option<Content>,
    current: crate::PreparedOutput,
    trends: &mut Trends,
    source: &str,
    limit: usize,
    alert: Option<&str>,
    alerted: bool,
) -> (r: WatchRefresh)
    ensures
        crate::model::content_opt_view(r.current) == refreshed_view(current@, old(trends)@, source@, limit),
        final(trends)@ == refreshed_trends(current@, old(trends)@, source@, limit),
        ({
            let now = refreshed_view(current@, old(trends)@, source@, limit);
            let shown = watch_display(crate::model::content_opt_view(*previous), now, source@);
            &&& r.prepared@ == (if now is Some {
                crate::PreparedV {
                    content: crate::PreparedContentV::Parsed(
                        shown,
                        match current@.content {
                            crate::PreparedContentV::Parsed(_, o) => o,
                            crate::PreparedContentV::Original(o) => o,
                        },
                    ),
                    ..current@
                }
            } else {
                current@
            })
            &&& r.bell == (!alerted && now is Some && match alert {
                Some(p) => changed_match_spec(shown, p@),
                None => false,
            })
        }),
{
    let mut now = match current.parsed_view() {
        Some(v) => Some(v.copied()),
        None => None,
    };
    if let Some(v) = &mut now {
        update_trends(v, trends, source, limit);
    }
    match now {
        Some(v) => {
            let shown = match previous {
                Some(p) => crate::cache::diff_views(p, &v, source),
                None => v.copied(),
            };
            let bell = !alerted && match alert {
                Some(pattern) => changed_rows_match(&shown, pattern),
                None => false,
            };
            let prepared = current.with_view(shown);
            WatchRefresh { prepared, current: Some(v), bell }
        },
        None => WatchRefresh { prepared: current, current: None, bell: false },
    }
}

} // verus!

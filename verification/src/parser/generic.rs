use vstd::prelude::*;

use vstd::string::StringSliceAdditionalSpecFns;
use crate::model::{
    cell_v, column_v, Alignment, Cell, CellV, Column, ColumnV, Content, ContentV, LogRecord,
    LogRecordV, Style, TableV,
};
use crate::parser::util::{
    level_style, numeric, looks_numeric_chars, split_limit, split_limit_chars,
    style_for_level_chars,
};
use crate::text::{
    alphabetic, byte_len, byte_len_at_most, chars_of, contains_seq, copy, eq_str, find,
    find_char, has_char, is_alpha, is_alphabetic, is_ascii_alphabetic, is_ascii_alphanumeric,
    is_ascii_digit, is_ascii_lowercase, is_alnum, is_blank, is_lower, lemma_deep_chars, lines,
    lower_char, nonblank, nonblank_lines, occurs_at, slice_of, split_words, starts_with,
    string_of, to_lower_char, to_upper, trim, trim_start, trimmed, trimmed_start, upper, words,
};

verus! {

// ---------------------------------------------------------------------------
// Keys and line classification
// ---------------------------------------------------------------------------

/// A column key: ASCII letters and digits in lower case, anything else `_`.
pub open spec fn key_of(label: Seq<char>) -> Seq<char> {
    label.map_values(|c: char| if is_alnum(c) { lower_char(c) } else { '_' })
}

pub fn normalize_key(label: &[char]) -> (r: Vec<char>)
    ensures
        r@ == key_of(label@),
{
    let mut r: Vec<char> = Vec::new();
    let mut i: usize = 0;
    while i < label.len()
        invariant
            i <= label@.len(),
            r@ == key_of(label@.take(i as int)),
        decreases label@.len() - i,
    {
        let c = label[i];
        if is_ascii_alphanumeric(c) {
            r.push(to_lower_char(c));
        } else {
            r.push('_');
        }
        i += 1;
        assert(r@ =~= key_of(label@.take(i as int)));
    }
    assert(label@.take(label@.len() as int) =~= label@);
    r
}

/// A trimmed line that looks like a JSON object.
pub open spec fn json_like(t: Seq<char>) -> bool {
    t.len() > 0 && t[0] == '{' && t.last() == '}' && t.contains(':')
}

/// Leading occurrences of `c` removed.
pub open spec fn strip_start_char(s: Seq<char>, c: char) -> Seq<char>
    decreases s.len(),
{
    if s.len() > 0 && s[0] == c {
        strip_start_char(s.drop_first(), c)
    } else {
        s
    }
}

/// Trailing occurrences of `c` removed.
pub open spec fn strip_end_char(s: Seq<char>, c: char) -> Seq<char>
    decreases s.len(),
{
    if s.len() > 0 && s.last() == c {
        strip_end_char(s.drop_last(), c)
    } else {
        s
    }
}

/// Leading occurrences of `c` removed (`trim_start_matches`).
pub fn strip_leading(s: &[char], c: char) -> (r: Vec<char>)
    ensures
        r@ == strip_start_char(s@, c),
{
    let mut a: usize = 0;
    assert(s@.skip(0) =~= s@);
    while a < s.len() && s[a] == c
        invariant
            a <= s@.len(),
            strip_start_char(s@, c) == strip_start_char(s@.skip(a as int), c),
        decreases s@.len() - a,
    {
        assert(s@.skip(a as int).drop_first() =~= s@.skip(a + 1));
        a += 1;
    }
    assert(s@.skip(a as int) =~= s@.subrange(a as int, s@.len() as int));
    slice_of(s, a, s.len())
}

/// Trailing occurrences of `c` removed (`trim_end_matches`).
pub fn strip_trailing(s: &[char], c: char) -> (r: Vec<char>)
    ensures
        r@ == strip_end_char(s@, c),
{
    let mut b: usize = s.len();
    assert(s@ =~= s@.subrange(0, b as int));
    while b > 0 && s[b - 1] == c
        invariant
            b <= s@.len(),
            strip_end_char(s@, c) == strip_end_char(s@.subrange(0, b as int), c),
        decreases b,
    {
        assert(s@.subrange(0, b as int).drop_last() =~= s@.subrange(0, b - 1));
        b -= 1;
    }
    slice_of(s, 0, b)
}

pub fn strip_chars(s: &[char], lead: char, trail: char) -> (r: Vec<char>)
    ensures
        r@ == strip_end_char(strip_start_char(s@, lead), trail),
{
    let mut a: usize = 0;
    assert(s@.skip(0) =~= s@);
    while a < s.len() && s[a] == lead
        invariant
            a <= s@.len(),
            strip_start_char(s@, lead) == strip_start_char(s@.skip(a as int), lead),
        decreases s@.len() - a,
    {
        assert(s@.skip(a as int).drop_first() =~= s@.skip(a + 1));
        a += 1;
    }
    let ghost t = s@.skip(a as int);
    let mut b: usize = s.len();
    assert(t =~= s@.subrange(a as int, b as int));
    while b > a && s[b - 1] == trail
        invariant
            a <= b <= s@.len(),
            t == s@.subrange(a as int, s@.len() as int),
            strip_end_char(t, trail) == strip_end_char(s@.subrange(a as int, b as int), trail),
        decreases b,
    {
        assert(s@.subrange(a as int, b as int).drop_last() =~= s@.subrange(a as int, b - 1));
        b -= 1;
    }
    slice_of(s, a, b)
}

pub open spec fn digit_byte(b: u8) -> bool {
    48 <= b && b <= 57
}

/// The bytes of a candidate look like an ISO date (`dddd-dd-dd...`) or a
/// clock time (`dd:dd:dd...`).
pub open spec fn stamp_bytes(b: Seq<u8>) -> bool {
    ||| (b.len() >= 10 && b[4] == 45 && b[7] == 45 && forall|j: int| 0 <= j < 4 ==> digit_byte(
        #[trigger] b[j],
    ))
    ||| (b.len() >= 8 && b[2] == 58 && b[5] == 58 && forall|j: int| 0 <= j < 2 ==> digit_byte(
        #[trigger] b[j],
    ))
}

/// The timestamp that starts a line: its first word without surrounding
/// brackets, when that looks like a date or a clock time.
pub open spec fn timestamp_of(line: Seq<char>) -> Option<Seq<char>> {
    let ws = words(line);
    if ws.len() == 0 {
        None
    } else {
        let candidate = strip_end_char(strip_start_char(ws[0], '['), ']');
        if stamp_bytes(vstd::utf8::encode_utf8(candidate)) {
            Some(candidate)
        } else {
            None
        }
    }
}

pub fn extract_timestamp(line: &[char]) -> (r: Option<Vec<char>>)
    ensures
        match r {
            Some(v) => timestamp_of(line@) == Some(v@),
            None => timestamp_of(line@).is_none(),
        },
{
    let ws = split_words(line);
    if ws.len() == 0 {
        return None;
    }
    proof {
        lemma_deep_chars(&ws@[0]);
    }
    let candidate = strip_chars(ws[0].as_slice(), '[', ']');
    let text = string_of(candidate.as_slice());
    let b = text.as_str().as_bytes();
    let iso = b.len() >= 10 && b[4] == 45 && b[7] == 45 && 48 <= b[0] && b[0] <= 57 && 48 <= b[1]
        && b[1] <= 57 && 48 <= b[2] && b[2] <= 57 && 48 <= b[3] && b[3] <= 57;
    let clock = b.len() >= 8 && b[2] == 58 && b[5] == 58 && 48 <= b[0] && b[0] <= 57 && 48 <= b[1]
        && b[1] <= 57;
    assert(stamp_bytes(b@) == (iso || clock)) by {
        if b@.len() >= 10 {
            assert(forall|j: int| 0 <= j < 4 ==> #[trigger] b@[j] == b@[j]);
        }
    }
    if iso || clock {
        Some(candidate)
    } else {
        None
    }
}

pub open spec fn is_level_name(u: Seq<char>) -> bool {
    ||| u == "ERROR"@
    ||| u == "ERR"@
    ||| u == "FATAL"@
    ||| u == "CRITICAL"@
    ||| u == "WARN"@
    ||| u == "WARNING"@
    ||| u == "INFO"@
    ||| u == "NOTICE"@
    ||| u == "DEBUG"@
    ||| u == "TRACE"@
}

/// Characters other than ASCII letters removed from both ends.
pub open spec fn clean_start(s: Seq<char>) -> Seq<char>
    decreases s.len(),
{
    if s.len() > 0 && !is_alpha(s[0]) {
        clean_start(s.drop_first())
    } else {
        s
    }
}

pub open spec fn clean_end(s: Seq<char>) -> Seq<char>
    decreases s.len(),
{
    if s.len() > 0 && !is_alpha(s.last()) {
        clean_end(s.drop_last())
    } else {
        s
    }
}

pub open spec fn cleaned(s: Seq<char>) -> Seq<char> {
    clean_end(clean_start(s))
}

pub fn clean_word(s: &[char]) -> (r: Vec<char>)
    ensures
        r@ == cleaned(s@),
{
    let mut a: usize = 0;
    assert(s@.skip(0) =~= s@);
    while a < s.len() && !is_ascii_alphabetic(s[a])
        invariant
            a <= s@.len(),
            clean_start(s@) == clean_start(s@.skip(a as int)),
        decreases s@.len() - a,
    {
        assert(s@.skip(a as int).drop_first() =~= s@.skip(a + 1));
        a += 1;
    }
    let ghost t = s@.skip(a as int);
    let mut b: usize = s.len();
    assert(t =~= s@.subrange(a as int, b as int));
    while b > a && !is_ascii_alphabetic(s[b - 1])
        invariant
            a <= b <= s@.len(),
            t == s@.subrange(a as int, s@.len() as int),
            clean_end(t) == clean_end(s@.subrange(a as int, b as int)),
        decreases b,
    {
        assert(s@.subrange(a as int, b as int).drop_last() =~= s@.subrange(a as int, b - 1));
        b -= 1;
    }
    slice_of(s, a, b)
}

/// The first word (from index `i`) that names a log level once stripped of
/// non-letters, in upper case.
pub open spec fn level_from(ws: Seq<Seq<char>>, i: int) -> Option<Seq<char>>
    decreases ws.len() - i,
{
    if i < 0 || i >= ws.len() {
        None
    } else if is_level_name(upper(cleaned(ws[i]))) {
        Some(upper(cleaned(ws[i])))
    } else {
        level_from(ws, i + 1)
    }
}

pub open spec fn level_of(line: Seq<char>) -> Option<Seq<char>> {
    level_from(words(line), 0)
}

pub fn is_level_name_chars(u: &[char]) -> (r: bool)
    ensures
        r == is_level_name(u@),
{
    eq_str(u, "ERROR") || eq_str(u, "ERR") || eq_str(u, "FATAL") || eq_str(u, "CRITICAL")
        || eq_str(u, "WARN") || eq_str(u, "WARNING") || eq_str(u, "INFO") || eq_str(u, "NOTICE")
        || eq_str(u, "DEBUG") || eq_str(u, "TRACE")
}

pub fn extract_level(line: &[char]) -> (r: Option<Vec<char>>)
    ensures
        match r {
            Some(v) => level_of(line@) == Some(v@),
            None => level_of(line@).is_none(),
        },
{
    let ws = split_words(line);
    let mut i: usize = 0;
    while i < ws.len()
        invariant
            i <= ws@.len(),
            ws.deep_view() == words(line@),
            level_of(line@) == level_from(ws.deep_view(), i as int),
        decreases ws@.len() - i,
    {
        proof {
            lemma_deep_chars(&ws@[i as int]);
        }
        let c = clean_word(ws[i].as_slice());
        let u = to_upper(c.as_slice());
        if is_level_name_chars(u.as_slice()) {
            return Some(u);
        }
        i += 1;
    }
    None
}

pub fn is_json_like(t: &[char]) -> (r: bool)
    ensures
        r == json_like(t@),
{
    t.len() > 0 && t[0] == '{' && t[t.len() - 1] == '}' && has_char(t, ':')
}

/// A line that looks like a log record: a JSON object, or a line with a
/// leading timestamp or a log level word.
pub open spec fn log_like(line: Seq<char>) -> bool {
    let t = trim(line);
    json_like(t) || timestamp_of(t).is_some() || level_of(t).is_some()
}

pub fn log_like_exec(line: &[char]) -> (r: bool)
    ensures
        r == log_like(line@),
{
    let t = trimmed(line);
    let t = t.as_slice();
    is_json_like(t) || extract_timestamp(t).is_some() || extract_level(t).is_some()
}

/// Whether a line looks like a log record.
pub fn looks_like_log(line: &str) -> (r: bool)
    ensures
        r == log_like(line@),
{
    let v = chars_of(line);
    log_like_exec(v.as_slice())
}

/// Whether a line looks like a `key: value` pair.
pub fn looks_like_key_value(line: &str) -> (r: bool)
    ensures
        r == kv_like(line@),
{
    let v = chars_of(line);
    kv_like_exec(v.as_slice())
}

/// `line.split_once(':')`: the text before and after the first colon.
pub open spec fn split_colon(line: Seq<char>) -> Option<(Seq<char>, Seq<char>)> {
    if line.contains(':') {
        let i = choose|i: int| 0 <= i < line.len() && line[i] == ':' && forall|j: int|
            0 <= j < i ==> line[j] != ':';
        Some((line.take(i), line.skip(i + 1)))
    } else {
        None
    }
}

pub fn split_once_colon(line: &[char]) -> (r: Option<(Vec<char>, Vec<char>)>)
    ensures
        match r {
            Some((a, b)) => split_colon(line@) == Some((a@, b@)),
            None => split_colon(line@).is_none(),
        },
{
    match find_char(line, ':') {
        Some(i) => {
            assert(i < line.len());
            let a = slice_of(line, 0, i);
            let b = slice_of(line, i + 1, line.len());
            proof {
                assert(line@.contains(':')) by {
                    assert(line@[i as int] == ':');
                }
                let k = choose|k: int| 0 <= k < line@.len() && line@[k] == ':' && forall|j: int|
                    0 <= j < k ==> line@[j] != ':';
                assert(k == i) by {
                    if k < i {
                    } else if k > i {
                        assert(line@[i as int] == ':');
                    }
                }
                assert(a@ =~= line@.take(i as int));
                assert(b@ =~= line@.skip(i + 1));
            }
            Some((a, b))
        },
        None => {
            assert(!line@.contains(':'));
            None
        },
    }
}

/// A `key: value` line whose key is short and starts with a letter.
pub open spec fn kv_like(line: Seq<char>) -> bool {
    match split_colon(line) {
        Some((k, v)) => {
            let key = trim(k);
            &&& key.len() > 0
            &&& trim(v).len() > 0
            &&& byte_len(key) <= 40
            &&& alphabetic(key[0])
        },
        None => false,
    }
}

pub fn kv_like_exec(line: &[char]) -> (r: bool)
    ensures
        r == kv_like(line@),
{
    match split_once_colon(line) {
        Some((k, v)) => {
            let key = trimmed(k.as_slice());
            let value = trimmed(v.as_slice());
            key.len() > 0 && value.len() > 0 && byte_len_at_most(key.as_slice(), 40)
                && is_alphabetic(key[0])
        },
        None => false,
    }
}

// ---------------------------------------------------------------------------
// Counting lines
// ---------------------------------------------------------------------------

pub open spec fn count_kv(ls: Seq<Seq<char>>) -> nat
    decreases ls.len(),
{
    if ls.len() == 0 {
        0
    } else {
        count_kv(ls.drop_last()) + if kv_like(ls.last()) {
            1nat
        } else {
            0nat
        }
    }
}

pub open spec fn count_log(ls: Seq<Seq<char>>) -> nat
    decreases ls.len(),
{
    if ls.len() == 0 {
        0
    } else {
        count_log(ls.drop_last()) + if log_like(ls.last()) {
            1nat
        } else {
            0nat
        }
    }
}

/// Lines that split into at least two of at most `n` fields.
pub open spec fn count_structured(ls: Seq<Seq<char>>, n: int) -> nat
    decreases ls.len(),
{
    if ls.len() == 0 {
        0
    } else {
        count_structured(ls.drop_last(), n) + if split_limit(ls.last(), n).len() >= 2 {
            1nat
        } else {
            0nat
        }
    }
}

/// A header word with a letter and no lower-case ASCII letter.
pub open spec fn upper_word(w: Seq<char>) -> bool {
    (exists|j: int| 0 <= j < w.len() && alphabetic(#[trigger] w[j])) && forall|j: int|
        0 <= j < w.len() ==> !is_lower(#[trigger] w[j])
}

pub open spec fn count_upper(ws: Seq<Seq<char>>) -> nat
    decreases ws.len(),
{
    if ws.len() == 0 {
        0
    } else {
        count_upper(ws.drop_last()) + if upper_word(ws.last()) {
            1nat
        } else {
            0nat
        }
    }
}

pub proof fn lemma_count_kv_le(ls: Seq<Seq<char>>)
    ensures
        count_kv(ls) <= ls.len(),
    decreases ls.len(),
{
    if ls.len() > 0 {
        lemma_count_kv_le(ls.drop_last());
    }
}

pub fn count_key_values(ls: &Vec<Vec<char>>) -> (r: usize)
    ensures
        r == count_kv(ls.deep_view()),
{
    let mut n: usize = 0;
    let mut i: usize = 0;
    while i < ls.len()
        invariant
            i <= ls@.len(),
            n == count_kv(ls.deep_view().take(i as int)),
            n <= i,
        decreases ls@.len() - i,
    {
        assert(ls.deep_view().take(i + 1).drop_last() =~= ls.deep_view().take(i as int));
        proof {
            lemma_deep_chars(&ls@[i as int]);
        }
        if kv_like_exec(ls[i].as_slice()) {
            n += 1;
        }
        i += 1;
    }
    assert(ls.deep_view().take(ls@.len() as int) =~= ls.deep_view());
    n
}

pub fn count_logs(ls: &Vec<Vec<char>>) -> (r: usize)
    ensures
        r == count_log(ls.deep_view()),
{
    let mut n: usize = 0;
    let mut i: usize = 0;
    while i < ls.len()
        invariant
            i <= ls@.len(),
            n == count_log(ls.deep_view().take(i as int)),
            n <= i,
        decreases ls@.len() - i,
    {
        assert(ls.deep_view().take(i + 1).drop_last() =~= ls.deep_view().take(i as int));
        proof {
            lemma_deep_chars(&ls@[i as int]);
        }
        if log_like_exec(ls[i].as_slice()) {
            n += 1;
        }
        i += 1;
    }
    assert(ls.deep_view().take(ls@.len() as int) =~= ls.deep_view());
    n
}

pub fn is_upper_word(w: &[char]) -> (r: bool)
    ensures
        r == upper_word(w@),
{
    let mut any_alpha = false;
    let mut i: usize = 0;
    while i < w.len()
        invariant
            i <= w@.len(),
            any_alpha == exists|j: int| 0 <= j < i && alphabetic(#[trigger] w@[j]),
            forall|j: int| 0 <= j < i ==> !is_lower(#[trigger] w@[j]),
        decreases w@.len() - i,
    {
        if is_ascii_lowercase(w[i]) {
            return false;
        }
        if is_alphabetic(w[i]) {
            any_alpha = true;
        }
        i += 1;
    }
    any_alpha
}

// ---------------------------------------------------------------------------
// Log records
// ---------------------------------------------------------------------------

pub open spec fn is_level_sep(c: char) -> bool {
    c == ' ' || c == '\t' || c == ':' || c == '-' || c == ']' || c == '['
}

pub open spec fn strip_level_sep(s: Seq<char>) -> Seq<char>
    decreases s.len(),
{
    if s.len() > 0 && is_level_sep(s[0]) {
        strip_level_sep(s.drop_first())
    } else {
        s
    }
}

/// The first position of `p` in `s`, if any.
#[verifier::opaque]
pub open spec fn first_occurrence(s: Seq<char>, p: Seq<char>) -> Option<int> {
    if contains_seq(s, p) {
        Some(
            choose|i: int| occurs_at(s, p, i) && forall|j: int| 0 <= j < i ==> !occurs_at(s, p, j),
        )
    } else {
        None
    }
}

/// The message of a log line once the timestamp and the level are removed.
pub open spec fn log_message(t: Seq<char>, ts: Option<Seq<char>>, lv: Option<Seq<char>>) -> Seq<char> {
    let m1 = match ts {
        Some(x) => if starts_with(t, x) {
            trim_start(t.skip(x.len() as int))
        } else {
            trim_start(t)
        },
        None => t,
    };
    match lv {
        Some(l) => match first_occurrence(upper(m1), l) {
            Some(pos) => strip_level_sep(m1.skip(pos + l.len())),
            None => m1,
        },
        None => m1,
    }
}

/// The record of one log line.
pub open spec fn log_record(line: Seq<char>) -> LogRecordV {
    let t = trim(line);
    if json_like(t) {
        LogRecordV { timestamp: None, level: Some("JSON"@), message: t, style: Style::Info }
    } else {
        let ts = timestamp_of(t);
        let lv = level_of(t);
        LogRecordV {
            timestamp: ts,
            level: lv,
            message: log_message(t, ts, lv),
            style: match lv {
                Some(l) => level_style(l),
                None => Style::Plain,
            },
        }
    }
}

pub fn first_occurrence_exec(s: &[char], p: &[char]) -> (r: Option<usize>)
    ensures
        match r {
            Some(i) => first_occurrence(s@, p@) == Some(i as int) && occurs_at(s@, p@, i as int),
            None => first_occurrence(s@, p@).is_none(),
        },
{
    reveal(first_occurrence);
    match find(s, p) {
        Some(i) => {
            proof {
                let k = choose|k: int| occurs_at(s@, p@, k) && forall|j: int|
                    0 <= j < k ==> !occurs_at(s@, p@, j);
                assert(k == i as int) by {
                    if k < i {
                    } else if k > i {
                    }
                }
            }
            Some(i)
        },
        None => None,
    }
}

/// The line without a leading timestamp, trimmed at the start.
fn without_timestamp(t: &[char], ts: &Option<Vec<char>>) -> (m: Vec<char>)
    ensures
        m@ == match ts {
            Some(x) => if starts_with(t@, x@) {
                trim_start(t@.skip(x@.len() as int))
            } else {
                trim_start(t@)
            },
            None => t@,
        },
{
    match ts {
        Some(x) => {
            if x.len() <= t.len() && crate::text::eq(slice_of(t, 0, x.len()).as_slice(), x.as_slice()) {
                assert(t@.take(x@.len() as int) =~= t@.subrange(0, x@.len() as int));
                let rest = slice_of(t, x.len(), t.len());
                assert(rest@ =~= t@.skip(x@.len() as int));
                trimmed_start(rest.as_slice())
            } else {
                proof {
                    if x@.len() <= t@.len() {
                        assert(t@.take(x@.len() as int) =~= t@.subrange(0, x@.len() as int));
                    }
                }
                trimmed_start(t)
            }
        },
        None => copy(t),
    }
}

fn skip_level_seps(m1: &[char], after: usize) -> (m: Vec<char>)
    requires
        after <= m1@.len(),
    ensures
        m@ == strip_level_sep(m1@.skip(after as int)),
{
    let mut k = after;
    assert(m1@.skip(after as int) =~= m1@.subrange(after as int, m1@.len() as int));
    while k < m1.len() && (m1[k] == ' ' || m1[k] == '\t' || m1[k] == ':' || m1[k] == '-' || m1[k]
        == ']' || m1[k] == '[')
        invariant
            after <= k <= m1@.len(),
            strip_level_sep(m1@.skip(after as int)) == strip_level_sep(
                m1@.subrange(k as int, m1@.len() as int),
            ),
        decreases m1@.len() - k,
    {
        assert(m1@.subrange(k as int, m1@.len() as int).drop_first() =~= m1@.subrange(
            k + 1,
            m1@.len() as int,
        ));
        k += 1;
    }
    slice_of(m1, k, m1.len())
}

/// The text after the first occurrence of the level, without separators.
fn without_level(m1: &[char], lv: &Option<Vec<char>>) -> (m: Vec<char>)
    ensures
        m@ == match lv {
            Some(l) => match first_occurrence(upper(m1@), l@) {
                Some(pos) => strip_level_sep(m1@.skip(pos + l@.len())),
                None => m1@,
            },
            None => m1@,
        },
{
    match lv {
        Some(l) => {
            let upper_m = to_upper(m1);
            match first_occurrence_exec(upper_m.as_slice(), l.as_slice()) {
                Some(pos) => {
                    assert(upper_m@.len() == m1@.len());
                    assert(occurs_at(upper_m@, l@, pos as int));
                    assert(pos + l@.len() <= m1.len());
                    skip_level_seps(m1, pos + l.len())
                },
                None => copy(m1),
            }
        },
        None => copy(m1),
    }
}

fn opt_string(o: Option<Vec<char>>) -> (r: Option<String>)
    ensures
        crate::model::opt_view(r) == match o {
            Some(v) => Some(v@),
            None => None::<Seq<char>>,
        },
{
    match o {
        Some(x) => Some(string_of(x.as_slice())),
        None => None,
    }
}

pub fn parse_log_line(line: &[char]) -> (r: LogRecord)
    ensures
        r@ == log_record(line@),
{
    let t = trimmed(line);
    if is_json_like(t.as_slice()) {
        return LogRecord {
            timestamp: None,
            level: Some("JSON".to_owned()),
            message: string_of(t.as_slice()),
            style: Style::Info,
        };
    }
    let ts = extract_timestamp(t.as_slice());
    let lv = extract_level(t.as_slice());
    let style = match &lv {
        Some(l) => style_for_level_chars(l.as_slice()),
        None => Style::Plain,
    };
    let m1 = without_timestamp(t.as_slice(), &ts);
    let message = without_level(m1.as_slice(), &lv);
    let r = LogRecord {
        timestamp: opt_string(ts),
        level: opt_string(lv),
        message: string_of(message.as_slice()),
        style,
    };
    r
}

// ---------------------------------------------------------------------------
// Building cells
// ---------------------------------------------------------------------------

pub open spec fn cells_v(texts: Seq<Seq<char>>, style: Style) -> Seq<CellV> {
    texts.map_values(|t: Seq<char>| cell_v(t, style))
}

/// One cell of the given style per text.
pub fn cells_of(texts: &Vec<Vec<char>>, style: Style) -> (r: Vec<Cell>)
    ensures
        crate::model::row_view(r) == cells_v(texts.deep_view(), style),
{
    let mut out: Vec<Cell> = Vec::new();
    let mut i: usize = 0;
    while i < texts.len()
        invariant
            i <= texts@.len(),
            crate::model::row_view(out) == cells_v(texts.deep_view().take(i as int), style),
        decreases texts@.len() - i,
    {
        proof {
            lemma_deep_chars(&texts@[i as int]);
        }
        let c = Cell::from_chars(texts[i].as_slice(), style);
        let ghost before = crate::model::row_view(out);
        out.push(c);
        assert(crate::model::row_view(out) =~= before.push(c@));
        i += 1;
        assert(cells_v(texts.deep_view().take(i as int), style) =~= cells_v(
            texts.deep_view().take(i - 1),
            style,
        ).push(c@));
    }
    assert(texts.deep_view().take(texts@.len() as int) =~= texts.deep_view());
    out
}

pub open spec fn rows_view(rows: Seq<Vec<Cell>>) -> Seq<Seq<CellV>> {
    rows.map_values(|r: Vec<Cell>| crate::model::row_view(r))
}

pub proof fn lemma_rows_push(rows: Seq<Vec<Cell>>, r: Vec<Cell>)
    ensures
        rows_view(rows.push(r)) == rows_view(rows).push(crate::model::row_view(r)),
{
    assert(rows_view(rows.push(r)) =~= rows_view(rows).push(crate::model::row_view(r)));
}

pub proof fn lemma_table_view(t: crate::model::Table)
    ensures
        t@.rows == rows_view(t.rows@),
        t@.columns == t.columns@.map_values(|c: Column| c@),
{
    assert(t@.rows =~= rows_view(t.rows@));
}

// ---------------------------------------------------------------------------
// Aligned tables with an upper-case header
// ---------------------------------------------------------------------------

/// The fields of a data line spread over `n` columns: a single field
/// continues the last column, otherwise missing fields are empty.
pub open spec fn expand_row(fields: Seq<Seq<char>>, n: int) -> Seq<Seq<char>> {
    if fields.len() == 1 {
        Seq::new(n as nat, |k: int| if k == n - 1 { fields[0] } else { seq![] })
    } else {
        Seq::new(n as nat, |k: int| if k < fields.len() { fields[k] } else { seq![] })
    }
}

/// Every data line has a field, and the first one has at least two.
pub open spec fn generic_rows_ok(ls: Seq<Seq<char>>, n: int) -> bool {
    forall|i: int|
        1 <= i < ls.len() ==> {
            &&& #[trigger] split_limit(ls[i], n).len() >= 1
            &&& (i == 1 ==> split_limit(ls[i], n).len() >= 2)
        }
}

pub open spec fn generic_text_rows(ls: Seq<Seq<char>>, n: int) -> Seq<Seq<Seq<char>>> {
    Seq::new((ls.len() - 1) as nat, |i: int| expand_row(split_limit(ls[i + 1], n), n))
}

/// All non-empty values of column `k` look numeric.
pub open spec fn numeric_column(rows: Seq<Seq<Seq<char>>>, k: int) -> bool {
    forall|r: int| 0 <= r < rows.len() && (#[trigger] rows[r])[k].len() > 0 ==> numeric(rows[r][k])
}

pub open spec fn generic_column(label: Seq<char>, k: int, is_numeric: bool) -> ColumnV {
    column_v(
        key_of(label),
        label,
        if k == 0 {
            0u8
        } else if k < 3 {
            k as u8
        } else {
            3u8
        },
        if is_numeric {
            Alignment::Right
        } else {
            Alignment::Left
        },
    )
}

/// The table read from an aligned listing whose first line holds the labels.
pub open spec fn generic_table_parse(input: Seq<char>) -> Option<ContentV> {
    let ls = nonblank(lines(input));
    if ls.len() == 0 {
        None
    } else {
        let labels = words(ls[0]);
        let n = labels.len() as int;
        if n < 2 || !generic_rows_ok(ls, n) {
            None
        } else {
            let rows = generic_text_rows(ls, n);
            if count_structured(ls.skip(1), n) * 5 < rows.len() * 3 || rows.len() == 0 {
                None
            } else {
                Some(
                    ContentV::Table(
                        TableV {
                            columns: Seq::new(
                                n as nat,
                                |k: int| generic_column(labels[k], k, numeric_column(rows, k)),
                            ),
                            rows: rows.map_values(|r: Seq<Seq<char>>| cells_v(r, Style::Plain)),
                            prelude: seq![],
                        },
                    ),
                )
            }
        }
    }
}

/// Whether the first lines look like an aligned table: an upper-case header
/// and mostly lines of two or more fields, and neither logs nor `key: value`
/// lines.
pub open spec fn generic_table_detect(fl: Seq<char>) -> bool {
    let ls = nonblank(lines(fl));
    if ls.len() < 2 {
        false
    } else if log_like(ls[0]) || count_kv(ls) * 4 >= ls.len() * 3 {
        false
    } else {
        let hw = words(ls[0]);
        if count_upper(hw) * 2 < hw.len() || hw.len() < 2 {
            false
        } else {
            let structured = count_structured(ls.skip(1), hw.len() as int);
            structured > 0 && structured * 5 >= (ls.len() - 1) * 3
        }
    }
}

pub fn count_upper_words(ws: &Vec<Vec<char>>) -> (r: usize)
    ensures
        r == count_upper(ws.deep_view()),
{
    let mut n: usize = 0;
    let mut i: usize = 0;
    while i < ws.len()
        invariant
            i <= ws@.len(),
            n == count_upper(ws.deep_view().take(i as int)),
            n <= i,
        decreases ws@.len() - i,
    {
        assert(ws.deep_view().take(i + 1).drop_last() =~= ws.deep_view().take(i as int));
        proof {
            lemma_deep_chars(&ws@[i as int]);
        }
        if is_upper_word(ws[i].as_slice()) {
            n += 1;
        }
        i += 1;
    }
    assert(ws.deep_view().take(ws@.len() as int) =~= ws.deep_view());
    n
}

/// The number of lines from index 1 on that split into two or more fields.
pub fn count_structured_after_first(ls: &Vec<Vec<char>>, n: usize) -> (r: usize)
    requires
        ls@.len() >= 1,
    ensures
        r == count_structured(ls.deep_view().skip(1), n as int),
        r <= ls@.len() - 1,
{
    let mut count: usize = 0;
    let mut i: usize = 1;
    while i < ls.len()
        invariant
            1 <= i <= ls@.len(),
            count == count_structured(ls.deep_view().skip(1).take(i - 1), n as int),
            count <= i - 1,
        decreases ls@.len() - i,
    {
        assert(ls.deep_view().skip(1).take(i as int).drop_last() =~= ls.deep_view().skip(1).take(
            i - 1,
        ));
        assert(ls.deep_view().skip(1).take(i as int).last() == ls.deep_view()[i as int]);
        proof {
            lemma_deep_chars(&ls@[i as int]);
        }
        let fields = split_limit_chars(ls[i].as_slice(), n);
        if fields.len() >= 2 {
            count += 1;
        }
        i += 1;
    }
    assert(ls.deep_view().skip(1).take(ls@.len() - 1) =~= ls.deep_view().skip(1));
    count
}

pub fn generic_table_detect_exec(first_lines: &[char]) -> (r: bool)
    ensures
        r == generic_table_detect(first_lines@),
{
    let ls = nonblank_lines(first_lines);
    if ls.len() < 2 {
        return false;
    }
    let kv = count_key_values(&ls);
    proof {
        lemma_deep_chars(&ls@[0]);
    }
    if log_like_exec(ls[0].as_slice()) || (kv as u128) * 4 >= (ls.len() as u128) * 3 {
        return false;
    }
    let hw = split_words(ls[0].as_slice());
    let upper_count = count_upper_words(&hw);
    if (upper_count as u128) * 2 < (hw.len() as u128) || hw.len() < 2 {
        return false;
    }
    let structured = count_structured_after_first(&ls, hw.len());
    structured > 0 && (structured as u128) * 5 >= ((ls.len() - 1) as u128) * 3
}

/// The data rows of an aligned listing, with the number of lines of two or
/// more fields.
fn generic_text_rows_exec(ls: &Vec<Vec<char>>, n: usize) -> (r: Option<Vec<Vec<Vec<char>>>>)
    requires
        ls@.len() >= 1,
        n >= 2,
    ensures
        match r {
            Some(rows) => generic_rows_ok(ls.deep_view(), n as int) && rows@.len() == ls@.len() - 1
                && forall|i: int| 0 <= i < rows@.len() ==> (#[trigger] rows@[i]).deep_view() == generic_text_rows(ls.deep_view(), n as int)[i],
            None => !generic_rows_ok(ls.deep_view(), n as int),
        },
{
    let mut rows: Vec<Vec<Vec<char>>> = Vec::new();
    let mut i: usize = 1;
    while i < ls.len()
        invariant
            1 <= i <= ls@.len(),
            n >= 2,
            rows@.len() == i - 1,
            forall|j: int| 1 <= j < i ==> {
                &&& #[trigger] split_limit(ls.deep_view()[j], n as int).len() >= 1
                &&& (j == 1 ==> split_limit(ls.deep_view()[j], n as int).len() >= 2)
            },
            forall|j: int| 0 <= j < rows@.len() ==> (#[trigger] rows@[j]).deep_view() == generic_text_rows(ls.deep_view(), n as int)[j],
        decreases ls@.len() - i,
    {
        proof {
            lemma_deep_chars(&ls@[i as int]);
        }
        let mut fields = split_limit_chars(ls[i].as_slice(), n);
        let populated = fields.len();
        if populated == 0 || (populated == 1 && i == 1) {
            proof {
                let j = i as int;
                assert(split_limit(ls.deep_view()[j], n as int).len() == populated);
                assert(!(split_limit(ls.deep_view()[j], n as int).len() >= 1 && (j == 1 ==> split_limit(ls.deep_view()[j], n as int).len() >= 2)));
            }
            return None;
        }
        let ghost fv = fields.deep_view();
        let mut row: Vec<Vec<char>> = Vec::new();
        let mut k: usize = 0;
        while k < n
            invariant
                k <= n,
                n >= 2,
                populated == fv.len(),
                populated >= 1,
                fields.deep_view() == fv,
                row@.len() == k,
                forall|m: int| 0 <= m < k ==> (#[trigger] row@[m])@ == expand_row(fv, n as int)[m],
            decreases n - k,
        {
            let value: Vec<char> = if populated == 1 {
                if k == n - 1 {
                    proof { lemma_deep_chars(&fields@[0]); }
                    copy(fields[0].as_slice())
                } else {
                    Vec::new()
                }
            } else if k < populated {
                proof { lemma_deep_chars(&fields@[k as int]); }
                copy(fields[k].as_slice())
            } else {
                Vec::new()
            };
            row.push(value);
            k += 1;
        }
        proof {
            assert(row.deep_view() =~= expand_row(fv, n as int)) by {
                assert forall|m: int| 0 <= m < n implies row.deep_view()[m] == expand_row(fv, n as int)[m] by {
                    lemma_deep_chars(&row@[m]);
                }
            }
        }
        rows.push(row);
        i += 1;
    }
    proof {
        assert(generic_rows_ok(ls.deep_view(), n as int));
    }
    Some(rows)
}

fn is_numeric_column(rows: &Vec<Vec<Vec<char>>>, k: usize, n: usize) -> (r: bool)
    requires
        k < n,
        forall|i: int| 0 <= i < rows@.len() ==> (#[trigger] rows@[i])@.len() == n,
    ensures
        r == numeric_column(Seq::new(rows@.len(), |i: int| rows@[i].deep_view()), k as int),
{
    let ghost rs = Seq::new(rows@.len(), |i: int| rows@[i].deep_view());
    let mut i: usize = 0;
    while i < rows.len()
        invariant
            i <= rows@.len(),
            k < n,
            forall|j: int| 0 <= j < rows@.len() ==> (#[trigger] rows@[j])@.len() == n,
            rs == Seq::new(rows@.len(), |j: int| rows@[j].deep_view()),
            forall|r: int| 0 <= r < i && (#[trigger] rs[r])[k as int].len() > 0 ==> numeric(rs[r][k as int]),
        decreases rows@.len() - i,
    {
        proof {
            lemma_deep_chars(&rows@[i as int]@[k as int]);
            assert(rs[i as int][k as int] == rows@[i as int]@[k as int]@);
        }
        let cell = &rows[i][k];
        if cell.len() > 0 && !looks_numeric_chars(cell.as_slice()) {
            return false;
        }
        i += 1;
    }
    true
}

pub fn generic_table_parse_exec(input: &[char]) -> (r: Option<Content>)
    ensures
        crate::model::content_opt_view(r) == generic_table_parse(input@),
{
    let ls = nonblank_lines(input);
    if ls.len() == 0 {
        return None;
    }
    proof {
        lemma_deep_chars(&ls@[0]);
    }
    let labels = split_words(ls[0].as_slice());
    let n = labels.len();
    if n < 2 {
        return None;
    }
    let text_rows = match generic_text_rows_exec(&ls, n) {
        Some(rows) => rows,
        None => return None,
    };
    let ghost spec_rows = generic_text_rows(ls.deep_view(), n as int);
    assert(spec_rows.len() == text_rows@.len());
    assert forall|i: int| 0 <= i < text_rows@.len() implies (#[trigger] text_rows@[i])@.len() == n by {
        assert(text_rows@[i].deep_view() == spec_rows[i]);
        assert(text_rows@[i].deep_view().len() == n);
    }
    let structured = count_structured_after_first(&ls, n);
    if (structured as u128) * 5 < (text_rows.len() as u128) * 3 || text_rows.len() == 0 {
        return None;
    }
    let ghost rs = Seq::new(text_rows@.len(), |i: int| text_rows@[i].deep_view());
    assert(rs =~= spec_rows);
    let mut columns: Vec<Column> = Vec::new();
    let mut k: usize = 0;
    while k < n
        invariant
            k <= n,
            n == labels@.len(),
            labels.deep_view() == words(ls.deep_view()[0]),
            rs == spec_rows,
            rs == Seq::new(text_rows@.len(), |i: int| text_rows@[i].deep_view()),
            forall|i: int| 0 <= i < text_rows@.len() ==> (#[trigger] text_rows@[i])@.len() == n,
            columns@.len() == k,
            forall|m: int| 0 <= m < k ==> (#[trigger] columns@[m])@ == generic_column(
                labels.deep_view()[m],
                m,
                numeric_column(spec_rows, m),
            ),
        decreases n - k,
    {
        proof {
            lemma_deep_chars(&labels@[k as int]);
        }
        let numeric_col = is_numeric_column(&text_rows, k, n);
        let key = normalize_key(labels[k].as_slice());
        let priority: u8 = if k == 0 {
            0
        } else if k < 3 {
            k as u8
        } else {
            3
        };
        let alignment = if numeric_col {
            Alignment::Right
        } else {
            Alignment::Left
        };
        columns.push(Column::from_chars(key.as_slice(), labels[k].as_slice(), priority, alignment));
        k += 1;
    }
    let mut rows: Vec<Vec<Cell>> = Vec::new();
    let mut i: usize = 0;
    while i < text_rows.len()
        invariant
            i <= text_rows@.len(),
            rs == spec_rows,
            rs == Seq::new(text_rows@.len(), |j: int| text_rows@[j].deep_view()),
            rows_view(rows@) == spec_rows.take(i as int).map_values(|r: Seq<Seq<char>>| cells_v(r, Style::Plain)),
        decreases text_rows@.len() - i,
    {
        let row = cells_of(&text_rows[i], Style::Plain);
        proof {
            lemma_rows_push(rows@, row);
        }
        rows.push(row);
        i += 1;
        assert(spec_rows.take(i as int).map_values(|r: Seq<Seq<char>>| cells_v(r, Style::Plain))
            =~= spec_rows.take(i - 1).map_values(|r: Seq<Seq<char>>| cells_v(r, Style::Plain)).push(
            cells_v(spec_rows[i - 1], Style::Plain),
        ));
    }
    assert(spec_rows.take(text_rows@.len() as int) =~= spec_rows);
    let table = crate::model::Table { columns, rows, prelude: Vec::new() };
    proof {
        lemma_table_view(table);
        let expected = Seq::new(
            n as nat,
            |k: int| generic_column(labels.deep_view()[k], k, numeric_column(spec_rows, k)),
        );
        assert(table@.columns =~= expected);
        assert(table@.prelude =~= seq![]);
    }
    Some(Content::Table(table))
}

// ---------------------------------------------------------------------------
// `key: value` reports and logs
// ---------------------------------------------------------------------------

/// Whether most of the first lines are `key: value` lines.
pub open spec fn key_value_detect(fl: Seq<char>) -> bool {
    let ls = nonblank(lines(fl));
    ls.len() >= 2 && count_kv(ls) * 4 >= ls.len() * 3
}

pub fn key_value_detect_exec(first_lines: &[char]) -> (r: bool)
    ensures
        r == key_value_detect(first_lines@),
{
    let ls = nonblank_lines(first_lines);
    let kv = count_key_values(&ls);
    ls.len() >= 2 && (kv as u128) * 4 >= (ls.len() as u128) * 3
}

/// The row of a `key: value` line, both parts trimmed and non-empty.
pub open spec fn kv_row(line: Seq<char>) -> Option<Seq<CellV>> {
    match split_colon(line) {
        Some((k, v)) => {
            let key = trim(k);
            let value = trim(v);
            if key.len() > 0 && value.len() > 0 {
                Some(seq![cell_v(key, Style::Accent), cell_v(value, Style::Plain)])
            } else {
                None
            }
        },
        None => None,
    }
}

/// A `key: value` line splits at its first colon: the property is the
/// trimmed text before it and the value the trimmed text after it, and the
/// line makes a row exactly when both are non-empty.
pub proof fn lemma_key_value_splits_at_first_colon(line: Seq<char>, i: int)
    requires
        0 <= i < line.len(),
        line[i] == ':',
        forall|j: int| 0 <= j < i ==> line[j] != ':',
    ensures
        kv_row(line) is Some <==> (trim(line.take(i)).len() > 0 && trim(line.skip(i + 1)).len() > 0),
        kv_row(line) matches Some(row) ==> {
            &&& row.len() == 2
            &&& row[0].text == trim(line.take(i))
            &&& row[1].text == trim(line.skip(i + 1))
        },
{
    assert(line.contains(':'));
    let c = choose|c: int| 0 <= c < line.len() && line[c] == ':' && forall|j: int| 0 <= j < c ==> line[j] != ':';
    assert(0 <= c < line.len() && line[c] == ':' && forall|j: int| 0 <= j < c ==> line[j] != ':');
    if c < i {
        assert(line[c] != ':');
    }
    if i < c {
        assert(line[i] != ':');
    }
    assert(c == i);
}

pub open spec fn key_value_columns() -> Seq<ColumnV> {
    seq![
        column_v("property"@, "PROPERTY"@, 1, Alignment::Left),
        column_v("value"@, "VALUE"@, 0, Alignment::Left),
    ]
}

/// The property table of a `key: value` report; every line must qualify.
pub open spec fn key_value_parse(input: Seq<char>) -> Option<ContentV> {
    let ls = nonblank(lines(input));
    if ls.len() > 0 && forall|i: int| 0 <= i < ls.len() ==> (#[trigger] kv_row(ls[i])).is_some() {
        Some(
            ContentV::Table(
                TableV {
                    columns: key_value_columns(),
                    rows: ls.map_values(|l: Seq<char>| kv_row(l).unwrap()),
                    prelude: seq![],
                },
            ),
        )
    } else {
        None
    }
}

fn kv_row_exec(line: &[char]) -> (r: Option<Vec<Cell>>)
    ensures
        match r {
            Some(row) => kv_row(line@) == Some(crate::model::row_view(row)),
            None => kv_row(line@).is_none(),
        },
{
    match split_once_colon(line) {
        Some((k, v)) => {
            let key = trimmed(k.as_slice());
            let value = trimmed(v.as_slice());
            if key.len() > 0 && value.len() > 0 {
                let mut row: Vec<Cell> = Vec::new();
                row.push(Cell::from_chars(key.as_slice(), Style::Accent));
                row.push(Cell::from_chars(value.as_slice(), Style::Plain));
                assert(crate::model::row_view(row) =~= seq![
                    cell_v(key@, Style::Accent),
                    cell_v(value@, Style::Plain),
                ]);
                Some(row)
            } else {
                None
            }
        },
        None => None,
    }
}

pub fn key_value_columns_exec() -> (r: Vec<Column>)
    ensures
        r@.map_values(|c: Column| c@) == key_value_columns(),
{
    let mut columns: Vec<Column> = Vec::new();
    columns.push(Column::new("property", "PROPERTY", 1, Alignment::Left));
    columns.push(Column::new("value", "VALUE", 0, Alignment::Left));
    assert(columns@.map_values(|c: Column| c@) =~= key_value_columns());
    columns
}

pub fn key_value_parse_exec(input: &[char]) -> (r: Option<Content>)
    ensures
        crate::model::content_opt_view(r) == key_value_parse(input@),
{
    let ls = nonblank_lines(input);
    let ghost lv = ls.deep_view();
    let mut rows: Vec<Vec<Cell>> = Vec::new();
    let mut i: usize = 0;
    while i < ls.len()
        invariant
            i <= ls@.len(),
            lv == ls.deep_view(),
            lv == nonblank(lines(input@)),
            forall|j: int| 0 <= j < i ==> (#[trigger] kv_row(lv[j])).is_some(),
            rows_view(rows@) == lv.take(i as int).map_values(|l: Seq<char>| kv_row(l).unwrap()),
        decreases ls@.len() - i,
    {
        proof {
            lemma_deep_chars(&ls@[i as int]);
        }
        match kv_row_exec(ls[i].as_slice()) {
            Some(row) => {
                proof {
                    lemma_rows_push(rows@, row);
                }
                rows.push(row);
            },
            None => {
                assert(kv_row(lv[i as int]).is_none());
                assert(lv == nonblank(lines(input@)));
                assert((i as int) < lv.len());
                assert(!(forall|j: int| 0 <= j < lv.len() ==> (#[trigger] kv_row(lv[j])).is_some()));
                return None;
            },
        }
        i += 1;
        assert(lv.take(i as int).map_values(|l: Seq<char>| kv_row(l).unwrap()) =~= lv.take(
            i - 1,
        ).map_values(|l: Seq<char>| kv_row(l).unwrap()).push(kv_row(lv[i - 1]).unwrap()));
    }
    if ls.len() == 0 {
        return None;
    }
    assert(lv.take(ls@.len() as int) =~= lv);
    let table = crate::model::Table {
        columns: key_value_columns_exec(),
        rows,
        prelude: Vec::new(),
    };
    proof {
        lemma_table_view(table);
        assert(table@.prelude =~= seq![]);
    }
    Some(Content::Table(table))
}

/// Whether most of the first lines look like log records.
pub open spec fn log_detect(fl: Seq<char>) -> bool {
    let ls = nonblank(lines(fl));
    ls.len() > 0 && count_log(ls) * 4 >= ls.len() * 3
}

pub fn log_detect_exec(first_lines: &[char]) -> (r: bool)
    ensures
        r == log_detect(first_lines@),
{
    let ls = nonblank_lines(first_lines);
    let n = count_logs(&ls);
    ls.len() > 0 && (n as u128) * 4 >= (ls.len() as u128) * 3
}

/// One log record per non-blank line.
pub open spec fn log_parse(input: Seq<char>) -> Option<ContentV> {
    let ls = nonblank(lines(input));
    if ls.len() > 0 {
        Some(ContentV::Logs(ls.map_values(|l: Seq<char>| log_record(l))))
    } else {
        None
    }
}

pub fn log_parse_exec(input: &[char]) -> (r: Option<Content>)
    ensures
        crate::model::content_opt_view(r) == log_parse(input@),
{
    let ls = nonblank_lines(input);
    let ghost lv = ls.deep_view();
    let mut records: Vec<LogRecord> = Vec::new();
    let mut i: usize = 0;
    while i < ls.len()
        invariant
            i <= ls@.len(),
            lv == ls.deep_view(),
            records@.map_values(|r: LogRecord| r@) == lv.take(i as int).map_values(
                |l: Seq<char>| log_record(l),
            ),
        decreases ls@.len() - i,
    {
        proof {
            lemma_deep_chars(&ls@[i as int]);
        }
        let record = parse_log_line(ls[i].as_slice());
        let ghost before = records@;
        records.push(record);
        assert(records@.map_values(|r: LogRecord| r@) =~= before.map_values(|r: LogRecord| r@).push(record@));
        i += 1;
        assert(lv.take(i as int).map_values(|l: Seq<char>| log_record(l)) =~= lv.take(i - 1).map_values(
            |l: Seq<char>| log_record(l),
        ).push(log_record(lv[i - 1])));
    }
    if records.len() == 0 {
        return None;
    }
    assert(lv.take(ls@.len() as int) =~= lv);
    Some(Content::Logs(records))
}

} // verus!

//! Tables from the JSON that `jc` prints: a reader for JSON text and the
//! mapping of an array of objects (or one object) to a table.
use vstd::prelude::*;

use crate::model::{cell_v, column_v, Alignment, Cell, CellV, Column, ColumnV, Content, ContentV, Style, Table, TableV};
use crate::parser::builtins::{replace_char, replace_char_exec};
use crate::text::{
    chars_of, contains_seq, contains_str, ends_with, ends_with_str, eq, eq_str, is_ascii_whitespace,
    is_ascii_ws, is_digit, is_hex, lemma_deep_chars, lower, to_lower, to_upper, upper,
};

verus! {

// ---------------------------------------------------------------------------
// JSON text
// ---------------------------------------------------------------------------

#[derive(Debug, Clone, Copy, PartialEq, Eq, Structural)]
pub enum JsonKind {
    Null,
    Bool,
    Number,
    Str,
    Array,
    Object,
}

/// What the table needs of a JSON value: its kind, the text shown in a cell
/// and its compact JSON rendering.
pub struct JsonSum {
    pub kind: JsonKind,
    pub display: Seq<char>,
    pub compact: Seq<char>,
}

/// The position of the first non-whitespace character at or after `p`.
pub open spec fn skip_ws(t: Seq<char>, p: int) -> int
    decreases t.len() - p,
{
    if 0 <= p < t.len() && is_ascii_ws(t[p]) {
        skip_ws(t, p + 1)
    } else {
        p
    }
}

pub open spec fn hex_digit(c: char) -> int {
    if is_digit(c) {
        c as int - 48
    } else if 'a' <= c && c <= 'f' {
        c as int - 87
    } else {
        c as int - 55
    }
}

pub open spec fn hex_value(d: Seq<char>) -> int
    decreases d.len(),
{
    if d.len() == 0 {
        0
    } else {
        hex_value(d.drop_last()) * 16 + hex_digit(d.last())
    }
}

pub open spec fn all_hex(d: Seq<char>) -> bool {
    forall|j: int| 0 <= j < d.len() ==> is_hex(#[trigger] d[j])
}

/// The four characters after `\u`, read as `u16::from_str_radix(.., 16)`
/// does: an optional `+`, then hexadecimal digits.
pub open spec fn hex4(t: Seq<char>, q: int) -> Option<int> {
    if 0 <= q && q + 4 <= t.len() {
        let s = t.subrange(q, q + 4);
        let d = if s[0] == '+' {
            s.drop_first()
        } else {
            s
        };
        if all_hex(d) {
            Some(hex_value(d))
        } else {
            None
        }
    } else {
        None
    }
}

/// The character with the given scalar value, if there is one.
pub open spec fn scalar_char(v: u32) -> Option<char> {
    if v <= 0x10FFFF && !(0xD800 <= v && v <= 0xDFFF) {
        Some(v as char)
    } else {
        None
    }
}

/// `char::from_u32`: the character whose scalar value is `v`, or `None` for
/// a surrogate or a value above `0x10FFFF`, as std documents.
#[verifier::external_body]
fn char_from_u32(v: u32) -> (r: Option<char>)
    ensures
        r == scalar_char(v),
{
    char::from_u32(v)
}

/// The rest of a string literal from `p` on, `acc` holding what was read.
pub open spec fn str_loop(t: Seq<char>, p: int, acc: Seq<char>) -> Option<(Seq<char>, int)>
    decreases t.len() - p,
{
    if p < 0 || p >= t.len() {
        None
    } else if t[p] == '"' {
        Some((acc, p + 1))
    } else if t[p] == '\\' {
        if p + 1 >= t.len() {
            None
        } else {
            let e = t[p + 1];
            if e == '"' || e == '\\' || e == '/' {
                str_loop(t, p + 2, acc.push(e))
            } else if e == 'b' {
                str_loop(t, p + 2, acc.push('\u{8}'))
            } else if e == 'f' {
                str_loop(t, p + 2, acc.push('\u{c}'))
            } else if e == 'n' {
                str_loop(t, p + 2, acc.push('\n'))
            } else if e == 'r' {
                str_loop(t, p + 2, acc.push('\r'))
            } else if e == 't' {
                str_loop(t, p + 2, acc.push('\t'))
            } else if e == 'u' {
                match hex4(t, p + 2) {
                    Some(v) => match scalar_char(v as u32) {
                        Some(c) => str_loop(t, p + 6, acc.push(c)),
                        None => None,
                    },
                    None => None,
                }
            } else {
                None
            }
        }
    } else if (t[p] as u32) < 0x20 {
        None
    } else {
        str_loop(t, p + 1, acc.push(t[p]))
    }
}

/// A string literal after optional whitespace: its text and the position
/// after the closing quote.
pub open spec fn pstring(t: Seq<char>, p: int) -> Option<(Seq<char>, int)> {
    let w = skip_ws(t, p);
    if 0 <= w < t.len() && t[w] == '"' {
        str_loop(t, w + 1, seq![])
    } else {
        None
    }
}

pub open spec fn num_char(c: char) -> bool {
    is_digit(c) || c == '-' || c == '+' || c == '.' || c == 'e' || c == 'E'
}

/// The end of the run of number characters from `p`.
pub open spec fn num_end(t: Seq<char>, p: int) -> int
    decreases t.len() - p,
{
    if 0 <= p < t.len() && num_char(t[p]) {
        num_end(t, p + 1)
    } else {
        p
    }
}

/// The number of leading decimal digits.
pub open spec fn digit_run(s: Seq<char>) -> int
    decreases s.len(),
{
    if s.len() > 0 && is_digit(s[0]) {
        1 + digit_run(s.drop_first())
    } else {
        0
    }
}

/// Without one leading sign.
pub open spec fn strip_sign(s: Seq<char>) -> Seq<char> {
    if s.len() > 0 && (s[0] == '+' || s[0] == '-') {
        s.drop_first()
    } else {
        s
    }
}

/// Nothing, or an exponent mark, an optional sign and at least one digit.
pub open spec fn exp_ok(e: Seq<char>) -> bool {
    e.len() == 0 || ((e[0] == 'e' || e[0] == 'E') && {
        let y = strip_sign(e.drop_first());
        y.len() > 0 && digit_run(y) == y.len()
    })
}

/// The digits after a leading dot, if there is one.
pub open spec fn frac_len(r: Seq<char>) -> int {
    if r.len() > 0 && r[0] == '.' {
        digit_run(r.drop_first())
    } else {
        0
    }
}

/// What follows the fraction.
pub open spec fn after_frac(r: Seq<char>) -> Seq<char> {
    if r.len() > 0 && r[0] == '.' {
        r.drop_first().skip(frac_len(r))
    } else {
        r
    }
}

/// What `f64::from_str` accepts among strings of digits, signs, dots and
/// exponent marks: an optional sign, digits with an optional fraction (at
/// least one digit in all), and an optional exponent with an optional sign
/// and at least one digit.
pub open spec fn float_ok(s: Seq<char>) -> bool {
    let t = strip_sign(s);
    let i = digit_run(t);
    let r = t.skip(i);
    i + frac_len(r) > 0 && exp_ok(after_frac(r))
}

pub open spec fn quoted(s: Seq<char>) -> Seq<char> {
    seq!['"'] + escape(s) + seq!['"']
}

/// Backslashes doubled and double quotes escaped.
pub open spec fn escape(s: Seq<char>) -> Seq<char>
    decreases s.len(),
{
    if s.len() == 0 {
        seq![]
    } else {
        escape(s.drop_last()) + if s.last() == '\\' {
            seq!['\\', '\\']
        } else if s.last() == '"' {
            seq!['\\', '"']
        } else {
            seq![s.last()]
        }
    }
}

pub open spec fn join_comma(parts: Seq<Seq<char>>) -> Seq<char> {
    crate::text::join(parts, seq![','])
}

pub open spec fn member_compact(m: (Seq<char>, JsonSum)) -> Seq<char> {
    quoted(m.0) + seq![':'] + m.1.compact
}

pub open spec fn array_sum(items: Seq<JsonSum>) -> JsonSum {
    let c = seq!['['] + join_comma(items.map_values(|v: JsonSum| v.compact)) + seq![']'];
    JsonSum { kind: JsonKind::Array, display: c, compact: c }
}

pub open spec fn object_sum(ms: Seq<(Seq<char>, JsonSum)>) -> JsonSum {
    let c = seq!['{'] + join_comma(ms.map_values(|m: (Seq<char>, JsonSum)| member_compact(m)))
        + seq!['}'];
    JsonSum { kind: JsonKind::Object, display: c, compact: c }
}

/// Whether `lit` stands at position `p`.
pub open spec fn lit_at(t: Seq<char>, p: int, lit: Seq<char>) -> bool {
    0 <= p && p + lit.len() <= t.len() && t.subrange(p, p + lit.len()) == lit
}

pub proof fn lemma_skip_ws_ge(t: Seq<char>, p: int)
    ensures
        skip_ws(t, p) >= p,
        0 <= p ==> skip_ws(t, p) <= t.len() || skip_ws(t, p) == p,
        0 <= p <= t.len() ==> skip_ws(t, p) <= t.len(),
    decreases t.len() - p,
{
    if 0 <= p < t.len() && is_ascii_ws(t[p]) {
        lemma_skip_ws_ge(t, p + 1);
    }
}

pub proof fn lemma_str_loop_advances(t: Seq<char>, p: int, acc: Seq<char>)
    ensures
        str_loop(t, p, acc) matches Some((_, q)) ==> p < q <= t.len(),
    decreases t.len() - p,
{
    if 0 <= p < t.len() && t[p] != '"' {
        if t[p] == '\\' {
            if p + 1 < t.len() {
                lemma_str_loop_advances(t, p + 2, acc.push(t[p + 1]));
                lemma_str_loop_advances(t, p + 2, acc.push('\u{8}'));
                lemma_str_loop_advances(t, p + 2, acc.push('\u{c}'));
                lemma_str_loop_advances(t, p + 2, acc.push('\n'));
                lemma_str_loop_advances(t, p + 2, acc.push('\r'));
                lemma_str_loop_advances(t, p + 2, acc.push('\t'));
                match hex4(t, p + 2) {
                    Some(v) => match scalar_char(v as u32) {
                        Some(c) => lemma_str_loop_advances(t, p + 6, acc.push(c)),
                        None => {},
                    },
                    None => {},
                }
            }
        } else {
            lemma_str_loop_advances(t, p + 1, acc.push(t[p]));
        }
    }
}

pub proof fn lemma_pstring_advances(t: Seq<char>, p: int)
    requires
        0 <= p,
    ensures
        pstring(t, p) matches Some((_, q)) ==> p < q <= t.len(),
{
    lemma_skip_ws_ge(t, p);
    lemma_str_loop_advances(t, skip_ws(t, p) + 1, seq![]);
}

/// A JSON value after optional whitespace, and the position after it.
pub open spec fn pvalue(t: Seq<char>, p: int) -> Option<(JsonSum, int)>
    decreases t.len() - p, 0int,
{
    let w = skip_ws(t, p);
    if w < 0 || w >= t.len() {
        None
    } else {
        proof {
            lemma_skip_ws_ge(t, p);
        }
        let c = t[w];
        if c == 'n' {
            if lit_at(t, w, seq!['n', 'u', 'l', 'l']) {
                Some((JsonSum { kind: JsonKind::Null, display: seq![], compact: seq!['n', 'u', 'l', 'l'] }, w + 4))
            } else {
                None
            }
        } else if c == 't' {
            if lit_at(t, w, seq!['t', 'r', 'u', 'e']) {
                let v = seq!['t', 'r', 'u', 'e'];
                Some((JsonSum { kind: JsonKind::Bool, display: v, compact: v }, w + 4))
            } else {
                None
            }
        } else if c == 'f' {
            if lit_at(t, w, seq!['f', 'a', 'l', 's', 'e']) {
                let v = seq!['f', 'a', 'l', 's', 'e'];
                Some((JsonSum { kind: JsonKind::Bool, display: v, compact: v }, w + 5))
            } else {
                None
            }
        } else if c == '"' {
            match pstring(t, w) {
                Some((s, q)) => Some((JsonSum { kind: JsonKind::Str, display: s, compact: quoted(s) }, q)),
                None => None,
            }
        } else if c == '[' {
            match parray_after(t, w + 1) {
                Some((items, q)) => Some((array_sum(items), q)),
                None => None,
            }
        } else if c == '{' {
            match pobject_after(t, w + 1) {
                Some((ms, q)) => Some((object_sum(ms), q)),
                None => None,
            }
        } else if c == '-' || is_digit(c) {
            let e = num_end(t, w);
            if w <= e && float_ok(t.subrange(w, e)) {
                let s = t.subrange(w, e);
                Some((JsonSum { kind: JsonKind::Number, display: s, compact: s }, e))
            } else {
                None
            }
        } else {
            None
        }
    }
}

/// The elements of an array after its `[`, and the position after `]`.
pub open spec fn parray_after(t: Seq<char>, p: int) -> Option<(Seq<JsonSum>, int)>
    decreases t.len() - p, 2int,
{
    let q = skip_ws(t, p);
    if 0 <= q < t.len() && t[q] == ']' {
        Some((seq![], q + 1))
    } else {
        items_loop(t, p, seq![])
    }
}

pub open spec fn items_loop(t: Seq<char>, p: int, acc: Seq<JsonSum>) -> Option<(Seq<JsonSum>, int)>
    decreases t.len() - p, 1int,
{
    match pvalue(t, p) {
        Some((v, q)) => {
            let r = skip_ws(t, q);
            if 0 <= r < t.len() && t[r] == ']' {
                Some((acc.push(v), r + 1))
            } else if 0 <= r < t.len() && t[r] == ',' && r + 1 > p {
                items_loop(t, r + 1, acc.push(v))
            } else {
                None
            }
        },
        None => None,
    }
}

/// The members of an object after its `{`, and the position after `}`.
pub open spec fn pobject_after(t: Seq<char>, p: int) -> Option<(Seq<(Seq<char>, JsonSum)>, int)>
    decreases t.len() - p, 2int,
{
    let q = skip_ws(t, p);
    if 0 <= q < t.len() && t[q] == '}' {
        Some((seq![], q + 1))
    } else {
        members_loop(t, p, seq![])
    }
}

pub open spec fn members_loop(t: Seq<char>, p: int, acc: Seq<(Seq<char>, JsonSum)>) -> Option<
    (Seq<(Seq<char>, JsonSum)>, int),
>
    decreases t.len() - p, 1int,
{
    match pstring(t, p) {
        Some((k, q)) => {
            let c = skip_ws(t, q);
            proof {
                if p >= 0 {
                    lemma_pstring_advances(t, p);
                }
                lemma_skip_ws_ge(t, q);
            }
            if 0 <= c < t.len() && t[c] == ':' {
                match pvalue(t, c + 1) {
                    Some((v, r)) => {
                        let e = skip_ws(t, r);
                        if 0 <= e < t.len() && t[e] == '}' {
                            Some((acc.push((k, v)), e + 1))
                        } else if 0 <= e < t.len() && t[e] == ',' && e + 1 > p {
                            members_loop(t, e + 1, acc.push((k, v)))
                        } else {
                            None
                        }
                    },
                    None => None,
                }
            } else {
                None
            }
        },
        None => None,
    }
}

/// The objects of a JSON text that is one object or an array of objects.
pub open spec fn json_objects(t: Seq<char>) -> Option<Seq<Seq<(Seq<char>, JsonSum)>>> {
    let w = skip_ws(t, 0);
    if w < 0 || w >= t.len() {
        None
    } else if t[w] == '{' {
        match pobject_after(t, w + 1) {
            Some((ms, q)) => if skip_ws(t, q) == t.len() {
                Some(seq![ms])
            } else {
                None
            },
            None => None,
        }
    } else if t[w] == '[' {
        match objects_after(t, w + 1) {
            Some((os, q)) => if skip_ws(t, q) == t.len() {
                Some(os)
            } else {
                None
            },
            None => None,
        }
    } else {
        None
    }
}

pub open spec fn objects_after(t: Seq<char>, p: int) -> Option<(Seq<Seq<(Seq<char>, JsonSum)>>, int)> {
    let q = skip_ws(t, p);
    if 0 <= q < t.len() && t[q] == ']' {
        Some((seq![], q + 1))
    } else {
        objects_loop(t, p, seq![])
    }
}

/// Array elements from `p`, each of which must be an object.
pub open spec fn objects_loop(t: Seq<char>, p: int, acc: Seq<Seq<(Seq<char>, JsonSum)>>) -> Option<
    (Seq<Seq<(Seq<char>, JsonSum)>>, int),
>
    decreases t.len() - p,
{
    let w = skip_ws(t, p);
    if 0 <= w < t.len() && t[w] == '{' {
        match pobject_after(t, w + 1) {
            Some((ms, q)) => {
                let r = skip_ws(t, q);
                if 0 <= r < t.len() && t[r] == ']' {
                    Some((acc.push(ms), r + 1))
                } else if 0 <= r < t.len() && t[r] == ',' && r + 1 > p {
                    objects_loop(t, r + 1, acc.push(ms))
                } else {
                    None
                }
            },
            None => None,
        }
    } else {
        None
    }
}

// ---------------------------------------------------------------------------
// Reading JSON text
// ---------------------------------------------------------------------------

pub struct JsonField {
    pub kind: JsonKind,
    pub display: Vec<char>,
    pub compact: Vec<char>,
}

impl View for JsonField {
    type V = JsonSum;

    open spec fn view(&self) -> JsonSum {
        JsonSum { kind: self.kind, display: self.display@, compact: self.compact@ }
    }
}

pub open spec fn members_view(ms: Seq<(Vec<char>, JsonField)>) -> Seq<(Seq<char>, JsonSum)> {
    ms.map_values(|m: (Vec<char>, JsonField)| (m.0@, m.1@))
}

fn skip_ws_exec(t: &[char], p: usize) -> (r: usize)
    requires
        p <= t@.len(),
    ensures
        r as int == skip_ws(t@, p as int),
        p <= r <= t@.len(),
{
    let mut i = p;
    while i < t.len() && is_ascii_whitespace(t[i])
        invariant
            p <= i <= t@.len(),
            skip_ws(t@, p as int) == skip_ws(t@, i as int),
        decreases t@.len() - i,
    {
        i += 1;
    }
    i
}

fn hex_digit_exec(c: char) -> (r: u32)
    requires
        is_hex(c),
    ensures
        r as int == hex_digit(c),
        r < 16,
{
    if '0' <= c && c <= '9' {
        (c as u32) - 48
    } else if 'a' <= c && c <= 'f' {
        (c as u32) - 87
    } else {
        (c as u32) - 55
    }
}

fn hex4_exec(t: &[char], q: usize) -> (r: Option<u32>)
    ensures
        match r {
            Some(v) => hex4(t@, q as int) == Some(v as int),
            None => hex4(t@, q as int).is_none(),
        },
{
    if q > t.len() || t.len() - q < 4 {
        return None;
    }
    let ghost s = t@.subrange(q as int, q + 4);
    let start: usize = if t[q] == '+' {
        q + 1
    } else {
        q
    };
    let ghost d = if s[0] == '+' {
        s.drop_first()
    } else {
        s
    };
    assert(d =~= t@.subrange(start as int, q + 4));
    let mut v: u32 = 0;
    let mut i: usize = start;
    let end = q + 4;
    while i < end
        invariant
            end == q + 4,
            q + 4 <= t@.len(),
            d == (if t@.subrange(q as int, q + 4)[0] == '+' {
                t@.subrange(q as int, q + 4).drop_first()
            } else {
                t@.subrange(q as int, q + 4)
            }),
            start <= i <= q + 4,
            start == q || start == q + 1,
            d == t@.subrange(start as int, q + 4),
            v as int == hex_value(d.take(i - start)),
            v < 0x10000,
            v < pow16(i - start),
            forall|j: int| 0 <= j < i - start ==> is_hex(#[trigger] d[j]),
        decreases end - i,
    {
        if !crate::text::is_ascii_hexdigit(t[i]) {
            assert(!is_hex(d[i - start]));
            return None;
        }
        assert(d.take(i - start + 1).drop_last() =~= d.take(i - start));
        let h = hex_digit_exec(t[i]);
        proof {
            lemma_pow16_step(i - start);
        }
        v = v * 16 + h;
        i += 1;
    }
    assert(d.take(i - start) =~= d);
    Some(v)
}

pub open spec fn pow16(n: int) -> int
    decreases n,
{
    if n <= 0 {
        1
    } else {
        16 * pow16(n - 1)
    }
}

proof fn lemma_pow16_step(n: int)
    requires
        0 <= n < 4,
    ensures
        pow16(n + 1) == 16 * pow16(n),
        pow16(n + 1) <= 0x10000,
{
    reveal_with_fuel(pow16, 5);
}

/// `escape` of the characters.
fn escape_exec(s: &[char]) -> (r: Vec<char>)
    ensures
        r@ == escape(s@),
{
    let mut out: Vec<char> = Vec::new();
    let mut i: usize = 0;
    while i < s.len()
        invariant
            i <= s@.len(),
            out@ == escape(s@.take(i as int)),
        decreases s@.len() - i,
    {
        let c = s[i];
        if c == '\\' {
            out.push('\\');
            out.push('\\');
        } else if c == '"' {
            out.push('\\');
            out.push('"');
        } else {
            out.push(c);
        }
        assert(s@.take(i + 1).drop_last() =~= s@.take(i as int));
        i += 1;
        assert(out@ =~= escape(s@.take(i as int)));
    }
    assert(s@.take(s@.len() as int) =~= s@);
    out
}

fn quoted_exec(s: &[char]) -> (r: Vec<char>)
    ensures
        r@ == quoted(s@),
{
    let mut out: Vec<char> = Vec::new();
    out.push('"');
    let e = escape_exec(s);
    crate::text::extend(&mut out, e.as_slice());
    out.push('"');
    assert(out@ =~= quoted(s@));
    out
}

/// A string literal after optional whitespace.
fn string_exec(t: &[char], p: usize) -> (r: Option<(Vec<char>, usize)>)
    requires
        p <= t@.len(),
    ensures
        match r {
            Some((s, q)) => pstring(t@, p as int) == Some((s@, q as int)) && p < q <= t@.len(),
            None => pstring(t@, p as int).is_none(),
        },
{
    let w = skip_ws_exec(t, p);
    if w >= t.len() || t[w] != '"' {
        return None;
    }
    let mut acc: Vec<char> = Vec::new();
    let mut i: usize = w + 1;
    while i < t.len()
        invariant
            w < i <= t@.len(),
            p <= w,
            pstring(t@, p as int) == str_loop(t@, i as int, acc@),
        decreases t@.len() - i,
    {
        let c = t[i];
        if c == '"' {
            return Some((acc, i + 1));
        } else if c == '\\' {
            if i + 1 >= t.len() {
                return None;
            }
            let e = t[i + 1];
            if e == '"' || e == '\\' || e == '/' {
                acc.push(e);
                i += 2;
            } else if e == 'b' {
                acc.push('\u{8}');
                i += 2;
            } else if e == 'f' {
                acc.push('\u{c}');
                i += 2;
            } else if e == 'n' {
                acc.push('\n');
                i += 2;
            } else if e == 'r' {
                acc.push('\r');
                i += 2;
            } else if e == 't' {
                acc.push('\t');
                i += 2;
            } else if e == 'u' {
                match hex4_exec(t, i + 2) {
                    Some(v) => match char_from_u32(v) {
                        Some(ch) => {
                            acc.push(ch);
                            i += 6;
                        },
                        None => {
                            return None;
                        },
                    },
                    None => {
                        return None;
                    },
                }
            } else {
                return None;
            }
        } else if (c as u32) < 0x20 {
            return None;
        } else {
            acc.push(c);
            i += 1;
        }
    }
    None
}

/// `join` with a comma of one more piece.
proof fn lemma_join_push(parts: Seq<Seq<char>>, x: Seq<char>)
    ensures
        join_comma(parts.push(x)) == if parts.len() == 0 {
            x
        } else {
            join_comma(parts) + seq![','] + x
        },
{
    assert(parts.push(x).drop_last() =~= parts);
    if parts.len() == 0 {
        assert(parts.push(x).len() == 1);
    }
}

fn lit_exec(t: &[char], p: usize, lit: &[char]) -> (r: bool)
    ensures
        r == lit_at(t@, p as int, lit@),
{
    if p > t.len() || t.len() - p < lit.len() {
        return false;
    }
    let n = t.len();
    let mut j: usize = 0;
    while j < lit.len()
        invariant
            n == t@.len(),
            p + lit@.len() <= n,
            j <= lit@.len(),
            forall|k: int| 0 <= k < j ==> t@[p + k] == lit@[k],
        decreases lit@.len() - j,
    {
        assert(p + j < t@.len());
        let k = p + j;
        if t[k] != lit[j] {
            assert(t@.subrange(p as int, p + lit@.len())[j as int] != lit@[j as int]);
            return false;
        }
        j += 1;
    }
    assert(t@.subrange(p as int, p + lit@.len()) =~= lit@);
    true
}

pub fn digit_run_exec(t: &[char], a: usize, b: usize) -> (r: usize)
    requires
        a <= b <= t@.len(),
    ensures
        a <= r <= b,
        (r - a) as int == digit_run(t@.subrange(a as int, b as int)),
{
    let mut i = a;
    while i < b && crate::text::is_ascii_digit(t[i])
        invariant
            a <= i <= b <= t@.len(),
            digit_run(t@.subrange(a as int, b as int)) == (i - a) + digit_run(t@.subrange(i as int, b as int)),
        decreases b - i,
    {
        assert(t@.subrange(i as int, b as int).drop_first() =~= t@.subrange(i + 1, b as int));
        i += 1;
    }
    i
}

fn exp_ok_exec(t: &[char], k: usize, b: usize) -> (r: bool)
    requires
        k <= b <= t@.len(),
    ensures
        r == exp_ok(t@.subrange(k as int, b as int)),
{
    let ghost e = t@.subrange(k as int, b as int);
    if k == b {
        return true;
    }
    if t[k] != 'e' && t[k] != 'E' {
        return false;
    }
    let mut x = k + 1;
    if x < b && (t[x] == '+' || t[x] == '-') {
        x += 1;
    }
    assert(strip_sign(e.drop_first()) =~= t@.subrange(x as int, b as int));
    let y = digit_run_exec(t, x, b);
    x < b && y == b
}

fn float_ok_exec(t: &[char], a: usize, b: usize) -> (r: bool)
    requires
        a <= b <= t@.len(),
    ensures
        r == float_ok(t@.subrange(a as int, b as int)),
{
    let ghost s = t@.subrange(a as int, b as int);
    let mut i = a;
    if i < b && (t[i] == '+' || t[i] == '-') {
        i += 1;
    }
    let ghost tt = strip_sign(s);
    assert(tt =~= t@.subrange(i as int, b as int));
    let j = digit_run_exec(t, i, b);
    let ghost r = tt.skip(j - i);
    assert(r =~= t@.subrange(j as int, b as int));
    let mut k = j;
    let mut f: usize = 0;
    if k < b && t[k] == '.' {
        let m = digit_run_exec(t, k + 1, b);
        assert(r.drop_first() =~= t@.subrange(k + 1, b as int));
        f = m - (k + 1);
        k = m;
        assert(after_frac(r) =~= t@.subrange(k as int, b as int));
    }
    assert(f as int == frac_len(r));
    assert(after_frac(r) =~= t@.subrange(k as int, b as int));
    if (j - i) + f == 0 {
        return false;
    }
    exp_ok_exec(t, k, b)
}

fn num_end_exec(t: &[char], p: usize) -> (r: usize)
    requires
        p <= t@.len(),
    ensures
        r as int == num_end(t@, p as int),
        p <= r <= t@.len(),
{
    let mut i = p;
    while i < t.len() && (crate::text::is_ascii_digit(t[i]) || t[i] == '-' || t[i] == '+' || t[i]
        == '.' || t[i] == 'e' || t[i] == 'E')
        invariant
            p <= i <= t@.len(),
            num_end(t@, p as int) == num_end(t@, i as int),
        decreases t@.len() - i,
    {
        i += 1;
    }
    i
}

fn field_of(kind: JsonKind, display: Vec<char>, compact: Vec<char>) -> (f: JsonField)
    ensures
        f@ == (JsonSum { kind, display: display@, compact: compact@ }),
{
    JsonField { kind, display, compact }
}

/// A JSON value after optional whitespace.
fn value_exec(t: &[char], p: usize) -> (r: Option<(JsonField, usize)>)
    requires
        p <= t@.len(),
    ensures
        match r {
            Some((v, q)) => pvalue(t@, p as int) == Some((v@, q as int)) && p < q <= t@.len(),
            None => pvalue(t@, p as int).is_none(),
        },
    decreases t@.len() - p, 0int,
{
    let w = skip_ws_exec(t, p);
    if w >= t.len() {
        return None;
    }
    let c = t[w];
    if c == 'n' {
        let lit = vec!['n', 'u', 'l', 'l'];
        if lit_exec(t, w, lit.as_slice()) {
            Some((field_of(JsonKind::Null, Vec::new(), lit), w + 4))
        } else {
            None
        }
    } else if c == 't' {
        let lit = vec!['t', 'r', 'u', 'e'];
        if lit_exec(t, w, lit.as_slice()) {
            let d = copy_chars(lit.as_slice());
            Some((field_of(JsonKind::Bool, d, lit), w + 4))
        } else {
            None
        }
    } else if c == 'f' {
        let lit = vec!['f', 'a', 'l', 's', 'e'];
        if lit_exec(t, w, lit.as_slice()) {
            let d = copy_chars(lit.as_slice());
            Some((field_of(JsonKind::Bool, d, lit), w + 5))
        } else {
            None
        }
    } else if c == '"' {
        match string_exec(t, w) {
            Some((text, q)) => {
                let quoted_text = quoted_exec(text.as_slice());
                Some((field_of(JsonKind::Str, text, quoted_text), q))
            },
            None => None,
        }
    } else if c == '[' {
        array_after_exec(t, w + 1)
    } else if c == '{' {
        match object_after_exec(t, w + 1) {
            Some((_, compact, q)) => {
                let d = copy_chars(compact.as_slice());
                Some((field_of(JsonKind::Object, d, compact), q))
            },
            None => None,
        }
    } else if c == '-' || crate::text::is_ascii_digit(c) {
        let e = num_end_exec(t, w);
        if float_ok_exec(t, w, e) {
            proof {
                if e == w {
                    assert(!float_ok(t@.subrange(w as int, e as int)));
                }
            }
            let text = crate::text::slice_of(t, w, e);
            let d = copy_chars(text.as_slice());
            Some((field_of(JsonKind::Number, d, text), e))
        } else {
            None
        }
    } else {
        None
    }
}

fn copy_chars(s: &[char]) -> (r: Vec<char>)
    ensures
        r@ == s@,
{
    crate::text::copy(s)
}

/// The elements of an array after its `[`, read into the array's summary.
fn array_after_exec(t: &[char], p: usize) -> (r: Option<(JsonField, usize)>)
    requires
        p <= t@.len(),
    ensures
        match r {
            Some((f, q)) => parray_after(t@, p as int) matches Some((items, q2)) && f@ == array_sum(
                items,
            ) && q2 == q && p < q <= t@.len(),
            None => parray_after(t@, p as int).is_none(),
        },
    decreases t@.len() - p, 2int,
{
    let q = skip_ws_exec(t, p);
    if q < t.len() && t[q] == ']' {
        let c = vec!['[', ']'];
        let d = copy_chars(c.as_slice());
        proof {
            assert(array_sum(seq![]).compact =~= seq!['[', ']']);
        }
        return Some((field_of(JsonKind::Array, d, c), q + 1));
    }
    let mut pos = p;
    let ghost mut items: Seq<JsonSum> = seq![];
    let mut body: Vec<char> = Vec::new();
    let mut first = true;
    loop
        invariant
            p <= pos <= t@.len(),
            first == (items.len() == 0),
            parray_after(t@, p as int) == items_loop(t@, pos as int, items),
            body@ == join_comma(items.map_values(|v: JsonSum| v.compact)),
        decreases t@.len() - pos,
    {
        match value_exec(t, pos) {
            Some((v, q)) => {
                let r = skip_ws_exec(t, q);
                proof {
                    lemma_join_push(items.map_values(|x: JsonSum| x.compact), v@.compact);
                    assert(items.push(v@).map_values(|x: JsonSum| x.compact) =~= items.map_values(
                        |x: JsonSum| x.compact,
                    ).push(v@.compact));
                }
                if !first {
                    body.push(',');
                }
                crate::text::extend(&mut body, v.compact.as_slice());
                proof {
                    items = items.push(v@);
                }
                first = false;
                if r < t.len() && t[r] == ']' {
                    let mut c: Vec<char> = Vec::new();
                    c.push('[');
                    crate::text::extend(&mut c, body.as_slice());
                    c.push(']');
                    let d = copy_chars(c.as_slice());
                    assert(c@ =~= array_sum(items).compact);
                    return Some((field_of(JsonKind::Array, d, c), r + 1));
                } else if r < t.len() && t[r] == ',' {
                    pos = r + 1;
                } else {
                    return None;
                }
            },
            None => {
                return None;
            },
        }
    }
}

/// The members of an object after its `{`, with the object's compact text.
fn object_after_exec(t: &[char], p: usize) -> (r: Option<(Vec<(Vec<char>, JsonField)>, Vec<char>, usize)>)
    requires
        p <= t@.len(),
    ensures
        match r {
            Some((ms, c, q)) => pobject_after(t@, p as int) == Some((members_view(ms@), q as int))
                && c@ == object_sum(members_view(ms@)).compact && p < q <= t@.len(),
            None => pobject_after(t@, p as int).is_none(),
        },
    decreases t@.len() - p, 2int,
{
    let q = skip_ws_exec(t, p);
    if q < t.len() && t[q] == '}' {
        let c = vec!['{', '}'];
        proof {
            assert(object_sum(seq![]).compact =~= seq!['{', '}']);
            assert(members_view(Seq::<(Vec<char>, JsonField)>::empty()) =~= seq![]);
        }
        return Some((Vec::new(), c, q + 1));
    }
    let mut pos = p;
    let mut ms: Vec<(Vec<char>, JsonField)> = Vec::new();
    let mut body: Vec<char> = Vec::new();
    assert(members_view(ms@) =~= seq![]);
    loop
        invariant
            p <= pos <= t@.len(),
            pobject_after(t@, p as int) == members_loop(t@, pos as int, members_view(ms@)),
            body@ == join_comma(
                members_view(ms@).map_values(|m: (Seq<char>, JsonSum)| member_compact(m)),
            ),
        decreases t@.len() - pos,
    {
        let (key, kq) = match string_exec(t, pos) {
            Some(x) => x,
            None => {
                return None;
            },
        };
        let c = skip_ws_exec(t, kq);
        if !(c < t.len() && t[c] == ':') {
            return None;
        }
        let (v, vq) = match value_exec(t, c + 1) {
            Some(x) => x,
            None => {
                return None;
            },
        };
        let e = skip_ws_exec(t, vq);
        let ghost before = members_view(ms@);
        let ghost m = (key@, v@);
        proof {
            lemma_join_push(
                before.map_values(|x: (Seq<char>, JsonSum)| member_compact(x)),
                member_compact(m),
            );
            assert(before.push(m).map_values(|x: (Seq<char>, JsonSum)| member_compact(x))
                =~= before.map_values(|x: (Seq<char>, JsonSum)| member_compact(x)).push(
                member_compact(m),
            ));
        }
        if ms.len() > 0 {
            body.push(',');
        }
        let qk = quoted_exec(key.as_slice());
        crate::text::extend(&mut body, qk.as_slice());
        body.push(':');
        crate::text::extend(&mut body, v.compact.as_slice());
        assert(body@ =~= join_comma(before.push(m).map_values(|x: (Seq<char>, JsonSum)| member_compact(x))));
        ms.push((key, v));
        assert(members_view(ms@) =~= before.push(m));
        if e < t.len() && t[e] == '}' {
            let mut out: Vec<char> = Vec::new();
            out.push('{');
            crate::text::extend(&mut out, body.as_slice());
            out.push('}');
            assert(out@ =~= object_sum(members_view(ms@)).compact);
            return Some((ms, out, e + 1));
        } else if e < t.len() && t[e] == ',' {
            pos = e + 1;
        } else {
            return None;
        }
    }
}

pub open spec fn objects_view(os: Seq<Vec<(Vec<char>, JsonField)>>) -> Seq<Seq<(Seq<char>, JsonSum)>> {
    os.map_values(|o: Vec<(Vec<char>, JsonField)>| members_view(o@))
}

/// The objects of a JSON text that is one object or an array of objects.
pub fn json_objects_exec(t: &[char]) -> (r: Option<Vec<Vec<(Vec<char>, JsonField)>>>)
    ensures
        match r {
            Some(os) => json_objects(t@) == Some(objects_view(os@)),
            None => json_objects(t@).is_none(),
        },
{
    let w = skip_ws_exec(t, 0);
    if w >= t.len() {
        return None;
    }
    if t[w] == '{' {
        match object_after_exec(t, w + 1) {
            Some((ms, _, q)) => {
                if skip_ws_exec(t, q) == t.len() {
                    let mut os: Vec<Vec<(Vec<char>, JsonField)>> = Vec::new();
                    os.push(ms);
                    assert(objects_view(os@) =~= seq![members_view(os@[0]@)]);
                    Some(os)
                } else {
                    None
                }
            },
            None => None,
        }
    } else if t[w] == '[' {
        let q = skip_ws_exec(t, w + 1);
        if q < t.len() && t[q] == ']' {
            if skip_ws_exec(t, q + 1) == t.len() {
                let os: Vec<Vec<(Vec<char>, JsonField)>> = Vec::new();
                assert(objects_view(os@) =~= seq![]);
                return Some(os);
            } else {
                return None;
            }
        }
        let start = w + 1;
        let mut pos = start;
        let mut os: Vec<Vec<(Vec<char>, JsonField)>> = Vec::new();
        assert(objects_view(os@) =~= seq![]);
        loop
            invariant
                start <= pos <= t@.len(),
                objects_after(t@, start as int) == objects_loop(t@, pos as int, objects_view(os@)),
                json_objects(t@) == match objects_after(t@, start as int) {
                    Some((xs, e)) => if skip_ws(t@, e) == t@.len() {
                        Some(xs)
                    } else {
                        None
                    },
                    None => None,
                },
            decreases t@.len() - pos,
        {
            let b = skip_ws_exec(t, pos);
            if !(b < t.len() && t[b] == '{') {
                return None;
            }
            let (ms, q) = match object_after_exec(t, b + 1) {
                Some((ms, _, q)) => (ms, q),
                None => {
                    return None;
                },
            };
            let r = skip_ws_exec(t, q);
            let ghost before = objects_view(os@);
            os.push(ms);
            assert(objects_view(os@) =~= before.push(members_view(os@[os@.len() - 1]@)));
            if r < t.len() && t[r] == ']' {
                if skip_ws_exec(t, r + 1) == t.len() {
                    return Some(os);
                } else {
                    return None;
                }
            } else if r < t.len() && t[r] == ',' {
                pos = r + 1;
            } else {
                return None;
            }
        }
    } else {
        None
    }
}

// ---------------------------------------------------------------------------
// From objects to a table
// ---------------------------------------------------------------------------

/// The keys of all members, object by object, in order.
pub open spec fn all_keys(os: Seq<Seq<(Seq<char>, JsonSum)>>) -> Seq<Seq<char>>
    decreases os.len(),
{
    if os.len() == 0 {
        seq![]
    } else {
        all_keys(os.drop_last()) + os.last().map_values(|m: (Seq<char>, JsonSum)| m.0)
    }
}

/// Each key once, where it first occurs.
pub open spec fn dedup(s: Seq<Seq<char>>) -> Seq<Seq<char>>
    decreases s.len(),
{
    if s.len() == 0 {
        seq![]
    } else if dedup(s.drop_last()).contains(s.last()) {
        dedup(s.drop_last())
    } else {
        dedup(s.drop_last()).push(s.last())
    }
}

/// The value of the first member with the given key.
pub open spec fn field(ms: Seq<(Seq<char>, JsonSum)>, key: Seq<char>) -> Option<JsonSum>
    decreases ms.len(),
{
    if ms.len() == 0 {
        None
    } else if ms[0].0 == key {
        Some(ms[0].1)
    } else {
        field(ms.drop_first(), key)
    }
}

pub open spec fn num_or_null(v: Option<JsonSum>) -> bool {
    match v {
        Some(x) => x.kind == JsonKind::Number || x.kind == JsonKind::Null,
        None => true,
    }
}

/// Every object that has the key holds a number or null there.
pub open spec fn numeric_key(os: Seq<Seq<(Seq<char>, JsonSum)>>, key: Seq<char>) -> bool {
    forall|i: int| 0 <= i < os.len() ==> #[trigger] num_or_null(field(os[i], key))
}

pub open spec fn priority_for(key: Seq<char>) -> u8 {
    let k = lower(key);
    if k == "name"@ || k == "path"@ || k == "command"@ || k == "cmd"@ || k == "mountpoint"@ || k
        == "filesystem"@ || k == "destination"@ {
        0
    } else if k == "pid"@ || k == "id"@ || k == "user"@ || contains_seq(k, "percent"@) || ends_with(
        k,
        "_pct"@,
    ) {
        1
    } else {
        2
    }
}

pub open spec fn style_for(key: Seq<char>) -> Style {
    let k = lower(key);
    if k == "name"@ || k == "path"@ || k == "mountpoint"@ || k == "destination"@ {
        Style::Accent
    } else if contains_seq(k, "percent"@) || ends_with(k, "_pct"@) {
        Style::Warning
    } else {
        Style::Plain
    }
}

pub open spec fn jc_column(os: Seq<Seq<(Seq<char>, JsonSum)>>, key: Seq<char>) -> ColumnV {
    column_v(
        key,
        upper(replace_char(key, '_', ' ')),
        priority_for(key),
        if numeric_key(os, key) {
            Alignment::Right
        } else {
            Alignment::Left
        },
    )
}

pub open spec fn jc_cell(o: Seq<(Seq<char>, JsonSum)>, key: Seq<char>) -> CellV {
    cell_v(
        match field(o, key) {
            Some(v) => v.display,
            None => seq![],
        },
        style_for(key),
    )
}

/// The table of a JSON text holding an object or an array of objects: one
/// column per key, in order of first appearance, one row per object.
pub open spec fn json_table(t: Seq<char>) -> Option<ContentV> {
    match json_objects(t) {
        Some(os) => if os.len() == 0 {
            None
        } else {
            let keys = dedup(all_keys(os));
            Some(
                ContentV::Table(
                    TableV {
                        columns: keys.map_values(|k: Seq<char>| jc_column(os, k)),
                        rows: os.map_values(
                            |o: Seq<(Seq<char>, JsonSum)>| keys.map_values(|k: Seq<char>| jc_cell(o, k)),
                        ),
                        prelude: seq![],
                    },
                ),
            )
        },
        None => None,
    }
}

fn contains_key(keys: &Vec<Vec<char>>, k: &[char]) -> (r: bool)
    ensures
        r == keys.deep_view().contains(k@),
{
    let mut i: usize = 0;
    while i < keys.len()
        invariant
            i <= keys@.len(),
            forall|j: int| 0 <= j < i ==> keys.deep_view()[j] != k@,
        decreases keys@.len() - i,
    {
        proof {
            lemma_deep_chars(&keys@[i as int]);
        }
        if eq(keys[i].as_slice(), k) {
            assert(keys.deep_view()[i as int] == k@);
            return true;
        }
        i += 1;
    }
    false
}

fn keys_exec(os: &Vec<Vec<(Vec<char>, JsonField)>>) -> (r: Vec<Vec<char>>)
    ensures
        r.deep_view() == dedup(all_keys(objects_view(os@))),
{
    let ghost ov = objects_view(os@);
    let mut keys: Vec<Vec<char>> = Vec::new();
    let mut i: usize = 0;
    while i < os.len()
        invariant
            i <= os@.len(),
            ov == objects_view(os@),
            keys.deep_view() == dedup(all_keys(ov.take(i as int))),
        decreases os@.len() - i,
    {
        let o = &os[i];
        let ghost ks = ov[i as int].map_values(|m: (Seq<char>, JsonSum)| m.0);
        let mut j: usize = 0;
        while j < o.len()
            invariant
                i < os@.len(),
                j <= o@.len(),
                ov == objects_view(os@),
                *o == os@[i as int],
                ks == ov[i as int].map_values(|m: (Seq<char>, JsonSum)| m.0),
                keys.deep_view() == dedup(all_keys(ov.take(i as int)) + ks.take(j as int)),
            decreases o@.len() - j,
        {
            let ghost prev = all_keys(ov.take(i as int)) + ks.take(j as int);
            assert(ks[j as int] == o@[j as int].0@);
            assert((all_keys(ov.take(i as int)) + ks.take(j + 1)).drop_last() =~= prev);
            assert((all_keys(ov.take(i as int)) + ks.take(j + 1)).last() == ks[j as int]);
            if !contains_key(&keys, o[j].0.as_slice()) {
                let k = copy_chars(o[j].0.as_slice());
                let ghost before = keys.deep_view();
                proof {
                    lemma_deep_chars(&k);
                }
                keys.push(k);
                assert(keys.deep_view() =~= before.push(ks[j as int]));
            }
            j += 1;
        }
        assert(ks.take(o@.len() as int) =~= ks);
        assert(ov.take(i + 1).drop_last() =~= ov.take(i as int));
        i += 1;
    }
    assert(ov.take(os@.len() as int) =~= ov);
    keys
}

fn field_exec(ms: &Vec<(Vec<char>, JsonField)>, key: &[char]) -> (r: Option<usize>)
    ensures
        match r {
            Some(i) => i < ms@.len() && field(members_view(ms@), key@) == Some(ms@[i as int].1@),
            None => field(members_view(ms@), key@).is_none(),
        },
{
    let ghost mv = members_view(ms@);
    let mut i: usize = 0;
    assert(mv.skip(0) =~= mv);
    while i < ms.len()
        invariant
            i <= ms@.len(),
            mv == members_view(ms@),
            field(mv, key@) == field(mv.skip(i as int), key@),
        decreases ms@.len() - i,
    {
        if eq(ms[i].0.as_slice(), key) {
            return Some(i);
        }
        assert(mv.skip(i as int).drop_first() =~= mv.skip(i + 1));
        i += 1;
    }
    None
}

fn priority_for_exec(key: &[char]) -> (r: u8)
    ensures
        r == priority_for(key@),
{
    let lo = to_lower(key);
    let k = lo.as_slice();
    if eq_str(k, "name") || eq_str(k, "path") || eq_str(k, "command") || eq_str(k, "cmd") || eq_str(
        k,
        "mountpoint",
    ) || eq_str(k, "filesystem") || eq_str(k, "destination") {
        0
    } else if eq_str(k, "pid") || eq_str(k, "id") || eq_str(k, "user") || contains_str(k, "percent")
        || ends_with_str(k, "_pct") {
        1
    } else {
        2
    }
}

fn style_for_exec(key: &[char]) -> (r: Style)
    ensures
        r == style_for(key@),
{
    let lo = to_lower(key);
    let k = lo.as_slice();
    if eq_str(k, "name") || eq_str(k, "path") || eq_str(k, "mountpoint") || eq_str(k, "destination") {
        Style::Accent
    } else if contains_str(k, "percent") || ends_with_str(k, "_pct") {
        Style::Warning
    } else {
        Style::Plain
    }
}

fn numeric_key_exec(os: &Vec<Vec<(Vec<char>, JsonField)>>, key: &[char]) -> (r: bool)
    ensures
        r == numeric_key(objects_view(os@), key@),
{
    let ghost ov = objects_view(os@);
    let mut i: usize = 0;
    while i < os.len()
        invariant
            i <= os@.len(),
            ov == objects_view(os@),
            forall|j: int| 0 <= j < i ==> #[trigger] num_or_null(field(ov[j], key@)),
        decreases os@.len() - i,
    {
        match field_exec(&os[i], key) {
            Some(k) => {
                let kind = os[i][k].1.kind;
                if !(kind == JsonKind::Number || kind == JsonKind::Null) {
                    assert(!num_or_null(field(ov[i as int], key@)));
                    return false;
                }
            },
            None => {},
        }
        i += 1;
    }
    true
}

/// The table of the JSON that `jc` printed.
pub fn json_to_view(input: &str) -> (r: Option<Content>)
    ensures
        crate::model::content_opt_view(r) == json_table(input@),
{
    let t = chars_of(input);
    let os = match json_objects_exec(t.as_slice()) {
        Some(os) => os,
        None => {
            return None;
        },
    };
    let ghost ov = objects_view(os@);
    if os.len() == 0 {
        return None;
    }
    let keys = keys_exec(&os);
    let ghost kv = keys.deep_view();
    let mut columns: Vec<Column> = Vec::new();
    let mut k: usize = 0;
    while k < keys.len()
        invariant
            k <= keys@.len(),
            kv == keys.deep_view(),
            ov == objects_view(os@),
            columns@.map_values(|c: Column| c@) == kv.take(k as int).map_values(
                |x: Seq<char>| jc_column(ov, x),
            ),
        decreases keys@.len() - k,
    {
        proof {
            lemma_deep_chars(&keys@[k as int]);
        }
        let key = keys[k].as_slice();
        let spaced = replace_char_exec(key, '_', ' ');
        let label = to_upper(spaced.as_slice());
        let numeric = numeric_key_exec(&os, key);
        let c = Column::from_chars(
            key,
            label.as_slice(),
            priority_for_exec(key),
            if numeric {
                Alignment::Right
            } else {
                Alignment::Left
            },
        );
        let ghost before = columns@;
        columns.push(c);
        assert(columns@.map_values(|c: Column| c@) =~= before.map_values(|c: Column| c@).push(c@));
        k += 1;
        assert(kv.take(k as int).map_values(|x: Seq<char>| jc_column(ov, x)) =~= kv.take(
            k - 1,
        ).map_values(|x: Seq<char>| jc_column(ov, x)).push(jc_column(ov, kv[k - 1])));
    }
    let mut styles: Vec<Style> = Vec::new();
    let mut k: usize = 0;
    while k < keys.len()
        invariant
            k <= keys@.len(),
            kv == keys.deep_view(),
            styles@.len() == k,
            forall|j: int| 0 <= j < k ==> #[trigger] styles@[j] == style_for(kv[j]),
        decreases keys@.len() - k,
    {
        proof {
            lemma_deep_chars(&keys@[k as int]);
        }
        styles.push(style_for_exec(keys[k].as_slice()));
        k += 1;
    }
    let mut rows: Vec<Vec<Cell>> = Vec::new();
    let mut i: usize = 0;
    while i < os.len()
        invariant
            i <= os@.len(),
            kv == keys.deep_view(),
            ov == objects_view(os@),
            styles@.len() == kv.len(),
            forall|j: int| 0 <= j < kv.len() ==> #[trigger] styles@[j] == style_for(kv[j]),
            rows@.map_values(|r: Vec<Cell>| crate::model::row_view(r)) == ov.take(i as int).map_values(
                |o: Seq<(Seq<char>, JsonSum)>| kv.map_values(|x: Seq<char>| jc_cell(o, x)),
            ),
        decreases os@.len() - i,
    {
        let mut row: Vec<Cell> = Vec::new();
        let mut k: usize = 0;
        while k < keys.len()
            invariant
                i < os@.len(),
                k <= keys@.len(),
                kv == keys.deep_view(),
                ov == objects_view(os@),
                styles@.len() == kv.len(),
                forall|j: int| 0 <= j < kv.len() ==> #[trigger] styles@[j] == style_for(kv[j]),
                crate::model::row_view(row) == kv.take(k as int).map_values(
                    |x: Seq<char>| jc_cell(ov[i as int], x),
                ),
            decreases keys@.len() - k,
        {
            proof {
                lemma_deep_chars(&keys@[k as int]);
            }
            let text = match field_exec(&os[i], keys[k].as_slice()) {
                Some(f) => copy_chars(os[i][f].1.display.as_slice()),
                None => Vec::new(),
            };
            let c = Cell::from_chars(text.as_slice(), styles[k]);
            let ghost before = crate::model::row_view(row);
            row.push(c);
            assert(crate::model::row_view(row) =~= before.push(c@));
            k += 1;
            assert(kv.take(k as int).map_values(|x: Seq<char>| jc_cell(ov[i as int], x)) =~= kv.take(
                k - 1,
            ).map_values(|x: Seq<char>| jc_cell(ov[i as int], x)).push(jc_cell(ov[i as int], kv[k - 1])));
        }
        assert(kv.take(keys@.len() as int) =~= kv);
        let ghost before = rows@;
        rows.push(row);
        assert(rows@.map_values(|r: Vec<Cell>| crate::model::row_view(r)) =~= before.map_values(
            |r: Vec<Cell>| crate::model::row_view(r),
        ).push(crate::model::row_view(row)));
        i += 1;
        assert(ov.take(i as int).map_values(
            |o: Seq<(Seq<char>, JsonSum)>| kv.map_values(|x: Seq<char>| jc_cell(o, x)),
        ) =~= ov.take(i - 1).map_values(
            |o: Seq<(Seq<char>, JsonSum)>| kv.map_values(|x: Seq<char>| jc_cell(o, x)),
        ).push(kv.map_values(|x: Seq<char>| jc_cell(ov[i - 1], x))));
    }
    assert(kv.take(keys@.len() as int) =~= kv);
    assert(ov.take(os@.len() as int) =~= ov);
    let table = Table { columns, rows, prelude: Vec::new() };
    proof {
        assert(table@.prelude =~= seq![]);
        assert(table@.rows =~= rows@.map_values(|r: Vec<Cell>| crate::model::row_view(r)));
    }
    Some(Content::Table(table))
}

} // verus!

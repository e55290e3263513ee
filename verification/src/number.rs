//! Numbers written in the decimal float syntax of configuration values and
//! table cells, kept exactly and compared by value.
use vstd::prelude::*;

use crate::parser::builtins::{all_digits, digits_value};
use crate::text::{is_digit, lower, trim, trimmed};

verus! {

/// A number as written: not a number, an infinity, or a finite decimal
/// `±0.d₁d₂…dₙ × 10^exponent` whose digits have no leading or trailing zero
/// (zero has no digits and no sign).
#[derive(Debug, Clone)]
pub enum Number {
    NotANumber,
    Infinite(bool),
    Finite(bool, Vec<u8>, i128),
}

pub enum NumberV {
    NotANumber,
    Infinite(bool),
    Finite(bool, Seq<u8>, int),
}

impl View for Number {
    type V = NumberV;

    open spec fn view(&self) -> NumberV {
        match self {
            Number::NotANumber => NumberV::NotANumber,
            Number::Infinite(negative) => NumberV::Infinite(*negative),
            Number::Finite(negative, digits, exponent) => NumberV::Finite(*negative, digits@, *exponent as int),
        }
    }
}

pub open spec fn number_opt_view(o: Option<Number>) -> Option<NumberV> {
    match o {
        Some(n) => Some(n@),
        None => None,
    }
}

/// Exponents are read up to this magnitude; larger ones count as this one.
pub open spec fn exponent_cap() -> int {
    1_000_000_000_000
}

/// The end of the run of digits that starts at `i`.
pub open spec fn digits_end(s: Seq<char>, i: int) -> int
    decreases s.len() - i,
{
    if 0 <= i < s.len() && is_digit(s[i]) {
        digits_end(s, i + 1)
    } else {
        i
    }
}

/// The position of the first exponent mark (`e` or `E`) from `i`, or the
/// length.
pub open spec fn exponent_mark(s: Seq<char>, i: int) -> int
    decreases s.len() - i,
{
    if i < 0 || i >= s.len() {
        s.len() as int
    } else if s[i] == 'e' || s[i] == 'E' {
        i
    } else {
        exponent_mark(s, i + 1)
    }
}

/// The value of a run of digits, capped at `exponent_cap`.
pub open spec fn capped_value(d: Seq<char>) -> int
    decreases d.len(),
{
    if d.len() == 0 {
        0
    } else {
        let v = capped_value(d.drop_last()) * 10 + (d.last() as int - 48);
        if v > exponent_cap() {
            exponent_cap()
        } else {
            v
        }
    }
}

/// An exponent: an optional sign, then at least one digit.
pub open spec fn exponent_value(x: Seq<char>) -> Option<int> {
    let negative = x.len() > 0 && x[0] == '-';
    let d = if x.len() > 0 && (x[0] == '+' || x[0] == '-') {
        x.drop_first()
    } else {
        x
    };
    if d.len() > 0 && all_digits(d) {
        Some(
            if negative {
                -capped_value(d)
            } else {
                capped_value(d)
            },
        )
    } else {
        None
    }
}

pub open spec fn digit_values(d: Seq<char>) -> Seq<u8> {
    d.map_values(|c: char| (c as int - 48) as u8)
}

/// The first position from `i` that holds no zero digit.
pub open spec fn first_nonzero(ds: Seq<u8>, i: int) -> int
    decreases ds.len() - i,
{
    if 0 <= i < ds.len() && ds[i] == 0 {
        first_nonzero(ds, i + 1)
    } else {
        i
    }
}

/// The end of `ds` once trailing zero digits after `lo` are dropped.
pub open spec fn last_nonzero_end(ds: Seq<u8>, j: int, lo: int) -> int
    decreases j - lo,
{
    if j > lo && 0 < j <= ds.len() && ds[j - 1] == 0 {
        last_nonzero_end(ds, j - 1, lo)
    } else {
        j
    }
}

/// The canonical number whose digits are `ds` with the decimal point after
/// the first `point` of them, times ten to `e`.
pub open spec fn canonical(negative: bool, ds: Seq<u8>, point: int, e: int) -> NumberV {
    let lead = first_nonzero(ds, 0);
    if lead >= ds.len() {
        NumberV::Finite(false, seq![], 0)
    } else {
        let end = last_nonzero_end(ds, ds.len() as int, lead);
        NumberV::Finite(negative, ds.subrange(lead, end), point - lead + e)
    }
}

/// A decimal: digits with an optional point (at least one digit on either
/// side), then an optional exponent.
pub open spec fn decimal_of(negative: bool, s: Seq<char>) -> Option<NumberV> {
    let k = exponent_mark(s, 0);
    let m = s.take(k);
    let a = digits_end(m, 0);
    let frac_start = if a < m.len() && m[a] == '.' {
        a + 1
    } else {
        a
    };
    let b = if a < m.len() && m[a] == '.' {
        digits_end(m, a + 1)
    } else {
        a
    };
    let e = if k == s.len() {
        Some(0int)
    } else {
        exponent_value(s.skip(k + 1))
    };
    if b == m.len() && (a > 0 || b > frac_start) && e is Some {
        Some(
            canonical(negative, digit_values(m.take(a) + m.subrange(frac_start, b)), a, e->0),
        )
    } else {
        None
    }
}

/// What `f64::from_str` accepts: an optional sign, then `inf`, `infinity` or
/// `nan` in any case, or a decimal. The value is kept exactly.
pub open spec fn number_of(s: Seq<char>) -> Option<NumberV> {
    let negative = s.len() > 0 && s[0] == '-';
    let rest = if s.len() > 0 && (s[0] == '+' || s[0] == '-') {
        s.drop_first()
    } else {
        s
    };
    if lower(rest) == "inf"@ || lower(rest) == "infinity"@ {
        Some(NumberV::Infinite(negative))
    } else if lower(rest) == "nan"@ {
        Some(NumberV::NotANumber)
    } else {
        decimal_of(negative, rest)
    }
}

/// Digit sequences in lexicographic order, a proper prefix first.
pub open spec fn digits_below(x: Seq<u8>, y: Seq<u8>) -> bool
    decreases x.len(),
{
    if y.len() == 0 {
        false
    } else if x.len() == 0 {
        true
    } else if x[0] != y[0] {
        x[0] < y[0]
    } else {
        digits_below(x.drop_first(), y.drop_first())
    }
}

/// `0.xd × 10^xe < 0.yd × 10^ye` for canonical digits.
pub open spec fn magnitude_below(xd: Seq<u8>, xe: int, yd: Seq<u8>, ye: int) -> bool {
    if yd.len() == 0 {
        false
    } else if xd.len() == 0 {
        true
    } else if xe != ye {
        xe < ye
    } else {
        digits_below(xd, yd)
    }
}

/// `a < b`; false whenever either is not a number.
pub open spec fn number_below(a: NumberV, b: NumberV) -> bool {
    match (a, b) {
        (NumberV::NotANumber, _) => false,
        (_, NumberV::NotANumber) => false,
        (NumberV::Infinite(an), NumberV::Infinite(bn)) => an && !bn,
        (NumberV::Infinite(an), NumberV::Finite(_, _, _)) => an,
        (NumberV::Finite(_, _, _), NumberV::Infinite(bn)) => !bn,
        (NumberV::Finite(an, ad, ae), NumberV::Finite(bn, bd, be)) => {
            if an != bn {
                an
            } else if an {
                magnitude_below(bd, be, ad, ae)
            } else {
                magnitude_below(ad, ae, bd, be)
            }
        },
    }
}

proof fn lemma_digits_below_order(x: Seq<u8>, y: Seq<u8>, z: Seq<u8>)
    ensures
        digits_below(x, y) ==> !digits_below(y, x),
        digits_below(x, z) ==> digits_below(x, y) || digits_below(y, z),
    decreases x.len(),
{
    if x.len() > 0 && y.len() > 0 && z.len() > 0 {
        lemma_digits_below_order(x.drop_first(), y.drop_first(), z.drop_first());
    } else if x.len() > 0 && y.len() > 0 {
        lemma_digits_below_order(x.drop_first(), y.drop_first(), y.drop_first());
    }
}

proof fn lemma_magnitude_below_order(xd: Seq<u8>, xe: int, yd: Seq<u8>, ye: int, zd: Seq<u8>, ze: int)
    ensures
        magnitude_below(xd, xe, yd, ye) ==> !magnitude_below(yd, ye, xd, xe),
        magnitude_below(xd, xe, zd, ze) ==> magnitude_below(xd, xe, yd, ye) || magnitude_below(yd, ye, zd, ze),
{
    lemma_digits_below_order(xd, yd, zd);
}

/// `number_below` orders the numbers (`NaN` aside) strictly and weakly: it
/// is asymmetric, and whatever lies below a number lies below, or level
/// with, any third number.
pub proof fn lemma_number_below_order(a: NumberV, b: NumberV, c: NumberV)
    requires
        !(a is NotANumber),
        !(b is NotANumber),
        !(c is NotANumber),
    ensures
        number_below(a, b) ==> !number_below(b, a),
        number_below(a, c) ==> number_below(a, b) || number_below(b, c),
{
    if let (NumberV::Finite(an, ad, ae), NumberV::Finite(bn, bd, be), NumberV::Finite(cn, cd, ce)) = (a, b, c) {
        lemma_magnitude_below_order(ad, ae, bd, be, cd, ce);
        lemma_magnitude_below_order(cd, ce, bd, be, ad, ae);
    } else if let (NumberV::Finite(an, ad, ae), NumberV::Finite(bn, bd, be)) = (a, b) {
        lemma_magnitude_below_order(ad, ae, bd, be, ad, ae);
        lemma_magnitude_below_order(bd, be, ad, ae, bd, be);
    } else if let (NumberV::Finite(an, ad, ae), NumberV::Finite(cn, cd, ce)) = (a, c) {
        lemma_magnitude_below_order(ad, ae, cd, ce, ad, ae);
        lemma_magnitude_below_order(cd, ce, ad, ae, cd, ce);
    } else if let (NumberV::Finite(bn, bd, be), NumberV::Finite(cn, cd, ce)) = (b, c) {
        lemma_magnitude_below_order(bd, be, cd, ce, bd, be);
        lemma_magnitude_below_order(cd, ce, bd, be, cd, ce);
    }
}

/// `a >= b`; false whenever either is not a number.
pub open spec fn number_at_least(a: NumberV, b: NumberV) -> bool {
    !(a is NotANumber) && !(b is NotANumber) && !number_below(a, b)
}

fn digits_end_exec(s: &[char], i: usize) -> (r: usize)
    requires
        i <= s.len(),
    ensures
        r as int == digits_end(s@, i as int),
        i <= r <= s.len(),
{
    let mut j = i;
    while j < s.len() && '0' <= s[j] && s[j] <= '9'
        invariant
            i <= j <= s.len(),
            digits_end(s@, j as int) == digits_end(s@, i as int),
        decreases s.len() - j,
    {
        j += 1;
    }
    j
}

proof fn lemma_digits_end(s: Seq<char>, i: int)
    requires
        0 <= i,
    ensures
        i <= digits_end(s, i),
        i <= s.len() ==> digits_end(s, i) <= s.len(),
        forall|k: int| i <= k < digits_end(s, i) ==> is_digit(#[trigger] s[k]),
    decreases s.len() - i,
{
    if i < s.len() && is_digit(s[i]) {
        lemma_digits_end(s, i + 1);
    }
}

fn exponent_mark_exec(s: &[char]) -> (r: usize)
    ensures
        r as int == exponent_mark(s@, 0),
        r <= s.len(),
{
    let mut i: usize = 0;
    while i < s.len() && s[i] != 'e' && s[i] != 'E'
        invariant
            i <= s.len(),
            exponent_mark(s@, i as int) == exponent_mark(s@, 0),
        decreases s.len() - i,
    {
        i += 1;
    }
    i
}

fn exponent_value_exec(x: &[char]) -> (r: Option<i128>)
    ensures
        match r {
            Some(v) => exponent_value(x@) == Some(v as int),
            None => exponent_value(x@) is None,
        },
        r matches Some(v) ==> -exponent_cap() <= v <= exponent_cap(),
{
    let start: usize = if x.len() > 0 && (x[0] == '+' || x[0] == '-') {
        1
    } else {
        0
    };
    let negative = x.len() > 0 && x[0] == '-';
    let ghost d = x@.skip(start as int);
    assert(d =~= (if x@.len() > 0 && (x@[0] == '+' || x@[0] == '-') {
        x@.drop_first()
    } else {
        x@
    }));
    if start >= x.len() {
        return None;
    }
    let mut v: i128 = 0;
    let mut i = start;
    while i < x.len()
        invariant
            start <= i <= x.len(),
            start < x.len(),
            d == x@.skip(start as int),
            d == (if x@.len() > 0 && (x@[0] == '+' || x@[0] == '-') {
                x@.drop_first()
            } else {
                x@
            }),
            v as int == capped_value(d.take(i - start)),
            0 <= v <= exponent_cap(),
            forall|k: int| start <= k < i ==> is_digit(#[trigger] x@[k]),
        decreases x.len() - i,
    {
        if x[i] < '0' || x[i] > '9' {
            assert(!is_digit(d[i - start]));
            assert(!all_digits(d));
            return None;
        }
        assert(d.take(i - start + 1).drop_last() =~= d.take(i - start));
        let digit = ((x[i] as u32) - ('0' as u32)) as i128;
        let next = v * 10 + digit;
        v = if next > 1_000_000_000_000 {
            1_000_000_000_000
        } else {
            next
        };
        i += 1;
    }
    assert(d.take(x@.len() - start) =~= d);
    assert(all_digits(d));
    if negative {
        Some(-v)
    } else {
        Some(v)
    }
}

fn first_nonzero_exec(ds: &Vec<u8>) -> (r: usize)
    ensures
        r as int == first_nonzero(ds@, 0),
        r <= ds.len(),
{
    let mut i: usize = 0;
    while i < ds.len() && ds[i] == 0
        invariant
            i <= ds.len(),
            first_nonzero(ds@, i as int) == first_nonzero(ds@, 0),
        decreases ds.len() - i,
    {
        i += 1;
    }
    i
}

fn last_nonzero_end_exec(ds: &Vec<u8>, lo: usize) -> (r: usize)
    requires
        lo <= ds.len(),
    ensures
        r as int == last_nonzero_end(ds@, ds.len() as int, lo as int),
        lo <= r <= ds.len(),
{
    let mut j: usize = ds.len();
    while j > lo && ds[j - 1] == 0
        invariant
            lo <= j <= ds.len(),
            last_nonzero_end(ds@, j as int, lo as int) == last_nonzero_end(ds@, ds.len() as int, lo as int),
        decreases j,
    {
        j -= 1;
    }
    j
}

fn canonical_exec(negative: bool, ds: Vec<u8>, point: usize, e: i128) -> (r: Number)
    requires
        -exponent_cap() <= e <= exponent_cap(),
    ensures
        r@ == canonical(negative, ds@, point as int, e as int),
{
    let lead = first_nonzero_exec(&ds);
    if lead >= ds.len() {
        let empty: Vec<u8> = Vec::new();
        assert(empty@ =~= seq![]);
        return Number::Finite(false, empty, 0);
    }
    let end = last_nonzero_end_exec(&ds, lead);
    let mut kept: Vec<u8> = Vec::new();
    let mut i = lead;
    while i < end
        invariant
            lead <= i <= end <= ds.len(),
            kept@ =~= ds@.subrange(lead as int, i as int),
        decreases end - i,
    {
        kept.push(ds[i]);
        i += 1;
    }
    let exponent: i128 = (point as i128) - (lead as i128) + e;
    Number::Finite(negative, kept, exponent)
}

fn push_digit_values(out: &mut Vec<u8>, s: &[char], a: usize, b: usize)
    requires
        a <= b <= s.len(),
        forall|k: int| a <= k < b ==> is_digit(#[trigger] s@[k]),
    ensures
        final(out)@ == old(out)@ + digit_values(s@.subrange(a as int, b as int)),
{
    let ghost start = out@;
    let mut i = a;
    while i < b
        invariant
            a <= i <= b <= s.len(),
            forall|k: int| a <= k < b ==> is_digit(#[trigger] s@[k]),
            out@ =~= start + digit_values(s@.subrange(a as int, i as int)),
        decreases b - i,
    {
        out.push(((s[i] as u32) - ('0' as u32)) as u8);
        i += 1;
        assert(out@ =~= start + digit_values(s@.subrange(a as int, i as int)));
    }
}

fn decimal_exec(negative: bool, s: &[char]) -> (r: Option<Number>)
    ensures
        number_opt_view(r) == decimal_of(negative, s@),
{
    let k = exponent_mark_exec(s);
    let m = &s[0..k];
    assert(m@ =~= s@.take(k as int));
    let a = digits_end_exec(m, 0);
    let dotted = a < m.len() && m[a] == '.';
    let frac_start = if dotted {
        a + 1
    } else {
        a
    };
    let b = if dotted {
        digits_end_exec(m, a + 1)
    } else {
        a
    };
    let e: Option<i128> = if k == s.len() {
        Some(0)
    } else {
        let x = &s[k + 1..s.len()];
        assert(x@ =~= s@.skip(k + 1));
        exponent_value_exec(x)
    };
    if !(b == m.len() && (a > 0 || b > frac_start)) {
        return None;
    }
    match e {
        None => None,
        Some(ev) => {
            proof {
                lemma_digits_end(m@, 0);
                if dotted {
                    lemma_digits_end(m@, a + 1);
                }
            }
            let mut ds: Vec<u8> = Vec::new();
            push_digit_values(&mut ds, m, 0, a);
            push_digit_values(&mut ds, m, frac_start, b);
            assert(digit_values(m@.subrange(0, a as int)) + digit_values(m@.subrange(frac_start as int, b as int))
                =~= digit_values(m@.take(a as int) + m@.subrange(frac_start as int, b as int)));
            assert(ds@ =~= digit_values(m@.take(a as int) + m@.subrange(frac_start as int, b as int)));
            Some(canonical_exec(negative, ds, a, ev))
        },
    }
}

/// Reads a number as `f64::from_str` does, keeping its exact value.
pub fn parse_number(s: &[char]) -> (r: Option<Number>)
    ensures
        number_opt_view(r) == number_of(s@),
{
    let negative = s.len() > 0 && s[0] == '-';
    let start: usize = if s.len() > 0 && (s[0] == '+' || s[0] == '-') {
        1
    } else {
        0
    };
    let rest = &s[start..s.len()];
    assert(rest@ =~= (if s@.len() > 0 && (s@[0] == '+' || s@[0] == '-') {
        s@.drop_first()
    } else {
        s@
    }));
    let low = crate::text::to_lower(rest);
    if crate::text::eq_str(low.as_slice(), "inf") || crate::text::eq_str(low.as_slice(), "infinity") {
        return Some(Number::Infinite(negative));
    }
    if crate::text::eq_str(low.as_slice(), "nan") {
        return Some(Number::NotANumber);
    }
    decimal_exec(negative, rest)
}

fn digits_below_exec(x: &Vec<u8>, y: &Vec<u8>) -> (r: bool)
    ensures
        r == digits_below(x@, y@),
{
    let mut i: usize = 0;
    assert(x@.skip(0) =~= x@);
    assert(y@.skip(0) =~= y@);
    while i < x.len() && i < y.len() && x[i] == y[i]
        invariant
            i <= x.len(),
            i <= y.len(),
            digits_below(x@.skip(i as int), y@.skip(i as int)) == digits_below(x@, y@),
        decreases x.len() - i,
    {
        assert(x@.skip(i as int).drop_first() =~= x@.skip(i + 1));
        assert(y@.skip(i as int).drop_first() =~= y@.skip(i + 1));
        i += 1;
    }
    if i >= y.len() {
        false
    } else if i >= x.len() {
        true
    } else {
        x[i] < y[i]
    }
}

fn magnitude_below_exec(xd: &Vec<u8>, xe: i128, yd: &Vec<u8>, ye: i128) -> (r: bool)
    ensures
        r == magnitude_below(xd@, xe as int, yd@, ye as int),
{
    if yd.len() == 0 {
        false
    } else if xd.len() == 0 {
        true
    } else if xe != ye {
        xe < ye
    } else {
        digits_below_exec(xd, yd)
    }
}

/// `a < b`, false when either is not a number.
pub fn below(a: &Number, b: &Number) -> (r: bool)
    ensures
        r == number_below(a@, b@),
{
    match (a, b) {
        (Number::NotANumber, _) => false,
        (_, Number::NotANumber) => false,
        (Number::Infinite(an), Number::Infinite(bn)) => *an && !*bn,
        (Number::Infinite(an), Number::Finite(_, _, _)) => *an,
        (Number::Finite(_, _, _), Number::Infinite(bn)) => !*bn,
        (Number::Finite(an, ad, ae), Number::Finite(bn, bd, be)) => {
            if *an != *bn {
                *an
            } else if *an {
                magnitude_below_exec(bd, *be, ad, *ae)
            } else {
                magnitude_below_exec(ad, *ae, bd, *be)
            }
        },
    }
}

/// `a >= b`, false when either is not a number.
pub fn at_least(a: &Number, b: &Number) -> (r: bool)
    ensures
        r == number_at_least(a@, b@),
{
    match (a, b) {
        (Number::NotANumber, _) => false,
        (_, Number::NotANumber) => false,
        _ => !below(a, b),
    }
}

// ---------------------------------------------------------------------------
// Numbers in cell text
// ---------------------------------------------------------------------------

/// `s` without the copies of `c` at its end.
pub open spec fn trim_end_char(s: Seq<char>, c: char) -> Seq<char>
    decreases s.len(),
{
    if s.len() > 0 && s.last() == c {
        trim_end_char(s.drop_last(), c)
    } else {
        s
    }
}

/// `s` without any copy of `c`.
pub open spec fn without_char(s: Seq<char>, c: char) -> Seq<char>
    decreases s.len(),
{
    if s.len() == 0 {
        seq![]
    } else if s.last() == c {
        without_char(s.drop_last(), c)
    } else {
        without_char(s.drop_last(), c).push(s.last())
    }
}

/// The text of a cell as a number is read from it: trimmed, without the
/// percent signs at its end and without thousands separators.
pub open spec fn numeric_text(s: Seq<char>) -> Seq<char> {
    without_char(trim_end_char(trim(s), '%'), ',')
}

pub fn numeric_text_exec(s: &[char]) -> (r: Vec<char>)
    ensures
        r@ == numeric_text(s@),
{
    let t = trimmed(s);
    let mut end = t.len();
    assert(t@.take(t@.len() as int) =~= t@);
    while end > 0 && t[end - 1] == '%'
        invariant
            end <= t.len(),
            trim_end_char(t@.take(end as int), '%') == trim_end_char(t@, '%'),
        decreases end,
    {
        assert(t@.take(end as int).drop_last() =~= t@.take(end - 1));
        end -= 1;
    }
    let ghost cut = t@.take(end as int);
    assert(t@.take(t@.len() as int) =~= t@);
    let mut out: Vec<char> = Vec::new();
    let mut i: usize = 0;
    while i < end
        invariant
            i <= end <= t.len(),
            cut == t@.take(end as int),
            out@ == without_char(cut.take(i as int), ','),
        decreases end - i,
    {
        assert(cut.take(i + 1).drop_last() =~= cut.take(i as int));
        if t[i] != ',' {
            out.push(t[i]);
        }
        i += 1;
    }
    assert(cut.take(end as int) =~= cut);
    out
}

/// The decimal digits of `n`, most significant first.
pub open spec fn digits_of(n: nat) -> Seq<u8>
    decreases n,
{
    if n < 10 {
        seq![n as u8]
    } else {
        digits_of(n / 10).push((n % 10) as u8)
    }
}

fn digits_exec(n: u64) -> (r: Vec<u8>)
    ensures
        r@ == digits_of(n as nat),
    decreases n,
{
    if n < 10 {
        let mut v: Vec<u8> = Vec::new();
        v.push(n as u8);
        assert(v@ =~= seq![n as u8]);
        v
    } else {
        let mut v = digits_exec(n / 10);
        v.push((n % 10) as u8);
        v
    }
}

/// The value at which a gauge of 64 eighths reaches step `t`: the least
/// percentage that rounds to `t` eighths, `(50t - 25) / 32`, which is
/// `156250t - 78125` hundred-thousandths.
pub open spec fn gauge_step(t: nat) -> NumberV {
    let n = (156250 * t - 78125) as nat;
    canonical(false, digits_of(n), digits_of(n).len() as int, -5)
}

/// How many of the steps `1..=t` a value reaches.
pub open spec fn steps_reached(v: NumberV, t: nat) -> nat
    decreases t,
{
    if t == 0 {
        0
    } else {
        steps_reached(v, (t - 1) as nat) + if number_at_least(v, gauge_step(t)) {
            1nat
        } else {
            0nat
        }
    }
}

/// The eighths of an eight-cell gauge that a percentage text fills: its
/// value, held to `0..=100`, times 64/100, rounded half away from zero (the
/// number of steps it reaches); `None` where the text is no number.
pub open spec fn gauge_of(text: Seq<char>) -> Option<nat> {
    match number_of(trim_end_char(trim(text), '%')) {
        Some(v) => Some(steps_reached(v, 64)),
        None => None,
    }
}

pub fn gauge_eighths(text: &[char]) -> (r: Option<u64>)
    ensures
        match r {
            Some(e) => gauge_of(text@) == Some(e as nat),
            None => gauge_of(text@) is None,
        },
{
    let t = trimmed(text);
    let mut end = t.len();
    assert(t@.take(t@.len() as int) =~= t@);
    while end > 0 && t[end - 1] == '%'
        invariant
            end <= t.len(),
            trim_end_char(t@.take(end as int), '%') == trim_end_char(t@, '%'),
        decreases end,
    {
        assert(t@.take(end as int).drop_last() =~= t@.take(end - 1));
        end -= 1;
    }
    let cut = crate::text::slice_of(t.as_slice(), 0, end);
    assert(cut@ =~= t@.take(end as int));
    let v = match parse_number(cut.as_slice()) {
        Some(v) => v,
        None => {
            return None;
        },
    };
    let mut count: u64 = 0;
    let mut step: u64 = 1;
    while step <= 64
        invariant
            1 <= step <= 65,
            count as nat == steps_reached(v@, (step - 1) as nat),
            count < step,
        decreases 65 - step,
    {
        let n: u64 = 156250 * step - 78125;
        let ds = digits_exec(n);
        let len = ds.len();
        let threshold = canonical_exec(false, ds, len, -5);
        assert(threshold@ == gauge_step(step as nat));
        if at_least(&v, &threshold) {
            count += 1;
        }
        step += 1;
    }
    Some(count)
}

/// The number `c / 100`.
pub open spec fn hundredths(c: u8) -> NumberV {
    canonical(false, digits_of(c as nat), digits_of(c as nat).len() as int, -2)
}

/// The number `c / 100`, as a confidence in hundredths stands for.
pub fn from_hundredths(c: u8) -> (r: Number)
    ensures
        r@ == hundredths(c),
{
    let ds = digits_exec(c as u64);
    let len = ds.len();
    canonical_exec(false, ds, len, -2)
}

/// The value `t - 1/2`, at which a percentage starts to round to `t`.
pub open spec fn half_step(t: nat) -> NumberV {
    let m = (10 * t - 5) as nat;
    canonical(false, digits_of(m), digits_of(m).len() as int, -1)
}

/// How many of the whole percentages `1..=t` a value rounds up to.
pub open spec fn percents_reached(v: NumberV, t: nat) -> nat
    decreases t,
{
    if t == 0 {
        0
    } else {
        percents_reached(v, (t - 1) as nat) + if number_at_least(v, half_step(t)) {
            1nat
        } else {
            0nat
        }
    }
}

/// A percentage text as a whole number of percent: its value held to
/// `0..=100` and rounded half away from zero (the number of whole percents
/// it reaches); `None` where the text is no number.
pub open spec fn percent_of(text: Seq<char>) -> Option<nat> {
    match number_of(trim_end_char(trim(text), '%')) {
        Some(v) => Some(percents_reached(v, 100)),
        None => None,
    }
}

pub fn rounded_percent(text: &[char]) -> (r: Option<u64>)
    ensures
        match r {
            Some(p) => percent_of(text@) == Some(p as nat),
            None => percent_of(text@) is None,
        },
{
    let t = trimmed(text);
    let mut end = t.len();
    assert(t@.take(t@.len() as int) =~= t@);
    while end > 0 && t[end - 1] == '%'
        invariant
            end <= t.len(),
            trim_end_char(t@.take(end as int), '%') == trim_end_char(t@, '%'),
        decreases end,
    {
        assert(t@.take(end as int).drop_last() =~= t@.take(end - 1));
        end -= 1;
    }
    let cut = crate::text::slice_of(t.as_slice(), 0, end);
    assert(cut@ =~= t@.take(end as int));
    let v = match parse_number(cut.as_slice()) {
        Some(v) => v,
        None => {
            return None;
        },
    };
    let mut count: u64 = 0;
    let mut step: u64 = 1;
    while step <= 100
        invariant
            1 <= step <= 101,
            count as nat == percents_reached(v@, (step - 1) as nat),
            count < step,
        decreases 101 - step,
    {
        let m: u64 = 10 * step - 5;
        let ds = digits_exec(m);
        let len = ds.len();
        let threshold = canonical_exec(false, ds, len, -1);
        assert(threshold@ == half_step(step as nat));
        if at_least(&v, &threshold) {
            count += 1;
        }
        step += 1;
    }
    Some(count)
}

} // verus!

use vstd::prelude::*;

verus! {

// ---------------------------------------------------------------------------
// Character classes
// ---------------------------------------------------------------------------

/// The characters with the Unicode `White_Space` property (`char::is_whitespace`).
pub open spec fn is_ws(c: char) -> bool {
    ||| ('\u{9}' <= c && c <= '\u{d}')
    ||| c == ' '
    ||| c == '\u{85}'
    ||| c == '\u{a0}'
    ||| c == '\u{1680}'
    ||| ('\u{2000}' <= c && c <= '\u{200a}')
    ||| c == '\u{2028}'
    ||| c == '\u{2029}'
    ||| c == '\u{202f}'
    ||| c == '\u{205f}'
    ||| c == '\u{3000}'
}

/// ASCII whitespace as `u8::is_ascii_whitespace` defines it.
pub open spec fn is_ascii_ws(c: char) -> bool {
    c == ' ' || c == '\t' || c == '\n' || c == '\u{c}' || c == '\r'
}

pub open spec fn is_digit(c: char) -> bool {
    '0' <= c && c <= '9'
}

pub open spec fn is_upper(c: char) -> bool {
    'A' <= c && c <= 'Z'
}

pub open spec fn is_lower(c: char) -> bool {
    'a' <= c && c <= 'z'
}

pub open spec fn is_alpha(c: char) -> bool {
    is_upper(c) || is_lower(c)
}

pub open spec fn is_alnum(c: char) -> bool {
    is_alpha(c) || is_digit(c)
}

pub open spec fn is_hex(c: char) -> bool {
    is_digit(c) || ('a' <= c && c <= 'f') || ('A' <= c && c <= 'F')
}

pub open spec fn lower_char(c: char) -> char {
    if is_upper(c) {
        ((c as u8) + 32) as u8 as char
    } else {
        c
    }
}

pub open spec fn upper_char(c: char) -> char {
    if is_lower(c) {
        ((c as u8) - 32) as u8 as char
    } else {
        c
    }
}

pub open spec fn lower(s: Seq<char>) -> Seq<char> {
    s.map_values(|c: char| lower_char(c))
}

pub open spec fn upper(s: Seq<char>) -> Seq<char> {
    s.map_values(|c: char| upper_char(c))
}

pub fn is_whitespace(c: char) -> (b: bool)
    ensures
        b == is_ws(c),
{
    ('\u{9}' <= c && c <= '\u{d}') || c == ' ' || c == '\u{85}' || c == '\u{a0}' || c == '\u{1680}'
        || ('\u{2000}' <= c && c <= '\u{200a}') || c == '\u{2028}' || c == '\u{2029}' || c
        == '\u{202f}' || c == '\u{205f}' || c == '\u{3000}'
}

pub fn is_ascii_whitespace(c: char) -> (b: bool)
    ensures
        b == is_ascii_ws(c),
{
    c == ' ' || c == '\t' || c == '\n' || c == '\u{c}' || c == '\r'
}

pub fn is_ascii_digit(c: char) -> (b: bool)
    ensures
        b == is_digit(c),
{
    '0' <= c && c <= '9'
}

pub fn is_ascii_alphabetic(c: char) -> (b: bool)
    ensures
        b == is_alpha(c),
{
    ('A' <= c && c <= 'Z') || ('a' <= c && c <= 'z')
}

pub fn is_ascii_alphanumeric(c: char) -> (b: bool)
    ensures
        b == is_alnum(c),
{
    ('A' <= c && c <= 'Z') || ('a' <= c && c <= 'z') || ('0' <= c && c <= '9')
}

pub fn is_ascii_hexdigit(c: char) -> (b: bool)
    ensures
        b == is_hex(c),
{
    ('0' <= c && c <= '9') || ('a' <= c && c <= 'f') || ('A' <= c && c <= 'F')
}

pub fn is_ascii_lowercase(c: char) -> (b: bool)
    ensures
        b == is_lower(c),
{
    'a' <= c && c <= 'z'
}

pub fn to_lower_char(c: char) -> (r: char)
    ensures
        r == lower_char(c),
{
    if 'A' <= c && c <= 'Z' {
        ((c as u8) + 32) as char
    } else {
        c
    }
}

pub fn to_upper_char(c: char) -> (r: char)
    ensures
        r == upper_char(c),
{
    if 'a' <= c && c <= 'z' {
        ((c as u8) - 32) as char
    } else {
        c
    }
}

/// The deep view of a character vector is its view.
pub proof fn lemma_deep_chars(v: &Vec<char>)
    ensures
        v.deep_view() == v@,
{
    assert(v.deep_view() =~= v@);
}

/// Appends a piece of text to a list of pieces.
pub fn push_text(v: &mut Vec<Vec<char>>, t: Vec<char>)
    ensures
        final(v).deep_view() == old(v).deep_view().push(t@),
{
    let ghost before = v.deep_view();
    proof {
        lemma_deep_chars(&t);
    }
    v.push(t);
    assert(v.deep_view() =~= before.push(t@));
}

// ---------------------------------------------------------------------------
// Conversions between strings and character vectors
// ---------------------------------------------------------------------------

/// Appends one character to a string (`String::push`).
#[verifier::external_body]
pub(crate) fn push_char(s: &mut String, c: char)
    ensures
        final(s)@ == old(s)@.push(c),
{
    s.push(c);
}

/// The characters of a string slice.
pub fn chars_of(s: &str) -> (v: Vec<char>)
    ensures
        v@ == s@,
{
    let mut v: Vec<char> = Vec::new();
    for c in it: s.chars()
        invariant
            v@ == it.seq().take(it.index() as int),
    {
        v.push(c);
    }
    v
}

/// A string holding the given characters.
pub fn string_of(s: &[char]) -> (r: String)
    ensures
        r@ == s@,
{
    let mut r = String::new();
    let mut i: usize = 0;
    while i < s.len()
        invariant
            i <= s@.len(),
            r@ == s@.take(i as int),
        decreases s@.len() - i,
    {
        push_char(&mut r, s[i]);
        i += 1;
        assert(r@ =~= s@.take(i as int));
    }
    assert(s@.take(s@.len() as int) =~= s@);
    r
}

/// Appends characters to a vector.
pub fn extend(out: &mut Vec<char>, s: &[char])
    ensures
        final(out)@ == old(out)@ + s@,
{
    let ghost start = out@;
    let mut i: usize = 0;
    while i < s.len()
        invariant
            i <= s@.len(),
            out@ == start + s@.take(i as int),
        decreases s@.len() - i,
    {
        out.push(s[i]);
        i += 1;
        assert(out@ =~= start + s@.take(i as int));
    }
    assert(s@.take(s@.len() as int) =~= s@);
}

/// Appends the characters of a string slice to a vector.
pub fn extend_str(out: &mut Vec<char>, s: &str)
    ensures
        final(out)@ == old(out)@ + s@,
{
    let v = chars_of(s);
    extend(out, v.as_slice());
}

/// A copy of `s[a..b]`.
pub fn slice_of(s: &[char], a: usize, b: usize) -> (r: Vec<char>)
    requires
        a <= b <= s@.len(),
    ensures
        r@ == s@.subrange(a as int, b as int),
{
    let mut r: Vec<char> = Vec::new();
    let mut i = a;
    while i < b
        invariant
            a <= i <= b <= s@.len(),
            r@ == s@.subrange(a as int, i as int),
        decreases b - i,
    {
        r.push(s[i]);
        i += 1;
        assert(r@ =~= s@.subrange(a as int, i as int));
    }
    r
}

pub fn copy(s: &[char]) -> (r: Vec<char>)
    ensures
        r@ == s@,
{
    let r = slice_of(s, 0, s.len());
    assert(s@.subrange(0, s@.len() as int) =~= s@);
    r
}

pub fn to_lower(s: &[char]) -> (r: Vec<char>)
    ensures
        r@ == lower(s@),
{
    let mut r: Vec<char> = Vec::new();
    let mut i: usize = 0;
    while i < s.len()
        invariant
            i <= s@.len(),
            r@ == lower(s@.take(i as int)),
        decreases s@.len() - i,
    {
        r.push(to_lower_char(s[i]));
        i += 1;
        assert(r@ =~= lower(s@.take(i as int)));
    }
    assert(s@.take(s@.len() as int) =~= s@);
    r
}

pub fn to_upper(s: &[char]) -> (r: Vec<char>)
    ensures
        r@ == upper(s@),
{
    let mut r: Vec<char> = Vec::new();
    let mut i: usize = 0;
    while i < s.len()
        invariant
            i <= s@.len(),
            r@ == upper(s@.take(i as int)),
        decreases s@.len() - i,
    {
        r.push(to_upper_char(s[i]));
        i += 1;
        assert(r@ =~= upper(s@.take(i as int)));
    }
    assert(s@.take(s@.len() as int) =~= s@);
    r
}

// ---------------------------------------------------------------------------
// Comparison and search
// ---------------------------------------------------------------------------

pub fn eq(a: &[char], b: &[char]) -> (r: bool)
    ensures
        r == (a@ == b@),
{
    if a.len() != b.len() {
        return false;
    }
    let mut i: usize = 0;
    while i < a.len()
        invariant
            a@.len() == b@.len(),
            i <= a@.len(),
            forall|j: int| 0 <= j < i ==> a@[j] == b@[j],
        decreases a@.len() - i,
    {
        if a[i] != b[i] {
            return false;
        }
        i += 1;
    }
    assert(a@ =~= b@);
    true
}

/// `a == b` where `b` is a string slice.
pub fn eq_str(a: &[char], b: &str) -> (r: bool)
    ensures
        r == (a@ == b@),
{
    let v = chars_of(b);
    eq(a, v.as_slice())
}

/// `p` occurs in `s` at position `i`.
pub open spec fn occurs_at(s: Seq<char>, p: Seq<char>, i: int) -> bool {
    0 <= i && i + p.len() <= s.len() && s.subrange(i, i + p.len()) == p
}

pub open spec fn contains_seq(s: Seq<char>, p: Seq<char>) -> bool {
    exists|i: int| occurs_at(s, p, i)
}

pub open spec fn starts_with(s: Seq<char>, p: Seq<char>) -> bool {
    p.len() <= s.len() && s.take(p.len() as int) == p
}

pub open spec fn ends_with(s: Seq<char>, p: Seq<char>) -> bool {
    p.len() <= s.len() && s.skip(s.len() - p.len()) == p
}

fn matches_at(s: &[char], p: &[char], i: usize) -> (r: bool)
    requires
        i <= s@.len(),
    ensures
        r == occurs_at(s@, p@, i as int),
{
    if p.len() > s.len() - i {
        return false;
    }
    let mut j: usize = 0;
    while j < p.len()
        invariant
            i + p@.len() <= s@.len(),
            j <= p@.len(),
            forall|k: int| 0 <= k < j ==> s@[i + k] == p@[k],
        decreases p@.len() - j,
    {
        assert(i + j < s.len());
        if s[i + j] != p[j] {
            assert(s@.subrange(i as int, i + p@.len())[j as int] != p@[j as int]);
            return false;
        }
        j += 1;
    }
    assert(s@.subrange(i as int, i + p@.len()) =~= p@);
    true
}

/// The first position at which `p` occurs in `s` (`str::find`).
pub fn find(s: &[char], p: &[char]) -> (r: Option<usize>)
    ensures
        match r {
            Some(i) => occurs_at(s@, p@, i as int) && forall|j: int|
                0 <= j < i ==> !occurs_at(s@, p@, j),
            None => !contains_seq(s@, p@),
        },
{
    let mut i: usize = 0;
    while i < s.len()
        invariant
            i <= s@.len(),
            forall|j: int| 0 <= j < i ==> !occurs_at(s@, p@, j),
        decreases s@.len() - i,
    {
        if matches_at(s, p, i) {
            return Some(i);
        }
        i += 1;
    }
    if matches_at(s, p, i) {
        return Some(i);
    }
    assert forall|j: int| !occurs_at(s@, p@, j) by {
        if 0 <= j <= i {
        }
    }
    None
}

pub fn contains(s: &[char], p: &[char]) -> (r: bool)
    ensures
        r == contains_seq(s@, p@),
{
    find(s, p).is_some()
}

pub fn contains_str(s: &[char], p: &str) -> (r: bool)
    ensures
        r == contains_seq(s@, p@),
{
    let v = chars_of(p);
    contains(s, v.as_slice())
}

/// The first position of a character.
pub fn find_char(s: &[char], c: char) -> (r: Option<usize>)
    ensures
        match r {
            Some(i) => i < s@.len() && s@[i as int] == c && forall|j: int| 0 <= j < i ==> s@[j] != c,
            None => forall|j: int| 0 <= j < s@.len() ==> s@[j] != c,
        },
{
    let mut i: usize = 0;
    while i < s.len()
        invariant
            i <= s@.len(),
            forall|j: int| 0 <= j < i ==> s@[j] != c,
        decreases s@.len() - i,
    {
        if s[i] == c {
            return Some(i);
        }
        i += 1;
    }
    None
}

pub fn has_char(s: &[char], c: char) -> (r: bool)
    ensures
        r == s@.contains(c),
{
    match find_char(s, c) {
        Some(i) => {
            assert(s@[i as int] == c);
            true
        },
        None => false,
    }
}

pub fn starts_with_str(s: &[char], p: &str) -> (r: bool)
    ensures
        r == starts_with(s@, p@),
{
    let v = chars_of(p);
    let r = matches_at(s, v.as_slice(), 0);
    assert(starts_with(s@, p@) == occurs_at(s@, p@, 0)) by {
        if p@.len() <= s@.len() {
            assert(s@.take(p@.len() as int) =~= s@.subrange(0, p@.len() as int));
        }
    }
    r
}

pub fn ends_with_str(s: &[char], p: &str) -> (r: bool)
    ensures
        r == ends_with(s@, p@),
{
    let v = chars_of(p);
    if v.len() > s.len() {
        return false;
    }
    let r = matches_at(s, v.as_slice(), s.len() - v.len());
    assert(s@.skip(s@.len() - p@.len()) =~= s@.subrange(
        s@.len() - p@.len(),
        s@.len() - p@.len() + p@.len(),
    ));
    r
}

pub fn starts_with_char(s: &[char], c: char) -> (r: bool)
    ensures
        r == (s@.len() > 0 && s@[0] == c),
{
    s.len() > 0 && s[0] == c
}

pub fn ends_with_char(s: &[char], c: char) -> (r: bool)
    ensures
        r == (s@.len() > 0 && s@.last() == c),
{
    s.len() > 0 && s[s.len() - 1] == c
}

// ---------------------------------------------------------------------------
// Trimming
// ---------------------------------------------------------------------------

pub open spec fn trim_start(s: Seq<char>) -> Seq<char>
    decreases s.len(),
{
    if s.len() > 0 && is_ws(s[0]) {
        trim_start(s.drop_first())
    } else {
        s
    }
}

pub open spec fn trim_end(s: Seq<char>) -> Seq<char>
    decreases s.len(),
{
    if s.len() > 0 && is_ws(s.last()) {
        trim_end(s.drop_last())
    } else {
        s
    }
}

pub open spec fn trim(s: Seq<char>) -> Seq<char> {
    trim_end(trim_start(s))
}

/// Only whitespace: `s.trim().is_empty()`.
pub open spec fn is_blank(s: Seq<char>) -> bool {
    forall|j: int| 0 <= j < s.len() ==> is_ws(#[trigger] s[j])
}

/// The position of the first non-whitespace character (or the length).
pub fn trim_start_index(s: &[char]) -> (r: usize)
    ensures
        r <= s@.len(),
        trim_start(s@) == s@.skip(r as int),
        forall|j: int| 0 <= j < r ==> is_ws(#[trigger] s@[j]),
        r < s@.len() ==> !is_ws(s@[r as int]),
{
    let mut i: usize = 0;
    assert(s@.skip(0) =~= s@);
    while i < s.len() && is_whitespace(s[i])
        invariant
            i <= s@.len(),
            trim_start(s@) == trim_start(s@.skip(i as int)),
            forall|j: int| 0 <= j < i ==> is_ws(#[trigger] s@[j]),
        decreases s@.len() - i,
    {
        assert(s@.skip(i as int).drop_first() =~= s@.skip(i + 1));
        i += 1;
    }
    i
}

/// The position just past the last non-whitespace character at or after `lo`.
pub fn trim_end_index(s: &[char], lo: usize) -> (r: usize)
    requires
        lo <= s@.len(),
    ensures
        lo <= r <= s@.len(),
        trim_end(s@.subrange(lo as int, s@.len() as int)) == s@.subrange(lo as int, r as int),
        forall|j: int| r <= j < s@.len() ==> is_ws(#[trigger] s@[j]),
        r > lo ==> !is_ws(s@[r - 1]),
{
    let mut i: usize = s.len();
    while i > lo && is_whitespace(s[i - 1])
        invariant
            lo <= i <= s@.len(),
            trim_end(s@.subrange(lo as int, s@.len() as int)) == trim_end(
                s@.subrange(lo as int, i as int),
            ),
            forall|j: int| i <= j < s@.len() ==> is_ws(#[trigger] s@[j]),
        decreases i,
    {
        assert(s@.subrange(lo as int, i as int).drop_last() =~= s@.subrange(
            lo as int,
            i - 1,
        ));
        i -= 1;
    }
    i
}

pub fn trimmed(s: &[char]) -> (r: Vec<char>)
    ensures
        r@ == trim(s@),
{
    let a = trim_start_index(s);
    let b = trim_end_index(s, a);
    assert(s@.skip(a as int) =~= s@.subrange(a as int, s@.len() as int));
    slice_of(s, a, b)
}

pub fn trimmed_start(s: &[char]) -> (r: Vec<char>)
    ensures
        r@ == trim_start(s@),
{
    let a = trim_start_index(s);
    assert(s@.skip(a as int) =~= s@.subrange(a as int, s@.len() as int));
    slice_of(s, a, s.len())
}

pub fn trimmed_end(s: &[char]) -> (r: Vec<char>)
    ensures
        r@ == trim_end(s@),
{
    let b = trim_end_index(s, 0);
    assert(s@.subrange(0, s@.len() as int) =~= s@);
    slice_of(s, 0, b)
}

pub fn blank(s: &[char]) -> (r: bool)
    ensures
        r == is_blank(s@),
{
    let mut i: usize = 0;
    while i < s.len()
        invariant
            i <= s@.len(),
            forall|j: int| 0 <= j < i ==> is_ws(#[trigger] s@[j]),
        decreases s@.len() - i,
    {
        if !is_whitespace(s[i]) {
            return false;
        }
        i += 1;
    }
    true
}

// ---------------------------------------------------------------------------
// Splitting into words and lines
// ---------------------------------------------------------------------------

/// The whitespace-separated words of `s` from position `i`, where `start`
/// is the beginning of the word in progress (or negative).
pub open spec fn words_from(s: Seq<char>, i: int, start: int) -> Seq<Seq<char>>
    decreases s.len() - i,
{
    if i < 0 || i >= s.len() {
        if 0 <= start <= s.len() {
            seq![s.subrange(start, s.len() as int)]
        } else {
            seq![]
        }
    } else if is_ws(s[i]) {
        if 0 <= start <= i {
            seq![s.subrange(start, i)] + words_from(s, i + 1, -1)
        } else {
            words_from(s, i + 1, -1)
        }
    } else {
        words_from(s, i + 1, if 0 <= start { start } else { i })
    }
}

/// `str::split_whitespace`.
pub open spec fn words(s: Seq<char>) -> Seq<Seq<char>> {
    words_from(s, 0, -1)
}

pub fn split_words(s: &[char]) -> (r: Vec<Vec<char>>)
    ensures
        r.deep_view() == words(s@),
{
    let mut out: Vec<Vec<char>> = Vec::new();
    let mut i: usize = 0;
    let mut start: usize = 0;
    let mut in_word = false;
    while i < s.len()
        invariant
            i <= s@.len(),
            start <= i,
            words(s@) == out.deep_view() + words_from(s@, i as int, if in_word { start as int } else { -1 }),
        decreases s@.len() - i,
    {
        if is_whitespace(s[i]) {
            if in_word {
                let w = slice_of(s, start, i);
                let ghost before = out.deep_view();
                proof { lemma_deep_chars(&w); }
                out.push(w);
                assert(out.deep_view() =~= before + seq![w@]);
                in_word = false;
            }
        } else {
            if !in_word {
                start = i;
                in_word = true;
            }
        }
        i += 1;
    }
    if in_word {
        let w = slice_of(s, start, s.len());
        let ghost before = out.deep_view();
        proof { lemma_deep_chars(&w); }
        out.push(w);
        assert(out.deep_view() =~= before + seq![w@]);
    } else {
        assert(out.deep_view() =~= out.deep_view() + words_from(s@, i as int, -1));
    }
    out
}

/// Removes one trailing carriage return.
pub open spec fn strip_cr(l: Seq<char>) -> Seq<char> {
    if l.len() > 0 && l.last() == '\r' {
        l.drop_last()
    } else {
        l
    }
}

/// The lines of `s` from position `i`, the current line starting at `start`.
pub open spec fn lines_from(s: Seq<char>, i: int, start: int) -> Seq<Seq<char>>
    decreases s.len() - i,
{
    if i < 0 || i >= s.len() {
        if 0 <= start < s.len() {
            seq![s.subrange(start, s.len() as int)]
        } else {
            seq![]
        }
    } else if s[i] == '\n' {
        if 0 <= start <= i {
            seq![strip_cr(s.subrange(start, i))] + lines_from(s, i + 1, i + 1)
        } else {
            lines_from(s, i + 1, i + 1)
        }
    } else {
        lines_from(s, i + 1, start)
    }
}

/// `str::lines`: split at `\n`, dropping a `\r` before it; no empty final line.
pub open spec fn lines(s: Seq<char>) -> Seq<Seq<char>> {
    lines_from(s, 0, 0)
}

pub fn split_lines(s: &[char]) -> (r: Vec<Vec<char>>)
    ensures
        r.deep_view() == lines(s@),
{
    let mut out: Vec<Vec<char>> = Vec::new();
    let mut i: usize = 0;
    let mut start: usize = 0;
    while i < s.len()
        invariant
            i <= s@.len(),
            start <= i,
            lines(s@) == out.deep_view() + lines_from(s@, i as int, start as int),
        decreases s@.len() - i,
    {
        if s[i] == '\n' {
            let mut end = i;
            if end > start && s[end - 1] == '\r' {
                end = end - 1;
            }
            let line = slice_of(s, start, end);
            proof {
                let l = s@.subrange(start as int, i as int);
                if i > start && s@[i - 1] == '\r' {
                    assert(l.drop_last() =~= s@.subrange(start as int, end as int));
                } else {
                    assert(l =~= s@.subrange(start as int, end as int));
                }
            }
            let ghost before = out.deep_view();
            proof { lemma_deep_chars(&line); }
            out.push(line);
            assert(out.deep_view() =~= before + seq![line@]);
            start = i + 1;
        }
        i += 1;
    }
    if start < s.len() {
        let line = slice_of(s, start, s.len());
        let ghost before = out.deep_view();
        proof { lemma_deep_chars(&line); }
        out.push(line);
        assert(out.deep_view() =~= before + seq![line@]);
    } else {
        assert(out.deep_view() =~= out.deep_view() + lines_from(s@, i as int, start as int));
    }
    out
}

/// The lines that hold more than whitespace.
pub open spec fn nonblank(ls: Seq<Seq<char>>) -> Seq<Seq<char>>
    decreases ls.len(),
{
    if ls.len() == 0 {
        seq![]
    } else if is_blank(ls.last()) {
        nonblank(ls.drop_last())
    } else {
        nonblank(ls.drop_last()).push(ls.last())
    }
}

pub fn nonblank_lines(s: &[char]) -> (r: Vec<Vec<char>>)
    ensures
        r.deep_view() == nonblank(lines(s@)),
{
    let all = split_lines(s);
    let mut out: Vec<Vec<char>> = Vec::new();
    let mut i: usize = 0;
    while i < all.len()
        invariant
            i <= all@.len(),
            all.deep_view() == lines(s@),
            out.deep_view() == nonblank(all.deep_view().take(i as int)),
        decreases all@.len() - i,
    {
        assert(all.deep_view().take(i + 1).drop_last() =~= all.deep_view().take(i as int));
        if !blank(all[i].as_slice()) {
            let ghost before = out.deep_view();
            let line = copy(all[i].as_slice());
            proof { lemma_deep_chars(&line); lemma_deep_chars(&all[i as int]); }
            out.push(line);
            assert(out.deep_view() =~= before.push(all.deep_view()[i as int]));
        }
        i += 1;
    }
    assert(all.deep_view().take(all@.len() as int) =~= all.deep_view());
    out
}

/// Joins pieces with a separator.
pub open spec fn join(parts: Seq<Seq<char>>, sep: Seq<char>) -> Seq<char>
    decreases parts.len(),
{
    if parts.len() == 0 {
        seq![]
    } else if parts.len() == 1 {
        parts[0]
    } else {
        join(parts.drop_last(), sep) + sep + parts.last()
    }
}

pub fn join_with(parts: &Vec<Vec<char>>, sep: &[char]) -> (r: Vec<char>)
    ensures
        r@ == join(parts.deep_view(), sep@),
{
    let mut out: Vec<char> = Vec::new();
    let mut i: usize = 0;
    while i < parts.len()
        invariant
            i <= parts@.len(),
            out@ == join(parts.deep_view().take(i as int), sep@),
        decreases parts@.len() - i,
    {
        assert(parts.deep_view().take(i + 1).drop_last() =~= parts.deep_view().take(i as int));
        if i > 0 {
            extend(&mut out, sep);
        }
        extend(&mut out, parts[i].as_slice());
        i += 1;
        proof {
            if i == 1 {
                assert(out@ =~= join(parts.deep_view().take(i as int), sep@));
            }
        }
    }
    assert(parts.deep_view().take(parts@.len() as int) =~= parts.deep_view());
    out
}

// ---------------------------------------------------------------------------
// Unicode properties and UTF-8 sizes
// ---------------------------------------------------------------------------

/// Whether a character has the Unicode `Alphabetic` property.
pub uninterp spec fn alphabetic(c: char) -> bool;

/// `char::is_alphabetic`: the Unicode `Alphabetic` property. The contract
/// names the result and adds that ASCII letters have the property; the full
/// property table of std is not restated.
#[verifier::external_body]
pub(crate) fn is_alphabetic(c: char) -> (b: bool)
    ensures
        b == alphabetic(c),
        is_alpha(c) ==> b,
{
    c.is_alphabetic()
}

/// The number of bytes of the UTF-8 encoding of a character.
pub open spec fn utf8_size(c: char) -> int {
    if (c as u32) < 0x80 {
        1
    } else if (c as u32) < 0x800 {
        2
    } else if (c as u32) < 0x10000 {
        3
    } else {
        4
    }
}

/// The number of bytes of the UTF-8 encoding of a character sequence.
pub open spec fn byte_len(s: Seq<char>) -> int
    decreases s.len(),
{
    if s.len() == 0 {
        0
    } else {
        byte_len(s.drop_last()) + utf8_size(s.last())
    }
}

pub proof fn lemma_byte_len_nonneg(s: Seq<char>)
    ensures
        byte_len(s) >= 0,
    decreases s.len(),
{
    if s.len() > 0 {
        lemma_byte_len_nonneg(s.drop_last());
    }
}

/// Whether the UTF-8 encoding of `s` takes at most `limit` bytes.
pub fn byte_len_at_most(s: &[char], limit: usize) -> (r: bool)
    ensures
        r == (byte_len(s@) <= limit),
{
    let mut total: usize = 0;
    let mut i: usize = 0;
    while i < s.len()
        invariant
            i <= s@.len(),
            total == byte_len(s@.take(i as int)),
            total <= limit,
        decreases s@.len() - i,
    {
        let c = s[i];
        let size: usize = if (c as u32) < 0x80 {
            1
        } else if (c as u32) < 0x800 {
            2
        } else if (c as u32) < 0x10000 {
            3
        } else {
            4
        };
        assert(s@.take(i + 1).drop_last() =~= s@.take(i as int));
        if size > limit - total {
            proof {
                lemma_byte_len_monotone(s@, i + 1);
            }
            return false;
        }
        total = total + size;
        i += 1;
    }
    assert(s@.take(s@.len() as int) =~= s@);
    true
}

/// Byte lengths grow with the prefix.
pub proof fn lemma_byte_len_monotone(s: Seq<char>, k: int)
    requires
        0 <= k <= s.len(),
    ensures
        byte_len(s.take(k)) <= byte_len(s),
    decreases s.len() - k,
{
    if k < s.len() {
        lemma_byte_len_monotone(s, k + 1);
        assert(s.take(k + 1).drop_last() =~= s.take(k));
    } else {
        assert(s.take(k) =~= s);
    }
}

// ---------------------------------------------------------------------------
// Decimal numbers
// ---------------------------------------------------------------------------

pub open spec fn digit_char(d: int) -> char {
    ((d + 48) as u8) as char
}

/// The decimal digits of `n`.
pub open spec fn dec(n: nat) -> Seq<char>
    decreases n,
{
    if n < 10 {
        seq![digit_char(n as int)]
    } else {
        dec(n / 10).push(digit_char((n % 10) as int))
    }
}

pub fn decimal(n: u64) -> (r: Vec<char>)
    ensures
        r@ == dec(n as nat),
    decreases n,
{
    let d = ((n % 10) as u8 + 48) as char;
    if n < 10 {
        let mut v: Vec<char> = Vec::new();
        v.push(d);
        assert(v@ =~= dec(n as nat));
        v
    } else {
        let mut v = decimal(n / 10);
        v.push(d);
        assert(v@ =~= dec(n as nat));
        v
    }
}

} // verus!

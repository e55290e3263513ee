//! Settings read from the configuration file.
use vstd::prelude::*;

use crate::model::{Content, ContentV, Style};
use crate::number::{number_at_least, number_below, number_of, numeric_text, numeric_text_exec, parse_number, Number, NumberV};
use crate::render::parse_u64;
use crate::text::{chars_of, eq_str, is_ws, lines, starts_with, string_of, trim, trimmed, words};

verus! {

/// Terminal widths at which the layout changes: below `compact` only the
/// most important column is shown, below `core` only core columns, and above
/// `wide` padding grows.
#[derive(Debug, Clone, Copy)]
pub struct Breakpoints {
    pub compact: usize,
    pub core: usize,
    pub wide: usize,
}

/// The values at or above which a numeric cell is styled as a warning or an
/// error.
#[derive(Debug)]
pub struct ThresholdRule {
    pub warning: Option<Number>,
    pub error: Option<Number>,
}

pub struct RuleV {
    pub warning: Option<NumberV>,
    pub error: Option<NumberV>,
}

impl View for ThresholdRule {
    type V = RuleV;

    open spec fn view(&self) -> RuleV {
        RuleV {
            warning: crate::number::number_opt_view(self.warning),
            error: crate::number::number_opt_view(self.error),
        }
    }
}

/// The settings. Column priorities and threshold rules are kept per command
/// and column key, each pair at most once, in the order first set.
#[derive(Debug)]
pub struct Config {
    pub enabled_commands: Vec<String>,
    pub disabled_parsers: Vec<String>,
    pub max_lines: usize,
    pub max_bytes: usize,
    pub min_confidence: Number,
    pub theme: String,
    pub border_style: String,
    pub terminal_profile: String,
    pub watch_samples: usize,
    pub breakpoints: Breakpoints,
    pub column_priorities: Vec<(String, String, u8)>,
    pub thresholds: Vec<(String, String, ThresholdRule)>,
}

pub struct ConfigV {
    pub enabled_commands: Seq<Seq<char>>,
    pub disabled_parsers: Seq<Seq<char>>,
    pub max_lines: usize,
    pub max_bytes: usize,
    pub min_confidence: NumberV,
    pub theme: Seq<char>,
    pub border_style: Seq<char>,
    pub terminal_profile: Seq<char>,
    pub watch_samples: usize,
    pub breakpoints: Breakpoints,
    pub column_priorities: Seq<(Seq<char>, Seq<char>, u8)>,
    pub thresholds: Seq<(Seq<char>, Seq<char>, RuleV)>,
}

pub open spec fn strings_view(v: Seq<String>) -> Seq<Seq<char>> {
    v.map_values(|s: String| s@)
}

pub open spec fn priorities_view(v: Seq<(String, String, u8)>) -> Seq<(Seq<char>, Seq<char>, u8)> {
    v.map_values(|e: (String, String, u8)| (e.0@, e.1@, e.2))
}

pub open spec fn rules_view(v: Seq<(String, String, ThresholdRule)>) -> Seq<(Seq<char>, Seq<char>, RuleV)> {
    v.map_values(|e: (String, String, ThresholdRule)| (e.0@, e.1@, e.2@))
}

impl View for Config {
    type V = ConfigV;

    open spec fn view(&self) -> ConfigV {
        ConfigV {
            enabled_commands: strings_view(self.enabled_commands@),
            disabled_parsers: strings_view(self.disabled_parsers@),
            max_lines: self.max_lines,
            max_bytes: self.max_bytes,
            min_confidence: self.min_confidence@,
            theme: self.theme@,
            border_style: self.border_style@,
            terminal_profile: self.terminal_profile@,
            watch_samples: self.watch_samples,
            breakpoints: self.breakpoints,
            column_priorities: priorities_view(self.column_priorities@),
            thresholds: rules_view(self.thresholds@),
        }
    }
}

// ---------------------------------------------------------------------------
// Pairs of keys
// ---------------------------------------------------------------------------

/// The first position, from `i`, of the entry for command `a` and column `b`
/// (negative when there is none).
pub open spec fn pair_pos<V>(list: Seq<(Seq<char>, Seq<char>, V)>, a: Seq<char>, b: Seq<char>, i: int) -> int
    decreases list.len() - i,
{
    if i < 0 || i >= list.len() {
        -1
    } else if list[i].0 == a && list[i].1 == b {
        i
    } else {
        pair_pos(list, a, b, i + 1)
    }
}

pub open spec fn pair_get<V>(list: Seq<(Seq<char>, Seq<char>, V)>, a: Seq<char>, b: Seq<char>) -> Option<V> {
    let p = pair_pos(list, a, b, 0);
    if p >= 0 {
        Some(list[p].2)
    } else {
        None
    }
}

/// The entry for `a` and `b` set to `v`: replaced where it is, else added
/// at the end.
pub open spec fn pair_put<V>(list: Seq<(Seq<char>, Seq<char>, V)>, a: Seq<char>, b: Seq<char>, v: V) -> Seq<
    (Seq<char>, Seq<char>, V),
> {
    let p = pair_pos(list, a, b, 0);
    if p >= 0 {
        list.update(p, (a, b, v))
    } else {
        list.push((a, b, v))
    }
}

pub proof fn lemma_pair_pos_range<V>(list: Seq<(Seq<char>, Seq<char>, V)>, a: Seq<char>, b: Seq<char>, i: int)
    requires
        0 <= i,
    ensures
        -1 <= pair_pos(list, a, b, i) < list.len(),
        pair_pos(list, a, b, i) >= 0 ==> pair_pos(list, a, b, i) >= i && list[pair_pos(list, a, b, i)].0 == a
            && list[pair_pos(list, a, b, i)].1 == b,
    decreases list.len() - i,
{
    if i < list.len() && !(list[i].0 == a && list[i].1 == b) {
        lemma_pair_pos_range(list, a, b, i + 1);
    }
}

proof fn lemma_pair_pos_same_keys<V>(
    l1: Seq<(Seq<char>, Seq<char>, V)>,
    l2: Seq<(Seq<char>, Seq<char>, V)>,
    a: Seq<char>,
    b: Seq<char>,
    i: int,
)
    requires
        0 <= i,
        l1.len() <= l2.len(),
        forall|k: int| 0 <= k < l1.len() ==> (#[trigger] l2[k]).0 == l1[k].0 && l2[k].1 == l1[k].1,
        forall|k: int| l1.len() <= k < l2.len() ==> !((#[trigger] l2[k]).0 == a && l2[k].1 == b),
    ensures
        pair_pos(l2, a, b, i) == pair_pos(l1, a, b, i),
    decreases l2.len() - i,
{
    if i < l2.len() {
        lemma_pair_pos_same_keys(l1, l2, a, b, i + 1);
    }
}

proof fn lemma_pair_pos_appended<V>(l: Seq<(Seq<char>, Seq<char>, V)>, a: Seq<char>, b: Seq<char>, v: V, i: int)
    requires
        0 <= i <= l.len(),
        pair_pos(l, a, b, i) == -1,
    ensures
        pair_pos(l.push((a, b, v)), a, b, i) == l.len(),
    decreases l.len() - i,
{
    if i < l.len() {
        lemma_pair_pos_appended(l, a, b, v, i + 1);
    }
}

/// Reading back an entry after setting one: the entry set gives its new
/// value, every other entry is unchanged.
pub proof fn lemma_pair_put_get<V>(
    list: Seq<(Seq<char>, Seq<char>, V)>,
    a: Seq<char>,
    b: Seq<char>,
    v: V,
    x: Seq<char>,
    y: Seq<char>,
)
    ensures
        pair_get(pair_put(list, a, b, v), x, y) == if x == a && y == b {
            Some(v)
        } else {
            pair_get(list, x, y)
        },
{
    let p = pair_pos(list, a, b, 0);
    lemma_pair_pos_range(list, a, b, 0);
    let out = pair_put(list, a, b, v);
    if p >= 0 {
        lemma_pair_pos_same_keys(list, out, x, y, 0);
        lemma_pair_pos_range(list, x, y, 0);
    } else if x == a && y == b {
        lemma_pair_pos_appended(list, a, b, v, 0);
    } else {
        lemma_pair_pos_same_keys(list, out, x, y, 0);
        lemma_pair_pos_range(list, x, y, 0);
    }
}

fn priority_pos(list: &Vec<(String, String, u8)>, a: &[char], b: &[char]) -> (r: Option<usize>)
    ensures
        match r {
            Some(p) => p as int == pair_pos(priorities_view(list@), a@, b@, 0) && p < list.len(),
            None => pair_pos(priorities_view(list@), a@, b@, 0) < 0,
        },
{
    let ghost v = priorities_view(list@);
    let mut i: usize = 0;
    while i < list.len()
        invariant
            i <= list.len(),
            v == priorities_view(list@),
            pair_pos(v, a@, b@, i as int) == pair_pos(v, a@, b@, 0),
        decreases list.len() - i,
    {
        let ka = chars_of(list[i].0.as_str());
        let kb = chars_of(list[i].1.as_str());
        if crate::text::eq(ka.as_slice(), a) && crate::text::eq(kb.as_slice(), b) {
            return Some(i);
        }
        i += 1;
    }
    None
}

fn rule_pos(list: &Vec<(String, String, ThresholdRule)>, a: &[char], b: &[char]) -> (r: Option<usize>)
    ensures
        match r {
            Some(p) => p as int == pair_pos(rules_view(list@), a@, b@, 0) && p < list.len(),
            None => pair_pos(rules_view(list@), a@, b@, 0) < 0,
        },
{
    let ghost v = rules_view(list@);
    let mut i: usize = 0;
    while i < list.len()
        invariant
            i <= list.len(),
            v == rules_view(list@),
            pair_pos(v, a@, b@, i as int) == pair_pos(v, a@, b@, 0),
        decreases list.len() - i,
    {
        let ka = chars_of(list[i].0.as_str());
        let kb = chars_of(list[i].1.as_str());
        if crate::text::eq(ka.as_slice(), a) && crate::text::eq(kb.as_slice(), b) {
            return Some(i);
        }
        i += 1;
    }
    None
}

// ---------------------------------------------------------------------------
// Lines, values and lists
// ---------------------------------------------------------------------------

/// Where a comment starts: the first `#` outside double quotes, or the end.
pub open spec fn comment_at(s: Seq<char>, i: int, quoted: bool) -> int
    decreases s.len() - i,
{
    if i < 0 || i >= s.len() {
        s.len() as int
    } else if s[i] == '"' {
        comment_at(s, i + 1, !quoted)
    } else if s[i] == '#' && !quoted {
        i
    } else {
        comment_at(s, i + 1, quoted)
    }
}

pub open spec fn strip_comment(s: Seq<char>) -> Seq<char> {
    s.take(comment_at(s, 0, false))
}

/// A value without the double quotes around it, if it has both.
pub open spec fn unquote(v: Seq<char>) -> Seq<char> {
    if v.len() >= 2 && v[0] == '"' && v.last() == '"' {
        v.subrange(1, v.len() - 1)
    } else {
        v
    }
}

/// `str::split(c)`, from position `i` with the current piece starting at
/// `start`.
pub open spec fn pieces_from(s: Seq<char>, c: char, i: int, start: int) -> Seq<Seq<char>>
    decreases s.len() - i,
{
    if i < 0 || i >= s.len() {
        seq![s.subrange(start, s.len() as int)]
    } else if s[i] == c {
        seq![s.subrange(start, i)] + pieces_from(s, c, i + 1, i + 1)
    } else {
        pieces_from(s, c, i + 1, start)
    }
}

pub open spec fn pieces(s: Seq<char>, c: char) -> Seq<Seq<char>> {
    pieces_from(s, c, 0, 0)
}

/// The non-empty items of a list, each trimmed and unquoted.
pub open spec fn list_items(ps: Seq<Seq<char>>) -> Seq<Seq<char>>
    decreases ps.len(),
{
    if ps.len() == 0 {
        seq![]
    } else {
        let rest = list_items(ps.drop_last());
        let v = unquote(trim(ps.last()));
        if v.len() > 0 {
            rest.push(v)
        } else {
            rest
        }
    }
}

pub open spec fn bracketed(t: Seq<char>) -> bool {
    t.len() > 0 && t[0] == '[' && t.last() == ']'
}

/// A list value, `[a, "b", …]`; `None` for anything else.
pub open spec fn list_value(value: Seq<char>) -> Option<Seq<Seq<char>>> {
    let t = trim(value);
    if bracketed(t) {
        Some(list_items(pieces(t.subrange(1, t.len() - 1), ',')))
    } else {
        None
    }
}

/// `usize::from_str`.
pub open spec fn parse_usize(v: Seq<char>) -> Option<usize> {
    match parse_u64(v) {
        Some(x) => if x <= usize::MAX {
            Some(x as usize)
        } else {
            None
        },
        None => None,
    }
}

/// A count setting: replaced by a positive number, kept otherwise.
pub open spec fn count_setting(old: usize, v: Seq<char>) -> usize {
    match parse_usize(v) {
        Some(p) => if p > 0 {
            p
        } else {
            old
        },
        None => old,
    }
}

/// `str::trim_start_matches(p)`: every leading copy of `p` removed.
pub open spec fn strip_all_prefix(s: Seq<char>, p: Seq<char>) -> Seq<char>
    decreases s.len(),
{
    if p.len() > 0 && s.len() >= p.len() && s.take(p.len() as int) == p {
        strip_all_prefix(s.skip(p.len() as int), p)
    } else {
        s
    }
}

fn comment_start(s: &[char]) -> (r: usize)
    ensures
        r as int == comment_at(s@, 0, false),
        r <= s.len(),
{
    let mut quoted = false;
    let mut i: usize = 0;
    while i < s.len()
        invariant
            i <= s.len(),
            comment_at(s@, i as int, quoted) == comment_at(s@, 0, false),
        decreases s.len() - i,
    {
        if s[i] == '"' {
            quoted = !quoted;
        } else if s[i] == '#' && !quoted {
            return i;
        }
        i += 1;
    }
    i
}

fn unquote_exec(v: &[char]) -> (r: Vec<char>)
    ensures
        r@ == unquote(v@),
{
    if v.len() >= 2 && v[0] == '"' && v[v.len() - 1] == '"' {
        crate::text::slice_of(v, 1, v.len() - 1)
    } else {
        crate::text::copy(v)
    }
}

pub(crate) fn split_pieces(s: &[char], c: char) -> (r: Vec<Vec<char>>)
    ensures
        r.deep_view() == pieces(s@, c),
{
    let mut out: Vec<Vec<char>> = Vec::new();
    let mut start: usize = 0;
    let mut i: usize = 0;
    while i < s.len()
        invariant
            start <= i <= s.len(),
            out.deep_view() + pieces_from(s@, c, i as int, start as int) == pieces(s@, c),
        decreases s.len() - i,
    {
        if s[i] == c {
            let ghost before = out.deep_view();
            crate::text::push_text(&mut out, crate::text::slice_of(s, start, i));
            assert(before + pieces_from(s@, c, i as int, start as int) =~= out.deep_view() + pieces_from(
                s@,
                c,
                i + 1,
                i + 1,
            ));
            start = i + 1;
        }
        i += 1;
    }
    let ghost before = out.deep_view();
    crate::text::push_text(&mut out, crate::text::slice_of(s, start, s.len()));
    assert(before + pieces_from(s@, c, i as int, start as int) =~= out.deep_view());
    out
}

fn list_exec(value: &[char]) -> (r: Option<Vec<String>>)
    ensures
        match r {
            Some(l) => list_value(value@) == Some(strings_view(l@)),
            None => list_value(value@) is None,
        },
{
    let t = trimmed(value);
    if !(t.len() > 0 && t[0] == '[' && t[t.len() - 1] == ']') {
        return None;
    }
    let inner = crate::text::slice_of(t.as_slice(), 1, t.len() - 1);
    let ps = split_pieces(inner.as_slice(), ',');
    let ghost pv = ps.deep_view();
    let mut items: Vec<String> = Vec::new();
    let mut i: usize = 0;
    while i < ps.len()
        invariant
            i <= ps.len(),
            pv == ps.deep_view(),
            strings_view(items@) == list_items(pv.take(i as int)),
        decreases ps.len() - i,
    {
        assert(pv.take(i + 1).drop_last() =~= pv.take(i as int));
        proof {
            crate::text::lemma_deep_chars(&ps[i as int]);
        }
        let item = unquote_exec(trimmed(ps[i].as_slice()).as_slice());
        if item.len() > 0 {
            let ghost before = items@;
            items.push(string_of(item.as_slice()));
            assert(strings_view(items@) =~= strings_view(before).push(item@));
        }
        i += 1;
    }
    assert(pv.take(ps.len() as int) =~= pv);
    Some(items)
}

pub(crate) fn parse_usize_exec(v: &[char]) -> (r: Option<usize>)
    ensures
        r == parse_usize(v@),
{
    match crate::render::parse_u64_exec(v) {
        Some(x) => if x <= usize::MAX as u64 {
            Some(x as usize)
        } else {
            None
        },
        None => None,
    }
}

fn count_setting_exec(old: usize, v: &[char]) -> (r: usize)
    ensures
        r == count_setting(old, v@),
{
    match parse_usize_exec(v) {
        Some(p) => if p > 0 {
            p
        } else {
            old
        },
        None => old,
    }
}

fn strip_all_prefix_exec(s: &[char], p: &str) -> (r: Vec<char>)
    ensures
        r@ == strip_all_prefix(s@, p@),
{
    let pv = chars_of(p);
    let mut cur = crate::text::copy(s);
    while pv.len() > 0 && cur.len() >= pv.len() && crate::text::eq(
        crate::text::slice_of(cur.as_slice(), 0, pv.len()).as_slice(),
        pv.as_slice(),
    )
        invariant
            pv@ == p@,
            strip_all_prefix(cur@, p@) == strip_all_prefix(s@, p@),
        decreases cur.len(),
    {
        assert(cur@.subrange(0, pv@.len() as int) =~= cur@.take(pv@.len() as int));
        let next = crate::text::slice_of(cur.as_slice(), pv.len(), cur.len());
        assert(next@ =~= cur@.skip(pv@.len() as int));
        cur = next;
    }
    proof {
        if pv@.len() > 0 && cur@.len() >= pv@.len() {
            assert(cur@.subrange(0, pv@.len() as int) =~= cur@.take(pv@.len() as int));
        }
    }
    cur
}

// ---------------------------------------------------------------------------
// Merging a configuration file
// ---------------------------------------------------------------------------

pub open spec fn zero_number() -> NumberV {
    NumberV::Finite(false, seq![], 0)
}

pub open spec fn one_number() -> NumberV {
    NumberV::Finite(false, seq![1u8], 1)
}

pub open spec fn clamp_samples(p: usize) -> usize {
    if p < 2 {
        2
    } else if p > 1024 {
        1024
    } else {
        p
    }
}

pub open spec fn default_breakpoints() -> Breakpoints {
    Breakpoints { compact: 60, core: 100, wide: 160 }
}

/// A key of the top-level section.
pub open spec fn top_level(c: ConfigV, key: Seq<char>, value: Seq<char>) -> ConfigV {
    if key == "enabled_commands"@ {
        match list_value(value) {
            Some(l) => ConfigV { enabled_commands: l, ..c },
            None => c,
        }
    } else if key == "disabled_parsers"@ {
        match list_value(value) {
            Some(l) => ConfigV { disabled_parsers: l, ..c },
            None => c,
        }
    } else if key == "max_lines"@ {
        ConfigV { max_lines: count_setting(c.max_lines, value), ..c }
    } else if key == "max_bytes"@ {
        ConfigV { max_bytes: count_setting(c.max_bytes, value), ..c }
    } else if key == "min_confidence"@ {
        match number_of(value) {
            Some(n) => if number_at_least(n, zero_number()) && number_at_least(one_number(), n) {
                ConfigV { min_confidence: n, ..c }
            } else {
                c
            },
            None => c,
        }
    } else if key == "theme"@ {
        ConfigV { theme: unquote(value), ..c }
    } else if key == "border_style"@ {
        ConfigV { border_style: unquote(value), ..c }
    } else if key == "terminal_profile"@ {
        ConfigV { terminal_profile: unquote(value), ..c }
    } else if key == "watch_samples"@ {
        match parse_usize(value) {
            Some(n) => ConfigV { watch_samples: clamp_samples(n), ..c },
            None => c,
        }
    } else {
        c
    }
}

/// A key of the `[breakpoints]` section.
pub open spec fn breakpoint_key(c: ConfigV, key: Seq<char>, value: Seq<char>) -> ConfigV {
    let b = c.breakpoints;
    if key == "compact"@ {
        ConfigV { breakpoints: Breakpoints { compact: count_setting(b.compact, value), ..b }, ..c }
    } else if key == "core"@ {
        ConfigV { breakpoints: Breakpoints { core: count_setting(b.core, value), ..b }, ..c }
    } else if key == "wide"@ {
        ConfigV { breakpoints: Breakpoints { wide: count_setting(b.wide, value), ..b }, ..c }
    } else {
        c
    }
}

/// A key of a `[columns.<command>]` section: the column's priority.
pub open spec fn column_key(c: ConfigV, section: Seq<char>, key: Seq<char>, value: Seq<char>) -> ConfigV {
    match crate::parser::builtins::parse_u8(value) {
        Some(p) => ConfigV {
            column_priorities: pair_put(
                c.column_priorities,
                strip_all_prefix(section, "columns."@),
                key,
                p,
            ),
            ..c
        },
        None => c,
    }
}

/// The first position, from `i`, of character `ch`, or the length.
pub open spec fn char_at(s: Seq<char>, ch: char, i: int) -> int
    decreases s.len() - i,
{
    if i < 0 || i >= s.len() {
        s.len() as int
    } else if s[i] == ch {
        i
    } else {
        char_at(s, ch, i + 1)
    }
}

/// `str::split_once(ch)`.
pub open spec fn split_first(s: Seq<char>, ch: char) -> Option<(Seq<char>, Seq<char>)> {
    let i = char_at(s, ch, 0);
    if i < s.len() {
        Some((s.take(i), s.skip(i + 1)))
    } else {
        None
    }
}

/// A key of a `[thresholds.<command>.<column>]` section. Any key creates the
/// rule once the value is a number; `warning` and `error` set it.
pub open spec fn threshold_key(c: ConfigV, section: Seq<char>, key: Seq<char>, value: Seq<char>) -> ConfigV {
    match split_first(strip_all_prefix(section, "thresholds."@), '.') {
        Some((command, column)) => match number_of(value) {
            Some(n) => {
                let rule = match pair_get(c.thresholds, command, column) {
                    Some(r) => r,
                    None => RuleV { warning: None, error: None },
                };
                let updated = if key == "warning"@ {
                    RuleV { warning: Some(n), ..rule }
                } else if key == "error"@ {
                    RuleV { error: Some(n), ..rule }
                } else {
                    rule
                };
                ConfigV { thresholds: pair_put(c.thresholds, command, column, updated), ..c }
            },
            None => c,
        },
        None => c,
    }
}

pub open spec fn assign(c: ConfigV, section: Seq<char>, key: Seq<char>, value: Seq<char>) -> ConfigV {
    if section == Seq::<char>::empty() {
        top_level(c, key, value)
    } else if section == "breakpoints"@ {
        breakpoint_key(c, key, value)
    } else if starts_with(section, "columns."@) {
        column_key(c, section, key, value)
    } else if starts_with(section, "thresholds."@) {
        threshold_key(c, section, key, value)
    } else {
        c
    }
}

/// One line: blank and comment lines change nothing, `[name]` opens a
/// section, `key = value` sets a key of the open section.
pub open spec fn line_step(c: ConfigV, section: Seq<char>, raw: Seq<char>) -> (ConfigV, Seq<char>) {
    let line = trim(strip_comment(raw));
    if line.len() == 0 {
        (c, section)
    } else if line[0] == '[' && line.last() == ']' {
        (c, trim(line.subrange(1, line.len() - 1)))
    } else {
        match split_first(line, '=') {
            Some((k, v)) => (assign(c, section, trim(k), trim(v)), section),
            None => (c, section),
        }
    }
}

pub open spec fn merge_from(c: ConfigV, section: Seq<char>, ls: Seq<Seq<char>>, i: int) -> ConfigV
    decreases ls.len() - i,
{
    if i < 0 || i >= ls.len() {
        c
    } else {
        let (next, s) = line_step(c, section, ls[i]);
        merge_from(next, s, ls, i + 1)
    }
}

/// Breakpoints that are not strictly increasing fall back to the defaults.
pub open spec fn settled(c: ConfigV) -> ConfigV {
    if c.breakpoints.compact < c.breakpoints.core && c.breakpoints.core < c.breakpoints.wide {
        c
    } else {
        ConfigV { breakpoints: default_breakpoints(), ..c }
    }
}

/// The settings after reading a configuration file in the supported subset
/// of TOML.
pub open spec fn merge_spec(c: ConfigV, input: Seq<char>) -> ConfigV {
    settled(merge_from(c, seq![], lines(input), 0))
}

/// Positive line, byte and breakpoint counts, a confidence in `[0, 1]` and
/// between 2 and 1024 watch samples.
pub open spec fn settings_in_range(c: ConfigV) -> bool {
    &&& c.max_lines > 0
    &&& c.max_bytes > 0
    &&& c.breakpoints.compact > 0
    &&& c.breakpoints.core > 0
    &&& c.breakpoints.wide > 0
    &&& 2 <= c.watch_samples <= 1024
    &&& number_at_least(c.min_confidence, zero_number())
    &&& number_at_least(one_number(), c.min_confidence)
}

/// Strictly increasing breakpoints.
pub open spec fn breakpoints_ordered(b: Breakpoints) -> bool {
    b.compact < b.core && b.core < b.wide
}

/// A confidence between 0 and 1.
pub open spec fn confidence_in_range(n: NumberV) -> bool {
    number_at_least(n, zero_number()) && number_at_least(one_number(), n)
}

/// Each bounded setting of `after` is the one of `before` or in its range:
/// positive counts, a confidence in `[0, 1]`, 2 to 1024 watch samples.
pub open spec fn kept_or_in_range(before: ConfigV, after: ConfigV) -> bool {
    &&& after.max_lines == before.max_lines || after.max_lines > 0
    &&& after.max_bytes == before.max_bytes || after.max_bytes > 0
    &&& after.breakpoints.compact == before.breakpoints.compact || after.breakpoints.compact > 0
    &&& after.breakpoints.core == before.breakpoints.core || after.breakpoints.core > 0
    &&& after.breakpoints.wide == before.breakpoints.wide || after.breakpoints.wide > 0
    &&& after.watch_samples == before.watch_samples || 2 <= after.watch_samples <= 1024
    &&& after.min_confidence == before.min_confidence || confidence_in_range(after.min_confidence)
}

proof fn lemma_line_keeps_range(c0: ConfigV, c: ConfigV, section: Seq<char>, raw: Seq<char>)
    requires
        kept_or_in_range(c0, c),
    ensures
        kept_or_in_range(c0, line_step(c, section, raw).0),
{
}

proof fn lemma_lines_keep_range(c0: ConfigV, c: ConfigV, section: Seq<char>, ls: Seq<Seq<char>>, i: int)
    requires
        kept_or_in_range(c0, c),
    ensures
        kept_or_in_range(c0, merge_from(c, section, ls, i)),
    decreases ls.len() - i,
{
    if 0 <= i < ls.len() {
        lemma_line_keeps_range(c0, c, section, ls[i]);
        let (next, s) = line_step(c, section, ls[i]);
        lemma_lines_keep_range(c0, next, s, ls, i + 1);
    }
}

/// Whatever a configuration file holds, the breakpoints come out strictly
/// increasing, and each bounded setting is either left as it was or set
/// within its range: the counts only ever take positive values, the
/// confidence values in `[0, 1]` and the watch samples values in
/// `[2, 1024]`. So settings that started in range stay in range.
pub proof fn lemma_merge_keeps_settings_sound(c: ConfigV, input: Seq<char>)
    ensures
        breakpoints_ordered(merge_spec(c, input).breakpoints),
        kept_or_in_range(c, merge_spec(c, input)),
        settings_in_range(c) ==> settings_in_range(merge_spec(c, input)),
{
    lemma_lines_keep_range(c, c, seq![], lines(input), 0);
}

fn zero_exec() -> (r: Number)
    ensures
        r@ == zero_number(),
{
    let v: Vec<u8> = Vec::new();
    assert(v@ =~= seq![]);
    Number::Finite(false, v, 0)
}

fn one_exec() -> (r: Number)
    ensures
        r@ == one_number(),
{
    let mut v: Vec<u8> = Vec::new();
    v.push(1);
    assert(v@ =~= seq![1u8]);
    Number::Finite(false, v, 1)
}

fn split_first_exec(s: &[char], ch: char) -> (r: Option<(Vec<char>, Vec<char>)>)
    ensures
        match r {
            Some((a, b)) => split_first(s@, ch) == Some((a@, b@)),
            None => split_first(s@, ch) is None,
        },
{
    let mut i: usize = 0;
    while i < s.len() && s[i] != ch
        invariant
            i <= s.len(),
            char_at(s@, ch, i as int) == char_at(s@, ch, 0),
        decreases s.len() - i,
    {
        i += 1;
    }
    if i < s.len() {
        let a = crate::text::slice_of(s, 0, i);
        let b = crate::text::slice_of(s, i + 1, s.len());
        assert(a@ =~= s@.take(i as int));
        assert(b@ =~= s@.skip(i + 1));
        Some((a, b))
    } else {
        None
    }
}

impl Config {
    fn set_top_level(&mut self, key: &[char], value: &[char])
        ensures
            final(self)@ == top_level(old(self)@, key@, value@),
    {
        if eq_str(key, "enabled_commands") {
            if let Some(l) = list_exec(value) {
                self.enabled_commands = l;
            }
        } else if eq_str(key, "disabled_parsers") {
            if let Some(l) = list_exec(value) {
                self.disabled_parsers = l;
            }
        } else if eq_str(key, "max_lines") {
            self.max_lines = count_setting_exec(self.max_lines, value);
        } else if eq_str(key, "max_bytes") {
            self.max_bytes = count_setting_exec(self.max_bytes, value);
        } else if eq_str(key, "min_confidence") {
            if let Some(n) = parse_number(value) {
                let lo = zero_exec();
                let hi = one_exec();
                if crate::number::at_least(&n, &lo) && crate::number::at_least(&hi, &n) {
                    self.min_confidence = n;
                }
            }
        } else if eq_str(key, "theme") {
            self.theme = string_of(unquote_exec(value).as_slice());
        } else if eq_str(key, "border_style") {
            self.border_style = string_of(unquote_exec(value).as_slice());
        } else if eq_str(key, "terminal_profile") {
            self.terminal_profile = string_of(unquote_exec(value).as_slice());
        } else if eq_str(key, "watch_samples") {
            if let Some(n) = parse_usize_exec(value) {
                self.watch_samples = if n < 2 {
                    2
                } else if n > 1024 {
                    1024
                } else {
                    n
                };
            }
        }
    }

    fn set_breakpoint(&mut self, key: &[char], value: &[char])
        ensures
            final(self)@ == breakpoint_key(old(self)@, key@, value@),
    {
        if eq_str(key, "compact") {
            self.breakpoints.compact = count_setting_exec(self.breakpoints.compact, value);
        } else if eq_str(key, "core") {
            self.breakpoints.core = count_setting_exec(self.breakpoints.core, value);
        } else if eq_str(key, "wide") {
            self.breakpoints.wide = count_setting_exec(self.breakpoints.wide, value);
        }
    }

    fn set_column_priority(&mut self, section: &[char], key: &[char], value: &[char])
        ensures
            final(self)@ == column_key(old(self)@, section@, key@, value@),
    {
        if let Some(p) = crate::parser::builtins::parse_u8_exec(value) {
            let command = strip_all_prefix_exec(section, "columns.");
            let ghost before = self.column_priorities@;
            match priority_pos(&self.column_priorities, command.as_slice(), key) {
                Some(i) => {
                    self.column_priorities.set(
                        i,
                        (string_of(command.as_slice()), string_of(key), p),
                    );
                    assert(priorities_view(self.column_priorities@) =~= priorities_view(before).update(
                        i as int,
                        (command@, key@, p),
                    ));
                },
                None => {
                    self.column_priorities.push((string_of(command.as_slice()), string_of(key), p));
                    assert(priorities_view(self.column_priorities@) =~= priorities_view(before).push(
                        (command@, key@, p),
                    ));
                },
            }
        }
    }

    fn set_threshold(&mut self, section: &[char], key: &[char], value: &[char])
        ensures
            final(self)@ == threshold_key(old(self)@, section@, key@, value@),
    {
        let path = strip_all_prefix_exec(section, "thresholds.");
        let (command, column) = match split_first_exec(path.as_slice(), '.') {
            Some(pair) => pair,
            None => {
                return;
            },
        };
        let n = match parse_number(value) {
            Some(n) => n,
            None => {
                return;
            },
        };
        let ghost before = self.thresholds@;
        let ghost nv = n@;
        let is_warning = eq_str(key, "warning");
        let is_error = eq_str(key, "error");
        match rule_pos(&self.thresholds, command.as_slice(), column.as_slice()) {
            Some(i) => {
                proof {
                    lemma_pair_pos_range(rules_view(before), command@, column@, 0);
                }
                let (a, b, mut rule) = self.thresholds.remove(i);
                if is_warning {
                    rule.warning = Some(n);
                } else if is_error {
                    rule.error = Some(n);
                }
                self.thresholds.insert(i, (a, b, rule));
                assert(rules_view(self.thresholds@) =~= rules_view(before).update(
                    i as int,
                    (command@, column@, rules_view(self.thresholds@)[i as int].2),
                ));
            },
            None => {
                let mut rule = ThresholdRule { warning: None, error: None };
                if is_warning {
                    rule.warning = Some(n);
                } else if is_error {
                    rule.error = Some(n);
                }
                self.thresholds.push((string_of(command.as_slice()), string_of(column.as_slice()), rule));
                assert(rules_view(self.thresholds@) =~= rules_view(before).push(
                    (command@, column@, rules_view(self.thresholds@).last().2),
                ));
            },
        }
    }

    fn assign_key(&mut self, section: &[char], key: &[char], value: &[char])
        ensures
            final(self)@ == assign(old(self)@, section@, key@, value@),
    {
        if section.len() == 0 {
            assert(section@ =~= Seq::<char>::empty());
            self.set_top_level(key, value);
        } else if eq_str(section, "breakpoints") {
            self.set_breakpoint(key, value);
        } else if crate::text::starts_with_str(section, "columns.") {
            self.set_column_priority(section, key, value);
        } else if crate::text::starts_with_str(section, "thresholds.") {
            self.set_threshold(section, key, value);
        }
    }

    /// Reads settings from a configuration file in a subset of TOML: `#`
    /// comments outside quotes, `[section]` headers and `key = value` lines.
    /// Values that do not parse leave a setting as it was; breakpoints that
    /// end up out of order fall back to the defaults.
    pub fn merge_toml_subset(&mut self, input: &str)
        ensures
            final(self)@ == merge_spec(old(self)@, input@),
    {
        let text = chars_of(input);
        let ls = crate::text::split_lines(text.as_slice());
        let ghost lv = ls.deep_view();
        let ghost start = self@;
        let mut section: Vec<char> = Vec::new();
        assert(section@ =~= seq![]);
        let mut i: usize = 0;
        while i < ls.len()
            invariant
                i <= ls.len(),
                lv == ls.deep_view(),
                lv == lines(input@),
                merge_from(self@, section@, lv, i as int) == merge_from(start, seq![], lv, 0),
            decreases ls.len() - i,
        {
            proof {
                crate::text::lemma_deep_chars(&ls[i as int]);
            }
            let raw = ls[i].as_slice();
            let cut = comment_start(raw);
            let line = trimmed(crate::text::slice_of(raw, 0, cut).as_slice());
            assert(raw@.subrange(0, cut as int) =~= raw@.take(cut as int));
            if line.len() == 0 {
            } else if line[0] == '[' && line[line.len() - 1] == ']' {
                section = trimmed(crate::text::slice_of(line.as_slice(), 1, line.len() - 1).as_slice());
            } else {
                match split_first_exec(line.as_slice(), '=') {
                    Some((k, v)) => {
                        let key = trimmed(k.as_slice());
                        let value = trimmed(v.as_slice());
                        self.assign_key(section.as_slice(), key.as_slice(), value.as_slice());
                    },
                    None => {},
                }
            }
            i += 1;
        }
        if !(self.breakpoints.compact < self.breakpoints.core && self.breakpoints.core < self.breakpoints.wide) {
            self.breakpoints = Breakpoints { compact: 60, core: 100, wide: 160 };
        }
    }
}

// ---------------------------------------------------------------------------
// Defaults and command lists
// ---------------------------------------------------------------------------

pub open spec fn default_config() -> ConfigV {
    ConfigV {
        enabled_commands: seq![
            "ls"@,
            "ps"@,
            "df"@,
            "du"@,
            "git"@,
            "docker"@,
            "lsblk"@,
            "free"@,
            "ip"@,
        ],
        disabled_parsers: seq![],
        max_lines: 10_000,
        max_bytes: 8_388_608,
        min_confidence: NumberV::Finite(false, seq![7u8, 2u8], 0),
        theme: "default"@,
        border_style: "rounded"@,
        terminal_profile: "auto"@,
        watch_samples: 20,
        breakpoints: default_breakpoints(),
        column_priorities: seq![],
        thresholds: seq![],
    }
}

/// The default settings are in range and their breakpoints are ordered.
pub proof fn lemma_default_config_sound()
    ensures
        settings_in_range(default_config()),
        breakpoints_ordered(default_config().breakpoints),
{
    let m = default_config().min_confidence;
    assert(!number_below(m, zero_number()));
    assert(!number_below(one_number(), m));
}

impl Default for Config {
    fn default() -> (r: Self)
        ensures
            r@ == default_config(),
    {
        let mut enabled_commands: Vec<String> = Vec::new();
        enabled_commands.push("ls".to_owned());
        enabled_commands.push("ps".to_owned());
        enabled_commands.push("df".to_owned());
        enabled_commands.push("du".to_owned());
        enabled_commands.push("git".to_owned());
        enabled_commands.push("docker".to_owned());
        enabled_commands.push("lsblk".to_owned());
        enabled_commands.push("free".to_owned());
        enabled_commands.push("ip".to_owned());
        let mut digits: Vec<u8> = Vec::new();
        digits.push(7);
        digits.push(2);
        let r = Config {
            enabled_commands,
            disabled_parsers: Vec::new(),
            max_lines: 10_000,
            max_bytes: 8 * 1024 * 1024,
            min_confidence: Number::Finite(false, digits, 0),
            theme: "default".to_owned(),
            border_style: "rounded".to_owned(),
            terminal_profile: "auto".to_owned(),
            watch_samples: 20,
            breakpoints: Breakpoints { compact: 60, core: 100, wide: 160 },
            column_priorities: Vec::new(),
            thresholds: Vec::new(),
        };
        assert(r@.enabled_commands =~= default_config().enabled_commands);
        assert(r@.disabled_parsers =~= default_config().disabled_parsers);
        assert(r@.column_priorities =~= default_config().column_priorities);
        assert(r@.thresholds =~= default_config().thresholds);
        assert(digits@ =~= seq![7u8, 2u8]);
        r
    }
}

/// Command specs reduced to their executable names, first occurrence kept.
pub open spec fn normalized(cs: Seq<Seq<char>>) -> Seq<Seq<char>>
    decreases cs.len(),
{
    if cs.len() == 0 {
        seq![]
    } else {
        let acc = normalized(cs.drop_last());
        let ws = words(cs.last());
        if ws.len() > 0 && !acc.contains(ws[0]) {
            acc.push(ws[0])
        } else {
            acc
        }
    }
}

/// The non-empty trimmed items of a comma-separated list.
pub open spec fn comma_items(ps: Seq<Seq<char>>) -> Seq<Seq<char>>
    decreases ps.len(),
{
    if ps.len() == 0 {
        seq![]
    } else {
        let rest = comma_items(ps.drop_last());
        let v = trim(ps.last());
        if v.len() > 0 {
            rest.push(v)
        } else {
            rest
        }
    }
}

pub(crate) fn contains_text(list: &Vec<String>, v: &[char]) -> (r: bool)
    ensures
        r == strings_view(list@).contains(v@),
{
    let mut i: usize = 0;
    while i < list.len()
        invariant
            i <= list.len(),
            forall|j: int| 0 <= j < i ==> strings_view(list@)[j] != v@,
        decreases list.len() - i,
    {
        let item = chars_of(list[i].as_str());
        if crate::text::eq(item.as_slice(), v) {
            assert(strings_view(list@)[i as int] == v@);
            return true;
        }
        i += 1;
    }
    false
}

impl Config {
    /// Reduces each enabled command spec (`ip route`) to its executable name
    /// (`ip`), dropping empty specs and repeated names.
    pub fn normalize_enabled_commands(&mut self)
        ensures
            final(self)@ == (ConfigV { enabled_commands: normalized(old(self)@.enabled_commands), ..old(self)@ }),
    {
        let ghost cs = strings_view(self.enabled_commands@);
        let mut out: Vec<String> = Vec::new();
        let mut i: usize = 0;
        while i < self.enabled_commands.len()
            invariant
                i <= self.enabled_commands.len(),
                cs == strings_view(self.enabled_commands@),
                strings_view(out@) == normalized(cs.take(i as int)),
            decreases self.enabled_commands.len() - i,
        {
            assert(cs.take(i + 1).drop_last() =~= cs.take(i as int));
            let command = chars_of(self.enabled_commands[i].as_str());
            let ws = crate::text::split_words(command.as_slice());
            if ws.len() > 0 {
                proof {
                    crate::text::lemma_deep_chars(&ws[0]);
                }
                if !contains_text(&out, ws[0].as_slice()) {
                    let ghost before = out@;
                    out.push(string_of(ws[0].as_slice()));
                    assert(strings_view(out@) =~= strings_view(before).push(ws@[0]@));
                }
            }
            i += 1;
        }
        assert(cs.take(cs.len() as int) =~= cs);
        self.enabled_commands = out;
    }

    /// Replaces the enabled commands by a comma-separated list, as the
    /// environment gives it, unless the list has no item.
    pub fn override_enabled_commands(&mut self, value: &str)
        ensures
            ({
                let items = comma_items(pieces(value@, ','));
                final(self)@ == if items.len() > 0 {
                    ConfigV { enabled_commands: items, ..old(self)@ }
                } else {
                    old(self)@
                }
            }),
    {
        let v = chars_of(value);
        let ps = split_pieces(v.as_slice(), ',');
        let ghost pv = ps.deep_view();
        let mut items: Vec<String> = Vec::new();
        let mut i: usize = 0;
        while i < ps.len()
            invariant
                i <= ps.len(),
                pv == ps.deep_view(),
                strings_view(items@) == comma_items(pv.take(i as int)),
            decreases ps.len() - i,
        {
            assert(pv.take(i + 1).drop_last() =~= pv.take(i as int));
            proof {
                crate::text::lemma_deep_chars(&ps[i as int]);
            }
            let item = trimmed(ps[i].as_slice());
            if item.len() > 0 {
                let ghost before = items@;
                items.push(string_of(item.as_slice()));
                assert(strings_view(items@) =~= strings_view(before).push(item@));
            }
            i += 1;
        }
        assert(pv.take(ps.len() as int) =~= pv);
        if items.len() > 0 {
            self.enabled_commands = items;
        }
    }

    /// The priority set for a command's column, if any.
    pub fn column_priority(&self, command: &str, key: &str) -> (r: Option<u8>)
        ensures
            r == pair_get(self@.column_priorities, command@, key@),
    {
        let c = chars_of(command);
        let k = chars_of(key);
        proof {
            lemma_pair_pos_range(self@.column_priorities, command@, key@, 0);
        }
        match priority_pos(&self.column_priorities, c.as_slice(), k.as_slice()) {
            Some(i) => Some(self.column_priorities[i].2),
            None => None,
        }
    }
}

// ---------------------------------------------------------------------------
// Applying priorities and thresholds to a view
// ---------------------------------------------------------------------------

/// A column with the priority configured for it, if any.
pub open spec fn prioritized(cp: Seq<(Seq<char>, Seq<char>, u8)>, source: Seq<char>, c: crate::model::ColumnV) -> crate::model::ColumnV {
    match pair_get(cp, source, c.key) {
        Some(p) => crate::model::ColumnV { priority: p, ..c },
        None => c,
    }
}

pub open spec fn with_priorities(cp: Seq<(Seq<char>, Seq<char>, u8)>, source: Seq<char>, v: ContentV) -> ContentV {
    match v {
        ContentV::Table(t) => ContentV::Table(
            crate::model::TableV {
                columns: t.columns.map_values(|c: crate::model::ColumnV| prioritized(cp, source, c)),
                ..t
            },
        ),
        ContentV::Logs(rs) => ContentV::Logs(rs),
    }
}

/// The style a threshold rule gives a cell: error at or above its error
/// value, else warning at or above its warning value, else unchanged.
pub open spec fn threshold_style(text: Seq<char>, rule: RuleV, style: Style) -> Style {
    match number_of(numeric_text(text)) {
        Some(v) => if rule.error matches Some(t) && number_at_least(v, t) {
            Style::Error
        } else if rule.warning matches Some(t) && number_at_least(v, t) {
            Style::Warning
        } else {
            style
        },
        None => style,
    }
}

pub open spec fn thresholded_cell(
    th: Seq<(Seq<char>, Seq<char>, RuleV)>,
    source: Seq<char>,
    columns: Seq<crate::model::ColumnV>,
    k: int,
    c: crate::model::CellV,
) -> crate::model::CellV {
    if k < columns.len() {
        match pair_get(th, source, columns[k].key) {
            Some(rule) => crate::model::CellV { style: threshold_style(c.text, rule, c.style), ..c },
            None => c,
        }
    } else {
        c
    }
}

pub open spec fn with_thresholds(th: Seq<(Seq<char>, Seq<char>, RuleV)>, source: Seq<char>, v: ContentV) -> ContentV {
    match v {
        ContentV::Table(t) => ContentV::Table(
            crate::model::TableV {
                rows: t.rows.map_values(
                    |row: Seq<crate::model::CellV>|
                        row.map(|k: int, c: crate::model::CellV| thresholded_cell(th, source, t.columns, k, c)),
                ),
                ..t
            },
        ),
        ContentV::Logs(rs) => ContentV::Logs(rs),
    }
}

impl Config {
    /// Gives the columns of a table the priorities configured for the source.
    pub fn apply_column_priorities(&self, source: &str, view: &mut Content)
        ensures
            final(view)@ == with_priorities(self@.column_priorities, source@, old(view)@),
    {
        if let Content::Table(table) = view {
            let ghost before = table.columns@;
            let src = chars_of(source);
            let mut columns: Vec<crate::model::Column> = Vec::new();
            let mut i: usize = 0;
            while i < table.columns.len()
                invariant
                    i <= table.columns.len(),
                    before == table.columns@,
                    columns.len() == i,
                    src@ == source@,
                    forall|j: int|
                        0 <= j < i ==> (#[trigger] columns@[j])@ == prioritized(
                            self@.column_priorities,
                            source@,
                            before[j]@,
                        ),
                decreases table.columns.len() - i,
            {
                let key = chars_of(table.columns[i].key.as_str());
                let mut c = table.columns[i].copied();
                proof {
                    lemma_pair_pos_range(self@.column_priorities, source@, key@, 0);
                }
                match priority_pos(&self.column_priorities, src.as_slice(), key.as_slice()) {
                    Some(p) => {
                        c.priority = self.column_priorities[p].2;
                    },
                    None => {},
                }
                columns.push(c);
                i += 1;
            }
            table.columns = columns;
            assert(table.columns@.map_values(|c: crate::model::Column| c@) =~= before.map_values(
                |c: crate::model::Column| c@,
            ).map_values(|c: crate::model::ColumnV| prioritized(self@.column_priorities, source@, c)));
        }
    }

    fn styled_by_threshold(&self, source: &[char], column: &crate::model::Column, cell: &crate::model::Cell) -> (r:
        crate::model::Cell)
        ensures
            r@ == (match pair_get(self@.thresholds, source@, column.key@) {
                Some(rule) => crate::model::CellV { style: threshold_style(cell@.text, rule, cell@.style), ..cell@ },
                None => cell@,
            }),
    {
        let mut c = cell.copied();
        let key = chars_of(column.key.as_str());
        proof {
            lemma_pair_pos_range(self@.thresholds, source@, key@, 0);
        }
        match rule_pos(&self.thresholds, source, key.as_slice()) {
            Some(p) => {
                let text = chars_of(cell.text.as_str());
                let numeric = numeric_text_exec(text.as_slice());
                if let Some(v) = parse_number(numeric.as_slice()) {
                    let rule = &self.thresholds[p].2;
                    let is_error = match &rule.error {
                        Some(t) => crate::number::at_least(&v, t),
                        None => false,
                    };
                    let is_warning = match &rule.warning {
                        Some(t) => crate::number::at_least(&v, t),
                        None => false,
                    };
                    if is_error {
                        c.style = Style::Error;
                    } else if is_warning {
                        c.style = Style::Warning;
                    }
                }
            },
            None => {},
        }
        c
    }

    /// Styles the numeric cells of a table by the threshold rules configured
    /// for the source and each cell's column.
    pub fn apply_thresholds(&self, source: &str, view: &mut Content)
        ensures
            final(view)@ == with_thresholds(self@.thresholds, source@, old(view)@),
    {
        if let Content::Table(table) = view {
            let ghost t = table@;
            let src = chars_of(source);
            let mut rows: Vec<Vec<crate::model::Cell>> = Vec::new();
            let mut r: usize = 0;
            while r < table.rows.len()
                invariant
                    r <= table.rows.len(),
                    t == table@,
                    src@ == source@,
                    rows.len() == r,
                    forall|q: int|
                        0 <= q < r ==> crate::model::row_view(#[trigger] rows@[q]) == t.rows[q].map(
                            |k: int, c: crate::model::CellV| thresholded_cell(self@.thresholds, source@, t.columns, k, c),
                        ),
                decreases table.rows.len() - r,
            {
                let mut row: Vec<crate::model::Cell> = Vec::new();
                let mut k: usize = 0;
                while k < table.rows[r].len()
                    invariant
                        k <= table.rows[r as int].len(),
                        r < table.rows.len(),
                        t == table@,
                        src@ == source@,
                        row.len() == k,
                        forall|j: int|
                            0 <= j < k ==> (#[trigger] row@[j])@ == thresholded_cell(
                                self@.thresholds,
                                source@,
                                t.columns,
                                j,
                                t.rows[r as int][j],
                            ),
                    decreases table.rows[r as int].len() - k,
                {
                    if k < table.columns.len() {
                        let c = self.styled_by_threshold(src.as_slice(), &table.columns[k], &table.rows[r][k]);
                        row.push(c);
                    } else {
                        row.push(table.rows[r][k].copied());
                    }
                    k += 1;
                }
                assert(crate::model::row_view(row) =~= t.rows[r as int].map(
                    |k: int, c: crate::model::CellV| thresholded_cell(self@.thresholds, source@, t.columns, k, c),
                ));
                rows.push(row);
                r += 1;
            }
            table.rows = rows;
            assert(table@.rows =~= t.rows.map_values(
                |row: Seq<crate::model::CellV>|
                    row.map(|k: int, c: crate::model::CellV| thresholded_cell(self@.thresholds, source@, t.columns, k, c)),
            ));
        }
    }
}

} // verus!

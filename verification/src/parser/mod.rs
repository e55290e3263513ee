//! Choosing a parser for a command's output.
use vstd::prelude::*;

pub mod builtins;
pub mod generic;
pub mod jc;
pub mod util;

use crate::model::{Content, ContentV, ParsedView};
use crate::text::{chars_of, eq, eq_str, join, join_with, lemma_deep_chars, lines, split_lines};
use builtins::{
    ls_detect, ls_parse, ls_detect_exec, ls_parse_exec, ps_detect, ps_parse, ps_detect_exec, ps_parse_exec, df_detect, df_parse, df_detect_exec, df_parse_exec, du_detect, du_parse, du_detect_exec, du_parse_exec, git_status_detect, git_status_parse, git_status_detect_exec, git_status_parse_exec, git_log_detect, git_log_parse, git_log_detect_exec, git_log_parse_exec, docker_detect, docker_parse, docker_detect_exec, docker_parse_exec, lsblk_detect, lsblk_parse, lsblk_detect_exec, lsblk_parse_exec, free_detect, free_parse, free_detect_exec, free_parse_exec, ip_detect, ip_parse, ip_detect_exec, ip_parse_exec,
};
use generic::{
    generic_table_detect, generic_table_detect_exec, generic_table_parse,
    generic_table_parse_exec, key_value_detect, key_value_detect_exec, key_value_parse,
    key_value_parse_exec, log_detect, log_detect_exec, log_parse, log_parse_exec,
};
use jc::{json_table, json_to_view};

verus! {

#[derive(Debug, Clone, Copy, PartialEq, Eq, Structural)]
pub enum ActionKind {
    OpenPath,
    TerminateProcess,
}

/// An action offered on the rows of a source: its label, the column whose
/// value it acts on, and what it does.
#[derive(Debug, Clone, Copy)]
pub struct ActionSpec {
    pub label: &'static str,
    pub value_key: &'static str,
    pub kind: ActionKind,
}

/// `ls` rows can be opened by name; `ps` rows terminated by pid.
pub fn actions_for(source: &str) -> (r: Vec<ActionSpec>)
    ensures
        source@ == "ls"@ ==> r@.len() == 1 && r@[0].label@ == "open"@ && r@[0].value_key@
            == "name"@ && r@[0].kind == ActionKind::OpenPath,
        source@ == "ps"@ ==> r@.len() == 1 && r@[0].label@ == "terminate"@ && r@[0].value_key@
            == "pid"@ && r@[0].kind == ActionKind::TerminateProcess,
        source@ != "ls"@ && source@ != "ps"@ ==> r@.len() == 0,
{
    let s = chars_of(source);
    let mut out: Vec<ActionSpec> = Vec::new();
    proof {
        reveal_strlit("ls");
        reveal_strlit("ps");
        assert("ps"@[0] != "ls"@[0]);
    }
    if eq_str(s.as_slice(), "ls") {
        out.push(ActionSpec { label: "open", value_key: "name", kind: ActionKind::OpenPath });
    } else if eq_str(s.as_slice(), "ps") {
        out.push(
            ActionSpec { label: "terminate", value_key: "pid", kind: ActionKind::TerminateProcess },
        );
    }
    out
}

/// The columns that identify a row of a source's table.
pub open spec fn key_columns_of(source: Seq<char>) -> Seq<Seq<char>> {
    if source == "ls"@ {
        seq!["name"@]
    } else if source == "ps"@ {
        seq!["pid"@]
    } else if source == "df"@ {
        seq!["mounted"@, "filesystem"@]
    } else if source == "du"@ {
        seq!["path"@]
    } else if source == "git"@ {
        seq!["path"@, "commit"@]
    } else if source == "docker"@ {
        seq!["container_id"@, "names"@]
    } else if source == "lsblk"@ {
        seq!["name"@]
    } else if source == "free"@ {
        seq!["type"@]
    } else if source == "ip"@ {
        seq!["destination"@]
    } else {
        seq![]
    }
}

pub fn key_columns(source: &str) -> (r: Vec<&'static str>)
    ensures
        r@.map_values(|k: &str| k@) == key_columns_of(source@),
{
    let s = chars_of(source);
    let s = s.as_slice();
    let mut out: Vec<&'static str> = Vec::new();
    if eq_str(s, "ls") {
        out.push("name");
    } else if eq_str(s, "ps") {
        out.push("pid");
    } else if eq_str(s, "df") {
        out.push("mounted");
        out.push("filesystem");
    } else if eq_str(s, "du") {
        out.push("path");
    } else if eq_str(s, "git") {
        out.push("path");
        out.push("commit");
    } else if eq_str(s, "docker") {
        out.push("container_id");
        out.push("names");
    } else if eq_str(s, "lsblk") {
        out.push("name");
    } else if eq_str(s, "free") {
        out.push("type");
    } else if eq_str(s, "ip") {
        out.push("destination");
    }
    assert(out@.map_values(|k: &str| k@) =~= key_columns_of(source@));
    out
}

// ---------------------------------------------------------------------------
// jc adapters
// ---------------------------------------------------------------------------

/// The `jc` parser used for a source, if there is one.
pub open spec fn jc_adapter(source: Seq<char>) -> Option<Seq<char>> {
    if source == "arp"@ {
        Some("arp"@)
    } else if source == "blkid"@ {
        Some("blkid"@)
    } else if source == "crontab"@ {
        Some("crontab"@)
    } else if source == "date"@ {
        Some("date"@)
    } else if source == "df"@ {
        Some("df"@)
    } else if source == "dig"@ {
        Some("dig"@)
    } else if source == "du"@ {
        Some("du"@)
    } else if source == "env"@ {
        Some("env"@)
    } else if source == "find"@ {
        Some("find"@)
    } else if source == "free"@ {
        Some("free"@)
    } else if source == "fstab"@ {
        Some("fstab"@)
    } else if source == "getent"@ {
        Some("getent"@)
    } else if source == "history"@ {
        Some("history"@)
    } else if source == "hosts"@ {
        Some("hosts"@)
    } else if source == "ifconfig"@ {
        Some("ifconfig"@)
    } else if source == "ip"@ {
        Some("ip-route"@)
    } else if source == "iptables"@ {
        Some("iptables"@)
    } else if source == "last"@ {
        Some("last"@)
    } else if source == "ls"@ {
        Some("ls"@)
    } else if source == "lsblk"@ {
        Some("lsblk"@)
    } else if source == "lsof"@ {
        Some("lsof"@)
    } else if source == "mount"@ {
        Some("mount"@)
    } else if source == "netstat"@ {
        Some("netstat"@)
    } else if source == "passwd"@ {
        Some("passwd"@)
    } else if source == "ping"@ {
        Some("ping"@)
    } else if source == "ps"@ {
        Some("ps"@)
    } else if source == "route"@ {
        Some("route"@)
    } else if source == "sfdisk"@ {
        Some("sfdisk"@)
    } else if source == "ss"@ {
        Some("ss"@)
    } else if source == "stat"@ {
        Some("stat"@)
    } else if source == "sysctl"@ {
        Some("sysctl"@)
    } else if source == "systemctl"@ {
        Some("systemctl"@)
    } else if source == "timedatectl"@ {
        Some("timedatectl"@)
    } else if source == "traceroute"@ {
        Some("traceroute"@)
    } else if source == "ulimit"@ {
        Some("ulimit"@)
    } else if source == "uname"@ {
        Some("uname"@)
    } else if source == "uptime"@ {
        Some("uptime"@)
    } else if source == "w"@ {
        Some("w"@)
    } else if source == "wc"@ {
        Some("wc"@)
    } else if source == "who"@ {
        Some("who"@)
    } else {
        None
    }
}

pub fn jc_adapter_exec(source: &[char]) -> (r: Option<&'static str>)
    ensures
        match r {
            Some(n) => jc_adapter(source@) == Some(n@),
            None => jc_adapter(source@).is_none(),
        },
{
    if eq_str(source, "arp") {
        Some("arp")
    } else if eq_str(source, "blkid") {
        Some("blkid")
    } else if eq_str(source, "crontab") {
        Some("crontab")
    } else if eq_str(source, "date") {
        Some("date")
    } else if eq_str(source, "df") {
        Some("df")
    } else if eq_str(source, "dig") {
        Some("dig")
    } else if eq_str(source, "du") {
        Some("du")
    } else if eq_str(source, "env") {
        Some("env")
    } else if eq_str(source, "find") {
        Some("find")
    } else if eq_str(source, "free") {
        Some("free")
    } else if eq_str(source, "fstab") {
        Some("fstab")
    } else if eq_str(source, "getent") {
        Some("getent")
    } else if eq_str(source, "history") {
        Some("history")
    } else if eq_str(source, "hosts") {
        Some("hosts")
    } else if eq_str(source, "ifconfig") {
        Some("ifconfig")
    } else if eq_str(source, "ip") {
        Some("ip-route")
    } else if eq_str(source, "iptables") {
        Some("iptables")
    } else if eq_str(source, "last") {
        Some("last")
    } else if eq_str(source, "ls") {
        Some("ls")
    } else if eq_str(source, "lsblk") {
        Some("lsblk")
    } else if eq_str(source, "lsof") {
        Some("lsof")
    } else if eq_str(source, "mount") {
        Some("mount")
    } else if eq_str(source, "netstat") {
        Some("netstat")
    } else if eq_str(source, "passwd") {
        Some("passwd")
    } else if eq_str(source, "ping") {
        Some("ping")
    } else if eq_str(source, "ps") {
        Some("ps")
    } else if eq_str(source, "route") {
        Some("route")
    } else if eq_str(source, "sfdisk") {
        Some("sfdisk")
    } else if eq_str(source, "ss") {
        Some("ss")
    } else if eq_str(source, "stat") {
        Some("stat")
    } else if eq_str(source, "sysctl") {
        Some("sysctl")
    } else if eq_str(source, "systemctl") {
        Some("systemctl")
    } else if eq_str(source, "timedatectl") {
        Some("timedatectl")
    } else if eq_str(source, "traceroute") {
        Some("traceroute")
    } else if eq_str(source, "ulimit") {
        Some("ulimit")
    } else if eq_str(source, "uname") {
        Some("uname")
    } else if eq_str(source, "uptime") {
        Some("uptime")
    } else if eq_str(source, "w") {
        Some("w")
    } else if eq_str(source, "wc") {
        Some("wc")
    } else if eq_str(source, "who") {
        Some("who")
    } else {
        None
    }
}

// ---------------------------------------------------------------------------
// The registry
// ---------------------------------------------------------------------------

/// The parsers, in the order in which they are tried: the built-in parsers,
/// `jc` (one parser per adapter, standing here for all of them) and the
/// generic ones.
#[derive(Debug, Clone, Copy, PartialEq, Eq, Structural)]
pub enum ParserKind {
    Ls,
    Ps,
    Df,
    Du,
    GitStatus,
    GitLog,
    DockerPs,
    Lsblk,
    Free,
    IpRoute,
    Jc,
    GenericTable,
    KeyValue,
    Log,
}

pub open spec fn kind_name(k: ParserKind) -> Seq<char> {
    match k {
        ParserKind::Ls => "ls"@,
        ParserKind::Ps => "ps"@,
        ParserKind::Df => "df"@,
        ParserKind::Du => "du"@,
        ParserKind::GitStatus => "git-status"@,
        ParserKind::GitLog => "git-log"@,
        ParserKind::DockerPs => "docker-ps"@,
        ParserKind::Lsblk => "lsblk"@,
        ParserKind::Free => "free"@,
        ParserKind::IpRoute => "ip-route"@,
        ParserKind::Jc => "jc"@,
        ParserKind::GenericTable => "generic-table"@,
        ParserKind::KeyValue => "generic-key-value"@,
        ParserKind::Log => "generic-log"@,
    }
}

/// The confidence of a parser, in hundredths.
pub open spec fn kind_confidence(k: ParserKind) -> u8 {
    match k {
        ParserKind::Jc => 94,
        ParserKind::GenericTable => 80,
        ParserKind::KeyValue => 82,
        ParserKind::Log => 84,
        _ => 96,
    }
}

pub open spec fn all_kinds(jc: bool) -> Seq<ParserKind> {
    seq![
        ParserKind::Ls,
        ParserKind::Ps,
        ParserKind::Df,
        ParserKind::Du,
        ParserKind::GitStatus,
        ParserKind::GitLog,
        ParserKind::DockerPs,
        ParserKind::Lsblk,
        ParserKind::Free,
        ParserKind::IpRoute,
    ] + (if jc {
        seq![ParserKind::Jc]
    } else {
        seq![]
    }) + seq![ParserKind::GenericTable, ParserKind::KeyValue, ParserKind::Log]
}

/// The kinds whose name is not disabled (each `jc` adapter is checked by its
/// own name when it is tried).
pub open spec fn enabled(ks: Seq<ParserKind>, disabled: Seq<Seq<char>>) -> Seq<ParserKind>
    decreases ks.len(),
{
    if ks.len() == 0 {
        seq![]
    } else if ks.last() != ParserKind::Jc && disabled.contains(kind_name(ks.last())) {
        enabled(ks.drop_last(), disabled)
    } else {
        enabled(ks.drop_last(), disabled).push(ks.last())
    }
}

pub open spec fn kind_detect(k: ParserKind, source: Seq<char>, fl: Seq<char>, disabled: Seq<Seq<char>>) -> bool {
    match k {
        ParserKind::Ls => ls_detect(source, fl),
        ParserKind::Ps => ps_detect(source, fl),
        ParserKind::Df => df_detect(source, fl),
        ParserKind::Du => du_detect(source, fl),
        ParserKind::GitStatus => git_status_detect(source, fl),
        ParserKind::GitLog => git_log_detect(source, fl),
        ParserKind::DockerPs => docker_detect(source, fl),
        ParserKind::Lsblk => lsblk_detect(source, fl),
        ParserKind::Free => free_detect(source, fl),
        ParserKind::IpRoute => ip_detect(source, fl),
        ParserKind::Jc => match jc_adapter(source) {
            Some(name) => !disabled.contains(name),
            None => false,
        },
        ParserKind::GenericTable => generic_table_detect(fl),
        ParserKind::KeyValue => key_value_detect(fl),
        ParserKind::Log => log_detect(fl),
    }
}

/// What a parser reads from the input; `jc` reads the JSON that `jc`
/// printed for it, when there is some.
pub open spec fn kind_parse(k: ParserKind, input: Seq<char>, jc_json: Option<Seq<char>>) -> Option<ContentV> {
    match k {
        ParserKind::Ls => ls_parse(input),
        ParserKind::Ps => ps_parse(input),
        ParserKind::Df => df_parse(input),
        ParserKind::Du => du_parse(input),
        ParserKind::GitStatus => git_status_parse(input),
        ParserKind::GitLog => git_log_parse(input),
        ParserKind::DockerPs => docker_parse(input),
        ParserKind::Lsblk => lsblk_parse(input),
        ParserKind::Free => free_parse(input),
        ParserKind::IpRoute => ip_parse(input),
        ParserKind::Jc => match jc_json {
            Some(j) => json_table(j),
            None => None,
        },
        ParserKind::GenericTable => generic_table_parse(input),
        ParserKind::KeyValue => key_value_parse(input),
        ParserKind::Log => log_parse(input),
    }
}

/// The first eight lines, joined by newlines.
pub open spec fn first_lines(input: Seq<char>) -> Seq<char> {
    join(lines(input).take(if lines(input).len() < 8 { lines(input).len() as int } else { 8 }), seq!['\n'])
}

/// The view of the first parser from `i` on that detects the input and
/// parses it, with that parser's confidence.
pub open spec fn first_match(
    ks: Seq<ParserKind>,
    i: int,
    source: Seq<char>,
    input: Seq<char>,
    disabled: Seq<Seq<char>>,
    jc_json: Option<Seq<char>>,
) -> Option<(ContentV, u8)>
    decreases ks.len() - i,
{
    if i < 0 || i >= ks.len() {
        None
    } else if kind_detect(ks[i], source, first_lines(input), disabled) && kind_parse(
        ks[i],
        input,
        jc_json,
    ).is_some() {
        Some((kind_parse(ks[i], input, jc_json).unwrap(), kind_confidence(ks[i])))
    } else {
        first_match(ks, i + 1, source, input, disabled, jc_json)
    }
}

/// The `jc` adapter to run: the one for the source, when `jc` is reached,
/// that is when no parser before it detects and parses the input.
pub open spec fn jc_needed(
    ks: Seq<ParserKind>,
    i: int,
    source: Seq<char>,
    input: Seq<char>,
    disabled: Seq<Seq<char>>,
) -> Option<Seq<char>>
    decreases ks.len() - i,
{
    if i < 0 || i >= ks.len() {
        None
    } else if ks[i] == ParserKind::Jc {
        if kind_detect(ks[i], source, first_lines(input), disabled) {
            jc_adapter(source)
        } else {
            None
        }
    } else if kind_detect(ks[i], source, first_lines(input), disabled) && kind_parse(
        ks[i],
        input,
        None,
    ).is_some() {
        None
    } else {
        jc_needed(ks, i + 1, source, input, disabled)
    }
}

impl ParserKind {
    /// The parser's name, as used to disable it.
    pub fn name(&self) -> (r: &'static str)
        ensures
            r@ == kind_name(*self),
    {
        match self {
            ParserKind::Ls => "ls",
            ParserKind::Ps => "ps",
            ParserKind::Df => "df",
            ParserKind::Du => "du",
            ParserKind::GitStatus => "git-status",
            ParserKind::GitLog => "git-log",
            ParserKind::DockerPs => "docker-ps",
            ParserKind::Lsblk => "lsblk",
            ParserKind::Free => "free",
            ParserKind::IpRoute => "ip-route",
            ParserKind::Jc => "jc",
            ParserKind::GenericTable => "generic-table",
            ParserKind::KeyValue => "generic-key-value",
            ParserKind::Log => "generic-log",
        }
    }

    /// Whether the parser takes the output of `source` that begins with
    /// `first_lines` (no parser disabled).
    pub fn detect(&self, source: &str, first_lines: &str) -> (r: bool)
        ensures
            r == kind_detect(*self, source@, first_lines@, seq![]),
    {
        let reg = ParserRegistry { kinds: Vec::new(), disabled: Vec::new() };
        assert(reg.disabled.deep_view() =~= seq![]);
        let s = chars_of(source);
        let f = chars_of(first_lines);
        reg.detect(*self, s.as_slice(), f.as_slice())
    }

    /// What the parser reads from the input (`jc` reads `jc_json`).
    pub fn parse(&self, input: &str, jc_json: Option<&str>) -> (r: Option<Content>)
        ensures
            crate::model::content_opt_view(r) == kind_parse(
                *self,
                input@,
                match jc_json {
                    Some(j) => Some(j@),
                    None => None,
                },
            ),
    {
        let t = chars_of(input);
        parse_kind(*self, t.as_slice(), jc_json)
    }

    pub fn confidence(&self) -> (r: u8)
        ensures
            r == kind_confidence(*self),
    {
        confidence_of(*self)
    }
}

pub struct ParserRegistry {
    kinds: Vec<ParserKind>,
    disabled: Vec<Vec<char>>,
}

impl ParserRegistry {
    pub closed spec fn kinds(&self) -> Seq<ParserKind> {
        self.kinds@
    }

    pub closed spec fn disabled(&self) -> Seq<Seq<char>> {
        self.disabled.deep_view()
    }

    /// The parsers whose names are not among `disabled`; `jc`'s only when
    /// `jc` can be run.
    pub fn new(disabled: &[String], jc_available: bool) -> (r: Self)
        ensures
            r.disabled() == disabled@.map_values(|s: String| s@),
            r.kinds() == enabled(all_kinds(jc_available), r.disabled()),
    {
        let mut names: Vec<Vec<char>> = Vec::new();
        let mut i: usize = 0;
        while i < disabled.len()
            invariant
                i <= disabled@.len(),
                names.deep_view() == disabled@.take(i as int).map_values(|s: String| s@),
            decreases disabled@.len() - i,
        {
            let v = chars_of(disabled[i].as_str());
            let ghost before = names.deep_view();
            proof {
                lemma_deep_chars(&v);
            }
            names.push(v);
            assert(names.deep_view() =~= before.push(disabled@[i as int]@));
            i += 1;
            assert(disabled@.take(i as int).map_values(|s: String| s@) =~= disabled@.take(
                i - 1,
            ).map_values(|s: String| s@).push(disabled@[i - 1]@));
        }
        assert(disabled@.take(disabled@.len() as int) =~= disabled@);
        let ghost dv = names.deep_view();
        let mut all: Vec<ParserKind> = Vec::new();
        all.push(ParserKind::Ls);
        all.push(ParserKind::Ps);
        all.push(ParserKind::Df);
        all.push(ParserKind::Du);
        all.push(ParserKind::GitStatus);
        all.push(ParserKind::GitLog);
        all.push(ParserKind::DockerPs);
        all.push(ParserKind::Lsblk);
        all.push(ParserKind::Free);
        all.push(ParserKind::IpRoute);
        if jc_available {
            all.push(ParserKind::Jc);
        }
        all.push(ParserKind::GenericTable);
        all.push(ParserKind::KeyValue);
        all.push(ParserKind::Log);
        assert(all@ =~= all_kinds(jc_available));
        let mut kinds: Vec<ParserKind> = Vec::new();
        let mut k: usize = 0;
        while k < all.len()
            invariant
                k <= all@.len(),
                dv == names.deep_view(),
                kinds@ == enabled(all@.take(k as int), dv),
            decreases all@.len() - k,
        {
            assert(all@.take(k + 1).drop_last() =~= all@.take(k as int));
            let kind = all[k];
            if kind == ParserKind::Jc || !is_disabled(&names, kind) {
                kinds.push(kind);
            }
            k += 1;
        }
        assert(all@.take(all@.len() as int) =~= all@);
        ParserRegistry { kinds, disabled: names }
    }

    /// The view of the first parser that detects and parses the input, with
    /// its confidence; `jc_json` is what `jc` printed for the input with the
    /// adapter that `jc_request` named.
    pub fn parse(&self, source: &str, input: &str, jc_json: Option<&str>) -> (r: Option<ParsedView>)
        ensures
            match r {
                Some(pv) => first_match(
                    self.kinds(),
                    0,
                    source@,
                    input@,
                    self.disabled(),
                    match jc_json {
                        Some(j) => Some(j@),
                        None => None,
                    },
                ) == Some((pv.view@, pv.confidence)),
                None => first_match(
                    self.kinds(),
                    0,
                    source@,
                    input@,
                    self.disabled(),
                    match jc_json {
                        Some(j) => Some(j@),
                        None => None,
                    },
                ).is_none(),
            },
    {
        let ghost jv = match jc_json {
            Some(j) => Some(j@),
            None => None,
        };
        let src = chars_of(source);
        let text = chars_of(input);
        let fl = head_lines(text.as_slice());
        let mut i: usize = 0;
        while i < self.kinds.len()
            invariant
                i <= self.kinds@.len(),
                src@ == source@,
                text@ == input@,
                fl@ == first_lines(input@),
                jv == match jc_json {
                    Some(j) => Some(j@),
                    None => None,
                },
                first_match(self.kinds@, 0, source@, input@, self.disabled.deep_view(), jv)
                    == first_match(self.kinds@, i as int, source@, input@, self.disabled.deep_view(), jv),
            decreases self.kinds@.len() - i,
        {
            let kind = self.kinds[i];
            if self.detect(kind, src.as_slice(), fl.as_slice()) {
                match parse_kind(kind, text.as_slice(), jc_json) {
                    Some(view) => {
                        return Some(ParsedView { view, confidence: confidence_of(kind) });
                    },
                    None => {},
                }
            }
            i += 1;
        }
        None
    }

    /// The `jc` adapter to run on the input, when the built-in parsers do not
    /// take it and `jc` is enabled for its source.
    pub fn jc_request(&self, source: &str, input: &str) -> (r: Option<&'static str>)
        ensures
            match r {
                Some(n) => jc_needed(self.kinds(), 0, source@, input@, self.disabled()) == Some(n@),
                None => jc_needed(self.kinds(), 0, source@, input@, self.disabled()).is_none(),
            },
    {
        let src = chars_of(source);
        let text = chars_of(input);
        let fl = head_lines(text.as_slice());
        let mut i: usize = 0;
        while i < self.kinds.len()
            invariant
                i <= self.kinds@.len(),
                src@ == source@,
                text@ == input@,
                fl@ == first_lines(input@),
                jc_needed(self.kinds@, 0, source@, input@, self.disabled.deep_view()) == jc_needed(
                    self.kinds@,
                    i as int,
                    source@,
                    input@,
                    self.disabled.deep_view(),
                ),
            decreases self.kinds@.len() - i,
        {
            let kind = self.kinds[i];
            if kind == ParserKind::Jc {
                if self.detect(kind, src.as_slice(), fl.as_slice()) {
                    return jc_adapter_exec(src.as_slice());
                }
                return None;
            }
            if self.detect(kind, src.as_slice(), fl.as_slice()) {
                if parse_kind(kind, text.as_slice(), None).is_some() {
                    return None;
                }
            }
            i += 1;
        }
        None
    }

    fn detect(&self, kind: ParserKind, source: &[char], fl: &[char]) -> (r: bool)
        ensures
            r == kind_detect(kind, source@, fl@, self.disabled.deep_view()),
    {
        match kind {
            ParserKind::Ls => ls_detect_exec(source, fl),
            ParserKind::Ps => ps_detect_exec(source, fl),
            ParserKind::Df => df_detect_exec(source, fl),
            ParserKind::Du => du_detect_exec(source, fl),
            ParserKind::GitStatus => git_status_detect_exec(source, fl),
            ParserKind::GitLog => git_log_detect_exec(source, fl),
            ParserKind::DockerPs => docker_detect_exec(source, fl),
            ParserKind::Lsblk => lsblk_detect_exec(source, fl),
            ParserKind::Free => free_detect_exec(source, fl),
            ParserKind::IpRoute => ip_detect_exec(source, fl),
            ParserKind::Jc => match jc_adapter_exec(source) {
                Some(name) => {
                    let n = chars_of(name);
                    !contains_name(&self.disabled, n.as_slice())
                },
                None => false,
            },
            ParserKind::GenericTable => generic_table_detect_exec(fl),
            ParserKind::KeyValue => key_value_detect_exec(fl),
            ParserKind::Log => log_detect_exec(fl),
        }
    }
}

fn confidence_of(kind: ParserKind) -> (r: u8)
    ensures
        r == kind_confidence(kind),
{
    match kind {
        ParserKind::Jc => 94,
        ParserKind::GenericTable => 80,
        ParserKind::KeyValue => 82,
        ParserKind::Log => 84,
        _ => 96,
    }
}

fn parse_kind(kind: ParserKind, input: &[char], jc_json: Option<&str>) -> (r: Option<Content>)
    ensures
        crate::model::content_opt_view(r) == kind_parse(
            kind,
            input@,
            match jc_json {
                Some(j) => Some(j@),
                None => None,
            },
        ),
{
    match kind {
        ParserKind::Ls => ls_parse_exec(input),
        ParserKind::Ps => ps_parse_exec(input),
        ParserKind::Df => df_parse_exec(input),
        ParserKind::Du => du_parse_exec(input),
        ParserKind::GitStatus => git_status_parse_exec(input),
        ParserKind::GitLog => git_log_parse_exec(input),
        ParserKind::DockerPs => docker_parse_exec(input),
        ParserKind::Lsblk => lsblk_parse_exec(input),
        ParserKind::Free => free_parse_exec(input),
        ParserKind::IpRoute => ip_parse_exec(input),
        ParserKind::Jc => match jc_json {
            Some(j) => json_to_view(j),
            None => None,
        },
        ParserKind::GenericTable => generic_table_parse_exec(input),
        ParserKind::KeyValue => key_value_parse_exec(input),
        ParserKind::Log => log_parse_exec(input),
    }
}

fn contains_name(names: &Vec<Vec<char>>, n: &[char]) -> (r: bool)
    ensures
        r == names.deep_view().contains(n@),
{
    let mut i: usize = 0;
    while i < names.len()
        invariant
            i <= names@.len(),
            forall|j: int| 0 <= j < i ==> names.deep_view()[j] != n@,
        decreases names@.len() - i,
    {
        proof {
            lemma_deep_chars(&names@[i as int]);
        }
        if eq(names[i].as_slice(), n) {
            assert(names.deep_view()[i as int] == n@);
            return true;
        }
        i += 1;
    }
    false
}

fn is_disabled(names: &Vec<Vec<char>>, kind: ParserKind) -> (r: bool)
    ensures
        r == names.deep_view().contains(kind_name(kind)),
{
    let name = match kind {
        ParserKind::Ls => "ls",
        ParserKind::Ps => "ps",
        ParserKind::Df => "df",
        ParserKind::Du => "du",
        ParserKind::GitStatus => "git-status",
        ParserKind::GitLog => "git-log",
        ParserKind::DockerPs => "docker-ps",
        ParserKind::Lsblk => "lsblk",
        ParserKind::Free => "free",
        ParserKind::IpRoute => "ip-route",
        ParserKind::Jc => "jc",
        ParserKind::GenericTable => "generic-table",
        ParserKind::KeyValue => "generic-key-value",
        ParserKind::Log => "generic-log",
    };
    let n = chars_of(name);
    contains_name(names, n.as_slice())
}

/// The first eight lines of the input, joined by newlines.
pub fn head_lines(input: &[char]) -> (r: Vec<char>)
    ensures
        r@ == first_lines(input@),
{
    let all = split_lines(input);
    let n: usize = if all.len() < 8 {
        all.len()
    } else {
        8
    };
    let mut head: Vec<Vec<char>> = Vec::new();
    let mut i: usize = 0;
    while i < n
        invariant
            i <= n <= all@.len(),
            head.deep_view() == all.deep_view().take(i as int),
        decreases n - i,
    {
        let l = crate::text::copy(all[i].as_slice());
        let ghost before = head.deep_view();
        proof {
            lemma_deep_chars(&l);
            lemma_deep_chars(&all@[i as int]);
        }
        head.push(l);
        assert(head.deep_view() =~= before.push(all.deep_view()[i as int]));
        i += 1;
        assert(all.deep_view().take(i as int) =~= before.push(all.deep_view()[i - 1]));
    }
    let mut sep: Vec<char> = Vec::new();
    sep.push('\n');
    assert(sep@ =~= seq!['\n']);
    assert(all.deep_view().take(n as int) == lines(input@).take(
        if lines(input@).len() < 8 {
            lines(input@).len() as int
        } else {
            8
        },
    ));
    join_with(&head, sep.as_slice())
}

} // verus!

//! Shell functions that route familiar commands through the formatter
//! when their output goes to a terminal.
use vstd::prelude::*;

use crate::config::Config;
use crate::text::{chars_of, extend, extend_str, is_alnum, is_alpha, string_of};

verus! {

/// The integration script's opening: helper functions shared by the
/// wrappers, with the shell's name and its way of reading the status of the
/// first command of a pipeline.
pub open spec fn header_spec(shell: Seq<char>, status: Seq<char>) -> Seq<char> {
    "# restty shell integration for "@ + shell + "\n__restty_should_render() {\n    [ -t 1 ] && [ \"${RESTTY_DISABLE:-0}\" != \"1\" ] && [ -z \"${NO_COLOR+x}\" ] && command -v restty >/dev/null 2>&1\n}\n\n__restty_run() {\n    local restty_command_name=\"$1\"\n    shift\n    if [ \"${RESTTY_LIVE:-0}\" = \"1\" ]; then\n        restty live --source=\"$restty_command_name\" -- \"$restty_command_name\" \"$@\"\n        return $?\n    fi\n    command \"$restty_command_name\" \"$@\" | restty render --source=\"$restty_command_name\"\n    local restty_command_status="@ + status + "\n    return \"$restty_command_status\"\n}\n\n__restty_ls_is_long() {\n    local restty_argument\n    for restty_argument in \"$@\"; do\n        case \"$restty_argument\" in\n            --) break ;;\n            --format=long|--format=verbose) return 0 ;;\n            -*) case \"$restty_argument\" in *l*) return 0 ;; esac ;;\n        esac\n    done\n    return 1\n}\n\n__restty_git_is_supported() {\n    local restty_git_mode=\"${1:-}\"\n    local restty_argument\n    shift 2>/dev/null || return 1\n    for restty_argument in \"$@\"; do\n        case \"$restty_git_mode:$restty_argument\" in\n            status:--short|status:-s|status:--porcelain|status:--porcelain=*) return 0 ;;\n            log:--oneline|log:--pretty=oneline) return 0 ;;\n        esac\n    done\n    return 1\n}\n\n"@
}

pub open spec fn git_block() -> Seq<char> {
    "git() {\n    if __restty_git_is_supported \"$@\" && __restty_should_render; then __restty_run git \"$@\"; else command git \"$@\"; fi\n}\n\n"@
}

pub open spec fn docker_block() -> Seq<char> {
    "docker() {\n    case \"${1:-}\" in\n        ps) if __restty_should_render; then __restty_run docker \"$@\"; else command docker \"$@\"; fi ;;\n        *) command docker \"$@\" ;;\n    esac\n}\n\n"@
}

pub open spec fn ls_block() -> Seq<char> {
    "ls() {\n    if __restty_ls_is_long \"$@\" && __restty_should_render; then __restty_run ls \"$@\"; else command ls \"$@\"; fi\n}\n\n"@
}

pub open spec fn ps_block() -> Seq<char> {
    "ps() {\n    case \"${1:-}\" in\n        aux|-aux) if __restty_should_render; then __restty_run ps \"$@\"; else command ps \"$@\"; fi ;;\n        *) command ps \"$@\" ;;\n    esac\n}\n\n"@
}

pub open spec fn ip_block() -> Seq<char> {
    "ip() {\n    case \"${1:-}:${2:-}\" in\n        route:*|r:*|-4:route|-4:r|-6:route|-6:r) if __restty_should_render; then __restty_run ip \"$@\"; else command ip \"$@\"; fi ;;\n        *) command ip \"$@\" ;;\n    esac\n}\n\n"@
}

/// The wrapper of a command that is formatted whatever its arguments.
pub open spec fn plain_block(command: Seq<char>) -> Seq<char> {
    command + "() {\n    if __restty_should_render; then __restty_run "@ + command + " \"$@\"; else command "@ + command + " \"$@\"; fi\n}\n\n"@
}

/// A name a shell function can take: an ASCII letter or `_`, then ASCII
/// letters, digits or `_`.
pub open spec fn valid_shell_name_spec(s: Seq<char>) -> bool {
    &&& s.len() > 0
    &&& (is_alpha(s[0]) || s[0] == '_')
    &&& forall|i: int| 1 <= i < s.len() ==> is_alnum(#[trigger] s[i]) || s[i] == '_'
}

/// The wrapper for one enabled command: special ones for `git`, `docker`,
/// `ls`, `ps` and `ip`, which only format the output shapes the parsers
/// know; a plain one for other valid names; none for the rest.
pub open spec fn command_block(command: Seq<char>) -> Seq<char> {
    if command == "git"@ {
        git_block()
    } else if command == "docker"@ {
        docker_block()
    } else if command == "ls"@ {
        ls_block()
    } else if command == "ps"@ {
        ps_block()
    } else if command == "ip"@ {
        ip_block()
    } else if command == "df"@ || command == "du"@ || command == "lsblk"@ || command == "free"@
        || valid_shell_name_spec(command) {
        plain_block(command)
    } else {
        seq![]
    }
}

pub open spec fn blocks(commands: Seq<Seq<char>>, n: int) -> Seq<char>
    decreases n,
{
    if n <= 0 {
        seq![]
    } else {
        blocks(commands, n - 1) + command_block(commands[n - 1])
    }
}

/// The whole script for a shell.
pub open spec fn generate_spec(shell: Seq<char>, commands: Seq<Seq<char>>, status: Seq<char>) -> Seq<char> {
    header_spec(shell, status) + blocks(commands, commands.len() as int)
}

pub fn valid_shell_name(value: &str) -> (r: bool)
    ensures
        r == valid_shell_name_spec(value@),
{
    let v = chars_of(value);
    if v.len() == 0 {
        return false;
    }
    if !(crate::text::is_ascii_alphabetic(v[0]) || v[0] == '_') {
        return false;
    }
    let mut i: usize = 1;
    while i < v.len()
        invariant
            1 <= i <= v.len(),
            v@ == value@,
            forall|j: int| 1 <= j < i ==> is_alnum(#[trigger] v@[j]) || v@[j] == '_',
        decreases v.len() - i,
    {
        if !(crate::text::is_ascii_alphanumeric(v[i]) || v[i] == '_') {
            return false;
        }
        i += 1;
    }
    true
}

fn push_block(out: &mut Vec<char>, command: &str)
    ensures
        final(out)@ == old(out)@ + command_block(command@),
{
    let c = chars_of(command);
    let s = c.as_slice();
    if crate::text::eq_str(s, "git") {
        extend_str(out, "git() {\n    if __restty_git_is_supported \"$@\" && __restty_should_render; then __restty_run git \"$@\"; else command git \"$@\"; fi\n}\n\n");
    } else if crate::text::eq_str(s, "docker") {
        extend_str(out, "docker() {\n    case \"${1:-}\" in\n        ps) if __restty_should_render; then __restty_run docker \"$@\"; else command docker \"$@\"; fi ;;\n        *) command docker \"$@\" ;;\n    esac\n}\n\n");
    } else if crate::text::eq_str(s, "ls") {
        extend_str(out, "ls() {\n    if __restty_ls_is_long \"$@\" && __restty_should_render; then __restty_run ls \"$@\"; else command ls \"$@\"; fi\n}\n\n");
    } else if crate::text::eq_str(s, "ps") {
        extend_str(out, "ps() {\n    case \"${1:-}\" in\n        aux|-aux) if __restty_should_render; then __restty_run ps \"$@\"; else command ps \"$@\"; fi ;;\n        *) command ps \"$@\" ;;\n    esac\n}\n\n");
    } else if crate::text::eq_str(s, "ip") {
        extend_str(out, "ip() {\n    case \"${1:-}:${2:-}\" in\n        route:*|r:*|-4:route|-4:r|-6:route|-6:r) if __restty_should_render; then __restty_run ip \"$@\"; else command ip \"$@\"; fi ;;\n        *) command ip \"$@\" ;;\n    esac\n}\n\n");
    } else if crate::text::eq_str(s, "df") || crate::text::eq_str(s, "du") || crate::text::eq_str(s, "lsblk")
        || crate::text::eq_str(s, "free") || valid_shell_name(command) {
        let ghost start = out@;
        extend(out, s);
        extend_str(out, "() {\n    if __restty_should_render; then __restty_run ");
        extend(out, s);
        extend_str(out, " \"$@\"; else command ");
        extend(out, s);
        extend_str(out, " \"$@\"; fi\n}\n\n");
        assert(out@ =~= start + plain_block(command@));
    } else {
        assert(command_block(command@) =~= seq![]);
    }
}

fn generate(shell: &str, config: &Config, pipeline_status: &str) -> (r: String)
    ensures
        r@ == generate_spec(shell@, config@.enabled_commands, pipeline_status@),
{
    let mut out: Vec<char> = Vec::new();
    extend_str(&mut out, "# restty shell integration for ");
    extend_str(&mut out, shell);
    extend_str(&mut out, "\n__restty_should_render() {\n    [ -t 1 ] && [ \"${RESTTY_DISABLE:-0}\" != \"1\" ] && [ -z \"${NO_COLOR+x}\" ] && command -v restty >/dev/null 2>&1\n}\n\n__restty_run() {\n    local restty_command_name=\"$1\"\n    shift\n    if [ \"${RESTTY_LIVE:-0}\" = \"1\" ]; then\n        restty live --source=\"$restty_command_name\" -- \"$restty_command_name\" \"$@\"\n        return $?\n    fi\n    command \"$restty_command_name\" \"$@\" | restty render --source=\"$restty_command_name\"\n    local restty_command_status=");
    extend_str(&mut out, pipeline_status);
    extend_str(&mut out, "\n    return \"$restty_command_status\"\n}\n\n__restty_ls_is_long() {\n    local restty_argument\n    for restty_argument in \"$@\"; do\n        case \"$restty_argument\" in\n            --) break ;;\n            --format=long|--format=verbose) return 0 ;;\n            -*) case \"$restty_argument\" in *l*) return 0 ;; esac ;;\n        esac\n    done\n    return 1\n}\n\n__restty_git_is_supported() {\n    local restty_git_mode=\"${1:-}\"\n    local restty_argument\n    shift 2>/dev/null || return 1\n    for restty_argument in \"$@\"; do\n        case \"$restty_git_mode:$restty_argument\" in\n            status:--short|status:-s|status:--porcelain|status:--porcelain=*) return 0 ;;\n            log:--oneline|log:--pretty=oneline) return 0 ;;\n        esac\n    done\n    return 1\n}\n\n");
    let ghost head = out@;
    assert(head =~= header_spec(shell@, pipeline_status@));
    let ghost cmds = config@.enabled_commands;
    let mut i: usize = 0;
    while i < config.enabled_commands.len()
        invariant
            i <= config.enabled_commands.len(),
            cmds == config@.enabled_commands,
            out@ == head + blocks(cmds, i as int),
        decreases config.enabled_commands.len() - i,
    {
        push_block(&mut out, config.enabled_commands[i].as_str());
        i += 1;
        assert(out@ =~= head + blocks(cmds, i as int));
    }
    string_of(out.as_slice())
}

/// The integration script for `bash` or `zsh`; `None` for other shells.
pub fn init(shell: &str, config: &Config) -> (r: Option<String>)
    ensures
        r matches Some(s) ==> (shell@ == "bash"@ && s@ == generate_spec(shell@, config@.enabled_commands, "${PIPESTATUS[0]}"@))
            || (shell@ == "zsh"@ && s@ == generate_spec(shell@, config@.enabled_commands, "${pipestatus[1]}"@)),
        r is None <==> !(shell@ == "bash"@ || shell@ == "zsh"@),
{
    let s = chars_of(shell);
    if crate::text::eq_str(s.as_slice(), "bash") {
        Some(generate(shell, config, "${PIPESTATUS[0]}"))
    } else if crate::text::eq_str(s.as_slice(), "zsh") {
        Some(generate(shell, config, "${pipestatus[1]}"))
    } else {
        None
    }
}

} // verus!

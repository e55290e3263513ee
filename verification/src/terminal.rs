//! What the terminal supports, decided from the profile in the settings and
//! the environment variables the program was started with.
use vstd::prelude::*;

use crate::text::{chars_of, contains_seq, eq_str, lower};

verus! {

/// The environment variables that decide how output looks (`None` where a
/// variable is unset or not valid Unicode), and the terminal's width where
/// standard output is a terminal.
pub struct Environment {
    pub no_color: bool,
    pub restty_disable: Option<String>,
    pub term: Option<String>,
    pub colorterm: Option<String>,
    pub lc_all: Option<String>,
    pub lc_ctype: Option<String>,
    pub lang: Option<String>,
    pub terminal_width: Option<usize>,
}

pub struct EnvironmentV {
    pub no_color: bool,
    pub restty_disable: Option<Seq<char>>,
    pub term: Option<Seq<char>>,
    pub colorterm: Option<Seq<char>>,
    pub lc_all: Option<Seq<char>>,
    pub lc_ctype: Option<Seq<char>>,
    pub lang: Option<Seq<char>>,
    pub terminal_width: Option<usize>,
}

impl View for Environment {
    type V = EnvironmentV;

    open spec fn view(&self) -> EnvironmentV {
        EnvironmentV {
            no_color: self.no_color,
            restty_disable: crate::model::opt_view(self.restty_disable),
            term: crate::model::opt_view(self.term),
            colorterm: crate::model::opt_view(self.colorterm),
            lc_all: crate::model::opt_view(self.lc_all),
            lc_ctype: crate::model::opt_view(self.lc_ctype),
            lang: crate::model::opt_view(self.lang),
            terminal_width: self.terminal_width,
        }
    }
}

/// Formatting is off when `NO_COLOR` is set or `RESTTY_DISABLE` is `1`.
pub open spec fn disabled_spec(e: EnvironmentV) -> bool {
    e.no_color || e.restty_disable == Some("1"@)
}

/// The locale: `LC_ALL`, else `LC_CTYPE`, else `LANG`.
pub open spec fn locale_of(e: EnvironmentV) -> Option<Seq<char>> {
    if e.lc_all is Some {
        e.lc_all
    } else if e.lc_ctype is Some {
        e.lc_ctype
    } else {
        e.lang
    }
}

/// Box-drawing characters are used unless the profile is `ascii`, or, for a
/// profile that does not say, the terminal is `dumb` or the locale is not
/// UTF-8.
pub open spec fn unicode_spec(profile: Seq<char>, e: EnvironmentV) -> bool {
    if profile == "ascii"@ {
        false
    } else if profile == "unicode"@ || profile == "truecolor"@ || profile == "ansi16"@ {
        true
    } else if e.term == Some("dumb"@) {
        false
    } else {
        match locale_of(e) {
            Some(l) => contains_seq(lower(l), "utf-8"@) || contains_seq(lower(l), "utf8"@),
            None => true,
        }
    }
}

pub open spec fn or_empty_text(o: Option<Seq<char>>) -> Seq<char> {
    match o {
        Some(v) => v,
        None => seq![],
    }
}

/// 24-bit colors are used for the `truecolor` profile, never for `ascii`,
/// `ansi16` or `unicode`, and otherwise when `COLORTERM` is `truecolor` or
/// `24bit` or `TERM` mentions `truecolor` or `direct`.
pub open spec fn truecolor_spec(profile: Seq<char>, e: EnvironmentV) -> bool {
    if profile == "truecolor"@ {
        true
    } else if profile == "ascii"@ || profile == "ansi16"@ || profile == "unicode"@ {
        false
    } else {
        let colorterm = lower(or_empty_text(e.colorterm));
        let term = lower(or_empty_text(e.term));
        colorterm == "truecolor"@ || colorterm == "24bit"@ || contains_seq(term, "truecolor"@) || contains_seq(
            term,
            "direct"@,
        )
    }
}

fn opt_is(o: &Option<String>, v: &str) -> (r: bool)
    ensures
        r == (crate::model::opt_view(*o) == Some(v@)),
{
    match o {
        Some(s) => {
            let c = chars_of(s.as_str());
            eq_str(c.as_slice(), v)
        },
        None => false,
    }
}

fn lowered(o: &Option<String>) -> (r: Vec<char>)
    ensures
        r@ == lower(or_empty_text(crate::model::opt_view(*o))),
{
    match o {
        Some(s) => {
            let c = chars_of(s.as_str());
            crate::text::to_lower(c.as_slice())
        },
        None => {
            let v: Vec<char> = Vec::new();
            assert(v@ =~= lower(seq![]));
            v
        },
    }
}

/// Whether formatting is switched off (`NO_COLOR`, `RESTTY_DISABLE=1`).
pub fn formatting_disabled(env: &Environment) -> (r: bool)
    ensures
        r == disabled_spec(env@),
{
    env.no_color || opt_is(&env.restty_disable, "1")
}

/// Whether the terminal shows box-drawing characters.
pub fn supports_unicode(profile: &str, env: &Environment) -> (r: bool)
    ensures
        r == unicode_spec(profile@, env@),
{
    let p = chars_of(profile);
    if eq_str(p.as_slice(), "ascii") {
        return false;
    }
    if eq_str(p.as_slice(), "unicode") || eq_str(p.as_slice(), "truecolor") || eq_str(p.as_slice(), "ansi16") {
        return true;
    }
    if opt_is(&env.term, "dumb") {
        return false;
    }
    let locale = if env.lc_all.is_some() {
        &env.lc_all
    } else if env.lc_ctype.is_some() {
        &env.lc_ctype
    } else {
        &env.lang
    };
    if locale.is_none() {
        return true;
    }
    let l = lowered(locale);
    crate::text::contains_str(l.as_slice(), "utf-8") || crate::text::contains_str(l.as_slice(), "utf8")
}

/// Whether the terminal shows 24-bit colors.
pub fn supports_truecolor(profile: &str, env: &Environment) -> (r: bool)
    ensures
        r == truecolor_spec(profile@, env@),
{
    let p = chars_of(profile);
    if eq_str(p.as_slice(), "truecolor") {
        return true;
    }
    if eq_str(p.as_slice(), "ascii") || eq_str(p.as_slice(), "ansi16") || eq_str(p.as_slice(), "unicode") {
        return false;
    }
    let colorterm = lowered(&env.colorterm);
    let term = lowered(&env.term);
    eq_str(colorterm.as_slice(), "truecolor") || eq_str(colorterm.as_slice(), "24bit") || crate::text::contains_str(
        term.as_slice(),
        "truecolor",
    ) || crate::text::contains_str(term.as_slice(), "direct")
}

} // verus!

//! What the progress output decides, as opposed to how it is drawn:
//! verbosity gating, color configuration, the style table parsed from the
//! environment, the framed status line, and the final summary line.
//!
//! Writing to a terminal (and talking to the terminfo database) stays in
//! the embedding program; it asks these functions what to print.

use vstd::prelude::*;
use crate::strutil::{
    all_digits, dec_digits, dec_val, parse_u32, spec_pad2, spec_split, str_split_char,
    str_starts_with, u64_pad2, u64_to_dec, unsigned_digits,
};

verus! {

pub const BLACK: u32 = 0;

pub const RED: u32 = 1;

pub const GREEN: u32 = 2;

pub const YELLOW: u32 = 3;

pub const CYAN: u32 = 6;

/// How much the shell says.
#[derive(Clone, Copy, PartialEq, Eq, Debug, Structural)]
pub enum Verbosity {
    Verbose,
    Normal,
    Quiet,
}

impl Verbosity {
    /// Ordinary status lines are printed unless the shell is quiet.
    pub open spec fn spec_prints_status(&self) -> bool {
        !(self is Quiet)
    }

    #[verifier::when_used_as_spec(spec_prints_status)]
    pub fn prints_status(&self) -> (r: bool)
        ensures
            r == self.spec_prints_status(),
    {
        !matches!(self, Verbosity::Quiet)
    }

    /// Verbose-only lines are printed only on a verbose shell.
    pub open spec fn spec_is_verbose(&self) -> bool {
        self is Verbose
    }

    #[verifier::when_used_as_spec(spec_is_verbose)]
    pub fn is_verbose(&self) -> (r: bool)
        ensures
            r == self.spec_is_verbose(),
    {
        matches!(self, Verbosity::Verbose)
    }

    /// Concise lines are printed on every shell but a verbose one.
    pub open spec fn spec_is_concise(&self) -> bool {
        !(self is Verbose)
    }

    #[verifier::when_used_as_spec(spec_is_concise)]
    pub fn is_concise(&self) -> (r: bool)
        ensures
            r == self.spec_is_concise(),
    {
        !matches!(self, Verbosity::Verbose)
    }
}

/// When color output is requested.
#[derive(Clone, Copy, PartialEq, Eq, Debug, Structural)]
pub enum ColorConfig {
    Auto,
    Always,
    Never,
}

impl ColorConfig {
    /// The configuration's name, as the command line spells it.
    pub fn name(&self) -> (r: &'static str)
        ensures
            self is Auto ==> r@ == "auto"@,
            self is Always ==> r@ == "always"@,
            self is Never ==> r@ == "never"@,
    {
        match self {
            ColorConfig::Auto => "auto",
            ColorConfig::Always => "always",
            ColorConfig::Never => "never",
        }
    }
}

/// Parses a `--color` argument: absent means automatic, anything but the
/// three known words is rejected with the offending argument.
pub fn color_config_from_str(arg: Option<&str>) -> (r: Result<ColorConfig, String>)
    ensures
        match arg {
            None => r == Result::<ColorConfig, String>::Ok(ColorConfig::Auto),
            Some(a) => {
                if a@ == "auto"@ {
                    r == Result::<ColorConfig, String>::Ok(ColorConfig::Auto)
                } else if a@ == "always"@ {
                    r == Result::<ColorConfig, String>::Ok(ColorConfig::Always)
                } else if a@ == "never"@ {
                    r == Result::<ColorConfig, String>::Ok(ColorConfig::Never)
                } else {
                    r matches Err(m) && m@ == "argument for --color must be auto, always, or never, but found `"@
                        + a@ + "`"@
                }
            },
        },
{
    match arg {
        None => Ok(ColorConfig::Auto),
        Some(a) => {
            if crate::strutil::str_eq(a, "auto") {
                Ok(ColorConfig::Auto)
            } else if crate::strutil::str_eq(a, "always") {
                Ok(ColorConfig::Always)
            } else if crate::strutil::str_eq(a, "never") {
                Ok(ColorConfig::Never)
            } else {
                let mut m = "argument for --color must be auto, always, or never, but found `"
                    .to_owned();
                m.append(a);
                m.append("`");
                proof {
                    assert(m@ =~= "argument for --color must be auto, always, or never, but found `"@
                        + a@ + "`"@);
                }
                Err(m)
            }
        },
    }
}

/// How one shell writes: its color configuration and whether it talks to a
/// terminal.
#[derive(Clone, Copy, PartialEq, Eq, Debug, Structural)]
pub struct ShellConfig {
    pub color_config: ColorConfig,
    pub tty: bool,
}

impl ShellConfig {
    /// Whether output is colored: on a terminal when automatic, always
    /// when forced, never otherwise.
    pub open spec fn spec_colored(&self) -> bool {
        self.tty && self.color_config is Auto || self.color_config is Always
    }

    #[verifier::when_used_as_spec(spec_colored)]
    pub fn colored(&self) -> (r: bool)
        ensures
            r == self.spec_colored(),
    {
        self.tty && matches!(self.color_config, ColorConfig::Auto) || matches!(
            self.color_config,
            ColorConfig::Always,
        )
    }
}

/// A terminal attribute a style may ask for.
#[derive(Clone, Copy, PartialEq, Eq, Debug, Structural)]
pub enum Attr {
    Bold,
    Italic,
    Underline,
    Blink,
}

/// A color plus an optional attribute.
#[derive(Clone, Copy, PartialEq, Eq, Debug, Structural)]
pub struct Style {
    pub color: u32,
    pub attr: Option<Attr>,
}

impl Default for Style {
    /// The default style: black, no attribute.
    fn default() -> (r: Self)
        ensures
            r.color == BLACK,
            r.attr is None,
    {
        Style { color: BLACK, attr: None }
    }
}

/// A piece of a style string parses when it is a decimal number in range,
/// with at most an optional leading plus sign.
pub open spec fn code_ok(p: Seq<char>) -> bool {
    let d = unsigned_digits(p);
    d.len() > 0 && all_digits(d) && dec_val(d) <= u32::MAX as nat
}

/// The first code of a style string adjusts the attribute, or the color
/// for the color-range codes; anything else is ignored.
pub open spec fn spec_apply_first(color: u32, attr: Option<Attr>, v: nat) -> Style {
    if v == 0 && attr == Some(Attr::Bold) {
        Style { color, attr: None }
    } else if v == 1 {
        Style { color, attr: Some(Attr::Bold) }
    } else if v == 3 {
        Style { color, attr: Some(Attr::Italic) }
    } else if v == 4 {
        Style { color, attr: Some(Attr::Underline) }
    } else if v == 5 || v == 6 {
        Style { color, attr: Some(Attr::Blink) }
    } else if 30 <= v <= 39 {
        Style { color: v as u32, attr }
    } else {
        Style { color, attr }
    }
}

/// The style encoded by a `code[;color]` configuration string, starting
/// from the given defaults.
pub open spec fn spec_style_from_str(config: Seq<char>, color: u32, attr: Option<Attr>) -> Style {
    let parts = spec_split(config, ';');
    let s1 = if parts.len() > 0 && code_ok(parts[0]) {
        spec_apply_first(color, attr, dec_val(unsigned_digits(parts[0])))
    } else {
        Style { color, attr }
    };
    if parts.len() > 1 && code_ok(parts[1]) {
        Style { color: dec_val(unsigned_digits(parts[1])) as u32, attr: s1.attr }
    } else {
        s1
    }
}

impl Style {
    /// Parses a `code[;color]` style configuration string, keeping the
    /// given defaults for everything it does not set.
    pub fn from_str(config: &str, color: u32, attr: Option<Attr>) -> (r: Style)
        ensures
            r == spec_style_from_str(config@, color, attr),
    {
        let parts = str_split_char(config, ';');
        let ghost pv = parts@.map_values(|p: String| p@);
        let mut color = color;
        let mut attr = attr;
        if parts.len() > 0 {
            proof {
                assert(parts@[0]@ == pv[0]);
            }
            if let Some(v) = parse_u32(parts[0].as_str()) {
                if v == 0 && attr == Some(Attr::Bold) {
                    attr = None;
                } else if v == 1 {
                    attr = Some(Attr::Bold);
                } else if v == 3 {
                    attr = Some(Attr::Italic);
                } else if v == 4 {
                    attr = Some(Attr::Underline);
                } else if v == 5 || v == 6 {
                    attr = Some(Attr::Blink);
                } else if 30 <= v && v <= 39 {
                    color = v;
                }
            }
        }
        if parts.len() > 1 {
            proof {
                assert(parts@[1]@ == pv[1]);
            }
            if let Some(v) = parse_u32(parts[1].as_str()) {
                color = v;
            }
        }
        Style { color, attr }
    }
}

/// The styles of the different line classes.
#[derive(Clone, Copy, PartialEq, Eq, Debug, Structural)]
pub struct Styles {
    pub status: Style,
    pub warning: Style,
    pub error: Style,
    pub default: Style,
    pub blocked: Style,
}

impl Default for Styles {
    /// Status green, warnings yellow, errors red, blocked cyan, all bold;
    /// everything else plain.
    fn default() -> (r: Self)
        ensures
            r == spec_default_styles(),
    {
        Styles {
            status: Style { color: GREEN, attr: Some(Attr::Bold) },
            warning: Style { color: YELLOW, attr: Some(Attr::Bold) },
            error: Style { color: RED, attr: Some(Attr::Bold) },
            default: Style { color: BLACK, attr: None },
            blocked: Style { color: CYAN, attr: Some(Attr::Bold) },
        }
    }
}

pub open spec fn spec_default_styles() -> Styles {
    Styles {
        status: Style { color: GREEN, attr: Some(Attr::Bold) },
        warning: Style { color: YELLOW, attr: Some(Attr::Bold) },
        error: Style { color: RED, attr: Some(Attr::Bold) },
        default: Style { color: BLACK, attr: None },
        blocked: Style { color: CYAN, attr: Some(Attr::Bold) },
    }
}

/// One `name=value` piece of the style environment variable overrides the
/// named style; unknown pieces are ignored.
pub open spec fn spec_apply_style_part(st: Styles, p: Seq<char>) -> Styles {
    if "status="@.len() <= p.len() && p.subrange(0, 7) == "status="@ {
        Styles {
            status: spec_style_from_str(p.skip(7), st.status.color, st.status.attr),
            ..st
        }
    } else if "warning="@.len() <= p.len() && p.subrange(0, 8) == "warning="@ {
        Styles {
            warning: spec_style_from_str(p.skip(8), st.warning.color, st.warning.attr),
            ..st
        }
    } else if "error="@.len() <= p.len() && p.subrange(0, 6) == "error="@ {
        Styles { error: spec_style_from_str(p.skip(6), st.error.color, st.error.attr), ..st }
    } else if "default="@.len() <= p.len() && p.subrange(0, 8) == "default="@ {
        Styles {
            default: spec_style_from_str(p.skip(8), st.default.color, st.default.attr),
            ..st
        }
    } else if "blocked="@.len() <= p.len() && p.subrange(0, 8) == "blocked="@ {
        Styles {
            blocked: spec_style_from_str(p.skip(8), st.blocked.color, st.blocked.attr),
            ..st
        }
    } else {
        st
    }
}

pub open spec fn spec_apply_style_parts(st: Styles, parts: Seq<Seq<char>>) -> Styles
    decreases parts.len(),
{
    if parts.len() == 0 {
        st
    } else {
        spec_apply_style_parts(spec_apply_style_part(st, parts[0]), parts.drop_first())
    }
}

impl Styles {
    /// The styles after applying the colon-separated overrides of the
    /// style environment variable (when it is set) to the defaults.
    #[verifier::loop_isolation(false)]
    pub fn from_env(config: Option<&str>) -> (r: Styles)
        ensures
            r == match config {
                Some(c) => spec_apply_style_parts(spec_default_styles(), spec_split(c@, ':')),
                None => spec_default_styles(),
            },
    {
        let mut st = Styles::default();
        let c = match config {
            Some(c) => c,
            None => {
                return st;
            },
        };
        let parts = str_split_char(c, ':');
        let ghost pv = parts@.map_values(|p: String| p@);
        proof {
            reveal_strlit("status=");
            reveal_strlit("warning=");
            reveal_strlit("error=");
            reveal_strlit("default=");
            reveal_strlit("blocked=");
            assert(pv.skip(0) =~= pv);
        }
        let mut i: usize = 0;
        while i < parts.len()
            invariant
                i <= parts@.len(),
                parts@.map_values(|p: String| p@) == pv,
                spec_apply_style_parts(spec_default_styles(), pv) == spec_apply_style_parts(
                    st,
                    pv.skip(i as int),
                ),
            decreases parts@.len() - i,
        {
            let p = parts[i].as_str();
            proof {
                assert(p@ == pv[i as int]);
                assert(pv.skip(i as int)[0] == pv[i as int]);
                assert(pv.skip(i as int).drop_first() =~= pv.skip(i + 1int));
            }
            let plen = p.unicode_len();
            if str_starts_with(p, "status=") {
                proof {
                    reveal_strlit("status=");
                }
                let rest = p.substring_char(7, plen);
                st.status = Style::from_str(rest, st.status.color, st.status.attr);
                proof {
                    assert(rest@ =~= p@.skip(7));
                }
            } else if str_starts_with(p, "warning=") {
                proof {
                    reveal_strlit("warning=");
                }
                let rest = p.substring_char(8, plen);
                st.warning = Style::from_str(rest, st.warning.color, st.warning.attr);
                proof {
                    assert(rest@ =~= p@.skip(8));
                }
            } else if str_starts_with(p, "error=") {
                proof {
                    reveal_strlit("error=");
                }
                let rest = p.substring_char(6, plen);
                st.error = Style::from_str(rest, st.error.color, st.error.attr);
                proof {
                    assert(rest@ =~= p@.skip(6));
                }
            } else if str_starts_with(p, "default=") {
                proof {
                    reveal_strlit("default=");
                }
                let rest = p.substring_char(8, plen);
                st.default = Style::from_str(rest, st.default.color, st.default.attr);
                proof {
                    assert(rest@ =~= p@.skip(8));
                }
            } else if str_starts_with(p, "blocked=") {
                proof {
                    reveal_strlit("blocked=");
                }
                let rest = p.substring_char(8, plen);
                st.blocked = Style::from_str(rest, st.blocked.color, st.blocked.attr);
                proof {
                    assert(rest@ =~= p@.skip(8));
                }
            } else {
            }
            i = i + 1;
        }
        proof {
            assert(pv.skip(pv.len() as int).len() == 0);
        }
        st
    }
}

/// `n` spaces.
pub open spec fn spaces(n: nat) -> Seq<char>
    decreases n,
{
    if n == 0 {
        Seq::empty()
    } else {
        spaces((n - 1) as nat).push(' ')
    }
}

/// A framed status line: the status right-justified to twelve columns,
/// one space, then the message.
pub open spec fn spec_status_line(status: Seq<char>, message: Seq<char>) -> Seq<char> {
    (if status.len() < 12 {
        spaces((12 - status.len()) as nat) + status
    } else {
        status
    }) + seq![' '] + message
}

/// Renders a framed status line.
#[verifier::loop_isolation(false)]
pub fn format_status_line(status: &str, message: &str) -> (r: String)
    ensures
        r@ == spec_status_line(status@, message@),
{
    let mut out = String::new();
    let sl = status.unicode_len();
    let mut pad: usize = 0;
    if sl < 12 {
        pad = 12 - sl;
    }
    let mut i: usize = 0;
    proof {
        reveal_strlit(" ");
    }
    while i < pad
        invariant
            i <= pad,
            out@ == spaces(i as nat),
        decreases pad - i,
    {
        out.append(" ");
        i = i + 1;
    }
    out.append(status);
    out.append(" ");
    out.append(message);
    proof {
        if status@.len() < 12 {
            assert(out@ =~= spaces((12 - status@.len()) as nat) + status@ + seq![' ']
                + message@);
            assert(spec_status_line(status@, message@) =~= spaces(
                (12 - status@.len()) as nat,
            ) + status@ + seq![' '] + message@);
        } else {
            assert(out@ =~= status@ + seq![' '] + message@);
            assert(spec_status_line(status@, message@) =~= status@ + seq![' '] + message@);
        }
    }
    out
}

/// The elapsed-time piece of the summary: minutes and padded seconds from
/// one minute up, else seconds and centiseconds.
pub open spec fn spec_elapsed(secs: nat, subsec_nanos: nat) -> Seq<char> {
    if secs >= 60 {
        dec_digits(secs / 60) + "m "@ + spec_pad2(secs % 60) + "s"@
    } else {
        dec_digits(secs) + "."@ + spec_pad2(subsec_nanos / 10000000) + "s"@
    }
}

/// The whole summary message: build type, optimization descriptor, and
/// elapsed wall-clock time.
pub open spec fn spec_finished_message(
    is_release: bool,
    opt_level_is_zero: bool,
    debuginfo: bool,
    secs: nat,
    subsec_nanos: nat,
) -> Seq<char> {
    (if is_release {
        "release"@
    } else {
        "dev"@
    }) + " ["@ + (if opt_level_is_zero {
        "unoptimized"@
    } else {
        "optimized"@
    }) + (if debuginfo {
        " + debuginfo"@
    } else {
        Seq::empty()
    }) + "] target(s) in "@ + spec_elapsed(secs, subsec_nanos)
}

/// Builds the summary line printed when a build finishes.
#[verifier::spinoff_prover]
pub fn finished_message(
    is_release: bool,
    opt_level_is_zero: bool,
    debuginfo: bool,
    secs: u64,
    subsec_nanos: u32,
) -> (r: String)
    requires
        subsec_nanos < 1000000000,
    ensures
        r@ == spec_finished_message(
            is_release,
            opt_level_is_zero,
            debuginfo,
            secs as nat,
            subsec_nanos as nat,
        ),
{
    proof {
        reveal_strlit("release");
        reveal_strlit("dev");
        reveal_strlit(" [");
        reveal_strlit("unoptimized");
        reveal_strlit("optimized");
        reveal_strlit(" + debuginfo");
        reveal_strlit("] target(s) in ");
        reveal_strlit("m ");
        reveal_strlit(".");
        reveal_strlit("s");
    }
    let mut out: String = if is_release {
        "release".to_owned()
    } else {
        "dev".to_owned()
    };
    out.append(" [");
    if opt_level_is_zero {
        out.append("unoptimized");
    } else {
        out.append("optimized");
    }
    if debuginfo {
        out.append(" + debuginfo");
    }
    out.append("] target(s) in ");
    if secs >= 60 {
        let m = u64_to_dec(secs / 60);
        out.append(m.as_str());
        out.append("m ");
        let sec = u64_pad2(secs % 60);
        out.append(sec.as_str());
        out.append("s");
    } else {
        let m = u64_to_dec(secs);
        out.append(m.as_str());
        out.append(".");
        let cs = u64_pad2((subsec_nanos / 10000000) as u64);
        out.append(cs.as_str());
        out.append("s");
    }
    proof {
        assert(out@ =~= spec_finished_message(
            is_release,
            opt_level_is_zero,
            debuginfo,
            secs as nat,
            subsec_nanos as nat,
        ));
    }
    out
}

} // verus!

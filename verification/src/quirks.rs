//! The layer for terminals that answer the capability queries correctly and then misbehave.
use vstd::prelude::*;
use vstd::string::StringSliceAdditionalSpecFns;
use crate::caps::Capabilities;
use crate::style::{ATTRS, BLINK, CONCEAL, OVERLINE};

verus! {

/// Which escape spells an underline colour.
#[derive(Clone, Copy, PartialEq, Eq, Debug, Structural)]
pub enum Underlines {
    /// `SGR 58:2::r:g:b`, the colon-separated ITU-T form.
    Standard,
    /// `SGR 58;2;r;g;b`, the only form ConPTY parses.
    ConPty,
}

impl Underlines {
    /// The word a capability report prints for this spelling.
    pub fn word(self) -> (w: &'static str)
        ensures
            self == Underlines::Standard ==> w@ == "standard"@,
            self == Underlines::ConPty ==> w@ == "conpty"@,
    {
        match self {
            Underlines::Standard => "standard",
            Underlines::ConPty => "conpty",
        }
    }
}

/// How long a synchronised-output block may stay open before the terminal force-flushes it.
#[derive(Clone, Copy, PartialEq, Eq, Debug, Structural)]
pub struct SyncFlush {
    /// Milliseconds a block may stay open.
    pub after_ms: u32,
    /// Bytes a block may carry, or `None` where the terminal states no limit.
    pub after_bytes: Option<usize>,
}


/// The environment variables a terminal that answers no query can still be recognised by.
pub struct Env {
    pub alacritty: Option<String>,
    pub termux: Option<String>,
    pub term_program: Option<String>,
    pub terminal_emulator: Option<String>,
}

/// What one terminal needs corrected after detection: facts no query answers.
#[derive(Clone, Copy, PartialEq, Eq, Debug)]
pub struct Quirks {
    /// The name a capability report prints where detection found none of its own.
    pub name: Option<&'static str>,
    pub legacy_sgr: bool,
    pub underlines: Underlines,
    /// Attribute flags the terminal does not render, in the style word's own positions.
    pub attrs_dropped: u64,
    pub hyperlinks: Option<bool>,
    pub sync_flush: Option<SyncFlush>,
}

/// No correction at all: what every terminal this table does not name gets.
pub open spec fn no_quirks() -> Quirks {
    Quirks {
        name: None,
        legacy_sgr: false,
        underlines: Underlines::Standard,
        attrs_dropped: 0,
        hyperlinks: None,
        sync_flush: None,
    }
}

impl Default for Quirks {
    fn default() -> (q: Quirks)
        ensures
            q == no_quirks(),
    {
        Quirks {
            name: None,
            legacy_sgr: false,
            underlines: Underlines::Standard,
            attrs_dropped: 0,
            hyperlinks: None,
            sync_flush: None,
        }
    }
}

/// Whether `s` begins with `prefix`.
pub open spec fn has_prefix(s: Seq<u8>, prefix: Seq<u8>) -> bool {
    prefix.len() <= s.len() && s.subrange(0, prefix.len() as int) == prefix
}

/// Whether the bytes of `s` begin with the bytes of `prefix`.
pub fn starts_with(s: &str, prefix: &str) -> (b: bool)
    ensures
        b == has_prefix(s.spec_bytes(), prefix.spec_bytes()),
{
    let a = s.as_bytes();
    let p = prefix.as_bytes();
    if p.len() > a.len() {
        return false;
    }
    let mut i: usize = 0;
    while i < p.len()
        invariant
            a@ == s.spec_bytes(),
            p@ == prefix.spec_bytes(),
            p@.len() <= a@.len(),
            0 <= i <= p@.len(),
            a@.subrange(0, i as int) == p@.subrange(0, i as int),
        decreases p@.len() - i,
    {
        if a[i] != p[i] {
            assert(a@.subrange(0, p@.len() as int)[i as int] != p@[i as int]);
            return false;
        }
        i = i + 1;
        assert(a@.subrange(0, i as int) =~= a@.subrange(0, (i - 1) as int).push(a@[i - 1]));
        assert(p@.subrange(0, i as int) =~= p@.subrange(0, (i - 1) as int).push(p@[i - 1]));
    }
    assert(p@.subrange(0, p@.len() as int) =~= p@);
    true
}

/// Whether an environment variable is set and begins with `prefix`.
fn var_starts_with(v: &Option<String>, prefix: &str) -> (b: bool)
    ensures
        b == (v matches Some(s) && has_prefix(vstd::utf8::encode_utf8(s@), prefix.spec_bytes())),
{
    match v {
        Some(s) => starts_with(s.as_str(), prefix),
        None => false,
    }
}

/// Whether an environment variable is set to exactly `word`.
fn var_is(v: &Option<String>, word: &str) -> (b: bool)
    ensures
        b == (v matches Some(s) && vstd::utf8::encode_utf8(s@) == word.spec_bytes()),
{
    match v {
        Some(s) => {
            let a = s.as_str();
            let b = starts_with(a, word) && a.as_bytes().len() == word.as_bytes().len();
            proof {
                assert(a.spec_bytes() == vstd::utf8::encode_utf8(s@));
                assert(a.spec_bytes().subrange(0, a.spec_bytes().len() as int) =~= a.spec_bytes());
                if a.spec_bytes() == word.spec_bytes() {
                    assert(has_prefix(a.spec_bytes(), word.spec_bytes()));
                }
            }
            b
        },
        None => false,
    }
}


/// Whether an optional value begins with `prefix`.
pub open spec fn opt_prefix(v: Option<Seq<u8>>, prefix: Seq<u8>) -> bool {
    v matches Some(s) && has_prefix(s, prefix)
}

impl Quirks {
    /// The quirks of the terminal a version string (XTVERSION's answer) and the environment
    /// identify, in the order the table is consulted: tmux, kitty and iTerm2 by version, then
    /// Alacritty, Termux, VS Code and the JetBrains terminals by environment, then ConPTY, which is
    /// what a Windows console that answered no version is.
    pub fn lookup(version: Option<&str>, env: &Env, windows: bool) -> (q: Quirks)
        ensures
            q == if opt_prefix(match version { Some(v) => Some(v.spec_bytes()), None => None }, "tmux ".spec_bytes()) {
                Quirks { attrs_dropped: OVERLINE, ..no_quirks() }
            } else if opt_prefix(match version { Some(v) => Some(v.spec_bytes()), None => None }, "kitty(".spec_bytes()) {
                Quirks { attrs_dropped: CONCEAL | OVERLINE, ..no_quirks() }
            } else if opt_prefix(match version { Some(v) => Some(v.spec_bytes()), None => None }, "iTerm2 ".spec_bytes()) {
                Quirks { attrs_dropped: OVERLINE, ..no_quirks() }
            } else if env.alacritty is Some {
                Quirks { name: Some("alacritty"), attrs_dropped: BLINK | OVERLINE, ..no_quirks() }
            } else if env.termux is Some {
                Quirks { name: Some("termux"), legacy_sgr: true, ..no_quirks() }
            } else if env.term_program matches Some(s) && vstd::utf8::encode_utf8(s@) == "vscode".spec_bytes() {
                Quirks { name: Some("vscode"), legacy_sgr: true, ..no_quirks() }
            } else if env.terminal_emulator matches Some(s) && has_prefix(vstd::utf8::encode_utf8(s@), "JetBrains-".spec_bytes()) {
                Quirks { name: Some("jetbrains"), legacy_sgr: true, ..no_quirks() }
            } else if windows && version is None {
                Quirks { name: Some("conpty"), legacy_sgr: true, underlines: Underlines::ConPty, ..no_quirks() }
            } else {
                no_quirks()
            },
    {
        let none = Quirks::default();
        if let Some(v) = version {
            if starts_with(v, "tmux ") {
                return Quirks { attrs_dropped: OVERLINE, ..none };
            }
            if starts_with(v, "kitty(") {
                return Quirks { attrs_dropped: CONCEAL | OVERLINE, ..none };
            }
            if starts_with(v, "iTerm2 ") {
                return Quirks { attrs_dropped: OVERLINE, ..none };
            }
        }
        if env.alacritty.is_some() {
            return Quirks { name: Some("alacritty"), attrs_dropped: BLINK | OVERLINE, ..none };
        }
        if env.termux.is_some() {
            return Quirks { name: Some("termux"), legacy_sgr: true, ..none };
        }
        if var_is(&env.term_program, "vscode") {
            return Quirks { name: Some("vscode"), legacy_sgr: true, ..none };
        }
        if var_starts_with(&env.terminal_emulator, "JetBrains-") {
            return Quirks { name: Some("jetbrains"), legacy_sgr: true, ..none };
        }
        if windows && version.is_none() {
            return Quirks { name: Some("conpty"), legacy_sgr: true, underlines: Underlines::ConPty, ..none };
        }
        none
    }

    /// Lay these corrections over what detection found. A correction only ever adds: an
    /// attribute the terminal drops stays dropped, and an identity detection found is kept. What
    /// may be dropped is the eight flags: an underline style is not a bit to clear, and a
    /// correction that names one is refused.
    pub fn apply(self, caps: &mut Capabilities)
        requires
            self.attrs_dropped & !ATTRS == 0,
        ensures
            final(caps).private.legacy_sgr == (old(caps).private.legacy_sgr || self.legacy_sgr),
            final(caps).private.underlines == if self.underlines != Underlines::Standard {
                self.underlines
            } else {
                old(caps).private.underlines
            },
            final(caps).private.attrs_dropped == old(caps).private.attrs_dropped | self.attrs_dropped,
            final(caps).hyperlinks == match self.hyperlinks {
                Some(h) => h,
                None => old(caps).hyperlinks,
            },
            final(caps).private.sync_flush == match self.sync_flush {
                Some(f) => Some(f),
                None => old(caps).private.sync_flush,
            },
            old(caps).private.identity is Some ==> final(caps).private.identity == old(caps).private.identity,
            old(caps).private.identity is None ==> match self.name {
                Some(n) => final(caps).private.identity matches Some(s) && s@ == n@,
                None => final(caps).private.identity is None,
            },
            final(caps).colors == old(caps).colors,
            final(caps).sync == old(caps).sync,
            final(caps).palette == old(caps).palette,
            final(caps).default_fg == old(caps).default_fg,
            final(caps).default_bg == old(caps).default_bg,
    {
        if self.legacy_sgr {
            caps.private.legacy_sgr = true;
        }
        if self.underlines != Underlines::Standard {
            caps.private.underlines = self.underlines;
        }
        caps.private.attrs_dropped = caps.private.attrs_dropped | self.attrs_dropped;
        if let Some(hyperlinks) = self.hyperlinks {
            caps.hyperlinks = hyperlinks;
        }
        if let Some(flush) = self.sync_flush {
            caps.private.sync_flush = Some(flush);
        }
        if caps.private.identity.is_none() {
            caps.private.identity = match self.name {
                Some(n) => Some(n.to_owned()),
                None => None,
            };
        }
    }
}

} // verus!

//! What the terminal at the other end said it can do, as far as the cell-level logic reads it.
use vstd::prelude::*;
use crate::style::Rgb;
use crate::quirks::{SyncFlush, Underlines};

verus! {

/// How many colours the terminal can express.
#[derive(Clone, Copy, PartialEq, Eq, Debug, Structural)]
pub enum ColorDepth {
    /// No colour on the wire at all: every colour is the terminal's own.
    NoColor,
    Ansi16,
    Indexed256,
    TrueColor,
}

/// The capability facts no query answers and the quirk table lays over what detection found.
pub struct Private {
    /// The pre-ITU-T semicolon spelling of SGR 38/48.
    pub legacy_sgr: bool,
    /// Which escape spells an underline colour.
    pub underlines: Underlines,
    /// Attribute flags the terminal does not render, in the style word's own positions.
    pub attrs_dropped: u64,
    /// The force-flush limits of synchronised output.
    pub sync_flush: Option<SyncFlush>,
    /// The name a report prints when detection found none of its own.
    pub identity: Option<String>,
}

/// What the terminal answered.
pub struct Capabilities {
    pub colors: ColorDepth,
    /// OSC 10's answer: the terminal's own foreground.
    pub default_fg: Option<Rgb>,
    /// OSC 11's answer: the terminal's own background.
    pub default_bg: Option<Rgb>,
    /// OSC 4's answers for the low sixteen.
    pub palette: [Option<Rgb>; 16],
    /// Whether OSC 8 reaches the wire.
    pub hyperlinks: bool,
    /// Whether the terminal has synchronised output (mode 2026).
    pub sync: bool,
    pub private: Private,
}

impl Capabilities {
    /// A terminal at `colors` that answered OSC 10 and OSC 11 with `fg` and `bg` (or stayed silent)
    /// and answered nothing else.
    pub fn answering(colors: ColorDepth, fg: Option<Rgb>, bg: Option<Rgb>) -> (c: Capabilities)
        ensures
            c.colors == colors,
            c.default_fg == fg,
            c.default_bg == bg,
            forall|i: int| 0 <= i < 16 ==> c.palette@[i] is None,
            !c.hyperlinks,
            !c.sync,
            !c.private.legacy_sgr,
            c.private.underlines == Underlines::Standard,
            c.private.attrs_dropped == 0,
    {
        Capabilities {
            colors,
            default_fg: fg,
            default_bg: bg,
            palette: [None; 16],
            hyperlinks: false,
            sync: false,
            private: Private {
                legacy_sgr: false,
                underlines: Underlines::Standard,
                attrs_dropped: 0,
                sync_flush: None,
                identity: None,
            },
        }
    }

    /// A truecolor terminal whose every OSC 4 answer is `entry`.
    pub fn answering_palette(entry: Rgb) -> (c: Capabilities)
        ensures
            c.colors == ColorDepth::TrueColor,
            c.default_fg is None,
            c.default_bg is None,
            forall|i: int| 0 <= i < 16 ==> c.palette@[i] == Some(entry),
            !c.hyperlinks,
            !c.sync,
            !c.private.legacy_sgr,
            c.private.underlines == Underlines::Standard,
            c.private.attrs_dropped == 0,
    {
        Capabilities {
            colors: ColorDepth::TrueColor,
            default_fg: None,
            default_bg: None,
            palette: [Some(entry); 16],
            hyperlinks: false,
            sync: false,
            private: Private {
                legacy_sgr: false,
                underlines: Underlines::Standard,
                attrs_dropped: 0,
                sync_flush: None,
                identity: None,
            },
        }
    }

    /// A terminal described by what the wire needs: depth, synchronised output, the underline
    /// colour spelling and the SGR spelling. OSC 8 is on.
    pub fn on_the_wire(colors: ColorDepth, sync: bool, underlines: Underlines, legacy: bool) -> (c:
        Capabilities)
        ensures
            c.colors == colors,
            c.default_fg is None,
            c.default_bg is None,
            forall|i: int| 0 <= i < 16 ==> c.palette@[i] is None,
            c.hyperlinks,
            c.sync == sync,
            c.private.legacy_sgr == legacy,
            c.private.underlines == underlines,
            c.private.attrs_dropped == 0,
    {
        Capabilities {
            colors,
            default_fg: None,
            default_bg: None,
            palette: [None; 16],
            hyperlinks: true,
            sync,
            private: Private {
                legacy_sgr: legacy,
                underlines,
                attrs_dropped: 0,
                sync_flush: None,
                identity: None,
            },
        }
    }

    pub open spec fn spec_palette(&self, i: u8) -> Option<Rgb> {
        if i < 16 {
            self.palette@[i as int]
        } else {
            None
        }
    }

    /// OSC 4's answer for palette entry `i`, where the terminal gave one.
    pub fn palette(&self, i: u8) -> (c: Option<Rgb>)
        ensures
            c == self.spec_palette(i),
    {
        if i < 16 {
            self.palette[i as usize]
        } else {
            None
        }
    }

    /// Whether frames are wrapped in mode 2026.
    pub fn sync_output(&self) -> (b: bool)
        ensures
            b == self.sync,
    {
        self.sync
    }

    /// Whether SGR 38/48 take the semicolon form.
    pub fn legacy_sgr(&self) -> (b: bool)
        ensures
            b == self.private.legacy_sgr,
    {
        self.private.legacy_sgr
    }

    /// Which escape spells an underline colour.
    pub fn underlines(&self) -> (u: Underlines)
        ensures
            u == self.private.underlines,
    {
        self.private.underlines
    }
}

} // verus!

//! The one operator, and what it does to a cell.
//!
//! Shadows, liftings, modal dimming, tints and fades are all [`Mix`]: a colour, and how far toward
//! it what is already there is moved. Colour resolves here against what the terminal told us, and
//! the rule for silence is one rule: **refuse when a guess would be wrong in direction; default when
//! it would be wrong only in degree.** A cell is mixed only if every colour it needs resolves.
use vstd::prelude::*;
use crate::caps::{Capabilities, ColorDepth};
use crate::quant::{index_channels, spec_index_channels};
use crate::restyle::{self, Restyle, grows, spec_apply, spec_channels, spec_interned, valid_style};
use crate::style::{Color, ExtStyle, Rgb, Style, ATTR_MASK, HANDLE_LIMIT, UNDERLINE_SHIFT};
use crate::tables::Tables;

verus! {

/// The one operator: a colour, and how far toward it what is already there is moved, out of
/// [`Mix::FULL`]. The amount is clamped to `0..=256` on construction, and zero is the identity.
#[derive(Clone, Copy, PartialEq, Eq, Debug)]
pub struct Mix {
    toward: Color,
    amount: u16,
}

impl Mix {
    /// All the way to `toward`, leaving nothing of what was underneath.
    pub const FULL: u16 = 256;

    #[verifier::type_invariant]
    spec fn inv(self) -> bool {
        self.amount <= 256
    }

    /// The colour this operator moves cells toward.
    pub closed spec fn spec_toward(self) -> Color {
        self.toward
    }

    /// How far toward it, out of 256.
    pub closed spec fn spec_amount(self) -> u16 {
        self.amount
    }

    /// A mix `amount`/256 of the way toward `toward`, saturating at [`Mix::FULL`].
    pub fn new(toward: Color, amount: u16) -> (m: Mix)
        ensures
            m.spec_toward() == toward,
            m.spec_amount() == if amount > 256 { 256 } else { amount },
    {
        Mix { toward, amount: if amount > Mix::FULL { Mix::FULL } else { amount } }
    }

    /// A darkening: a mix toward black.
    pub fn darken(amount: u16) -> (m: Mix)
        ensures
            m.spec_toward() == Color::Rgb(0, 0, 0),
            m.spec_amount() == if amount > 256 { 256 } else { amount },
    {
        Mix::new(Color::rgb(0, 0, 0), amount)
    }

    /// A lifting: a mix toward white.
    pub fn lift(amount: u16) -> (m: Mix)
        ensures
            m.spec_toward() == Color::Rgb(255, 255, 255),
            m.spec_amount() == if amount > 256 { 256 } else { amount },
    {
        Mix::new(Color::rgb(255, 255, 255), amount)
    }

    /// The colour this operator moves cells toward.
    pub fn toward(self) -> (c: Color)
        ensures
            c == self.spec_toward(),
    {
        self.toward
    }

    /// How far toward it, out of [`Mix::FULL`]; never more.
    pub fn amount(self) -> (a: u16)
        ensures
            a == self.spec_amount(),
            a <= 256,
    {
        proof {
            use_type_invariant(&self);
        }
        self.amount
    }

    /// Whether this operator changes nothing, and is therefore skipped entirely.
    pub fn is_identity(self) -> (b: bool)
        ensures
            b == (self.spec_amount() == 0),
    {
        self.amount == 0
    }
}

/// Which end of a style a colour sits on, which is the whole of what the default colour means.
#[derive(Clone, Copy, PartialEq, Eq, Debug, Structural)]
pub enum Side {
    Fg,
    Bg,
}

/// Palette entry `i`, as channels: the same table the quantiser reads.
pub fn indexed(caps: &Capabilities, i: u8) -> (c: Rgb)
    ensures
        c == spec_index_channels(caps, i),
{
    index_channels(caps, i)
}

/// A colour as channels, or `None` where this terminal has given no way to know.
pub open spec fn spec_resolve(caps: &Capabilities, c: Color, side: Side) -> Option<Rgb> {
    match c {
        Color::Default => match side {
            Side::Fg => caps.default_fg,
            Side::Bg => caps.default_bg,
        },
        Color::Indexed(i) => Some(spec_index_channels(caps, i)),
        Color::Rgb(r, g, b) => Some(Rgb { r, g, b }),
    }
}

/// A colour as channels: the default resolves to the terminal's own colour on that side, an index
/// through the palette, truecolor to itself.
pub fn resolve(caps: &Capabilities, c: Color, side: Side) -> (r: Option<Rgb>)
    ensures
        r == spec_resolve(caps, c, side),
{
    match c {
        Color::Default => match side {
            Side::Fg => caps.default_fg,
            Side::Bg => caps.default_bg,
        },
        Color::Indexed(i) => Some(indexed(caps, i)),
        Color::Rgb(r, g, b) => Some(Rgb::new(r, g, b)),
    }
}

/// One channel, moved `amount`/256 of the way from `a` toward `b`, truncating.
pub open spec fn spec_blend_channel(a: u8, b: u8, amount: u16) -> u8 {
    ((a as int * (256 - amount) + b as int * amount) / 256) as u8
}

/// `from` moved `amount`/256 of the way toward `to`, channel by channel.
pub open spec fn spec_blend(from: Rgb, to: Rgb, amount: u16) -> Rgb {
    Rgb {
        r: spec_blend_channel(from.r, to.r, amount),
        g: spec_blend_channel(from.g, to.g, amount),
        b: spec_blend_channel(from.b, to.b, amount),
    }
}

/// Whether `c` is `a` moved `amount`/256 of the way toward `b`, truncated: `256 * c` is the
/// largest multiple of 256 not above `a * (256 - amount) + b * amount`.
pub open spec fn moved_by(a: u8, b: u8, amount: u16, c: u8) -> bool {
    let n = a as int * (256 - amount as int) + b as int * amount as int;
    256 * (c as int) <= n && n < 256 * (c as int) + 256
}

/// **A blend is linear in the amount**: each channel moves exactly `amount`/256 of the way from
/// `a` toward `b`, rounded down, for every amount from 0 to 256.
pub proof fn lemma_blend_channel_is_linear(a: u8, b: u8, amount: u16)
    requires
        amount <= 256,
    ensures
        moved_by(a, b, amount, spec_blend_channel(a, b, amount)),
{
    let n = a as int * (256 - amount as int) + b as int * amount as int;
    assert(0 <= n <= 255 * 256) by (nonlinear_arith)
        requires
            n == a as int * (256 - amount as int) + b as int * amount as int,
            0 <= a <= 255,
            0 <= b <= 255,
            0 <= amount <= 256,
    ;
    let q = n / 256;
    assert(256 * q <= n && n < 256 * q + 256 && 0 <= q <= 255) by (nonlinear_arith)
        requires
            q == n / 256,
            0 <= n <= 255 * 256,
    ;
    assert(spec_blend_channel(a, b, amount) as int == q);
}

/// **A blend moves every channel by the amount**: `blend(from, to, amount)` is `from` moved
/// exactly `amount`/256 of the way toward `to` in each of red, green and blue, rounded down.
pub proof fn lemma_blend_is_linear(from: Rgb, to: Rgb, amount: u16)
    requires
        amount <= 256,
    ensures
        moved_by(from.r, to.r, amount, spec_blend(from, to, amount).r),
        moved_by(from.g, to.g, amount, spec_blend(from, to, amount).g),
        moved_by(from.b, to.b, amount, spec_blend(from, to, amount).b),
{
    lemma_blend_channel_is_linear(from.r, to.r, amount);
    lemma_blend_channel_is_linear(from.g, to.g, amount);
    lemma_blend_channel_is_linear(from.b, to.b, amount);
}

fn blend_channel(a: u8, b: u8, amount: u16) -> (c: u8)
    requires
        amount <= 256,
    ensures
        c == spec_blend_channel(a, b, amount),
        moved_by(a, b, amount, c),
        amount == 0 ==> c == a,
        amount == 256 ==> c == b,
{
    proof {
        lemma_blend_channel_is_linear(a, b, amount);
    }
    let k = (Mix::FULL - amount) as u32;
    assert(a as u32 * k + b as u32 * amount as u32 <= 255 * 256) by (nonlinear_arith)
        requires
            k == 256 - amount,
            a <= 255,
            b <= 255,
            amount <= 256,
    ;
    assert(a as u32 * k <= 255 * 256) by (nonlinear_arith)
        requires k <= 256, a <= 255;
    assert(b as u32 * amount as u32 <= 255 * 256) by (nonlinear_arith)
        requires amount <= 256, b <= 255;
    let kept = a as u32 * k;
    let added = b as u32 * amount as u32;
    let c = (kept + added) / Mix::FULL as u32;
    assert(c <= 255 && (amount == 0 ==> c == a) && (amount == 256 ==> c == b)) by (nonlinear_arith)
        requires
            c == (kept + added) / 256,
            kept + added <= 255 * 256,
            kept == a * (256 - amount),
            added == b * amount,
    ;
    c as u8
}

/// `from`, moved `amount`/256 of the way toward `to`, channel by channel. Integer, and exact at
/// both ends: `amount == 0` answers `from` and `amount == 256` answers `to`.
pub fn blend(from: Rgb, to: Rgb, amount: u16) -> (c: Rgb)
    requires
        amount <= 256,
    ensures
        c == spec_blend(from, to, amount),
        moved_by(from.r, to.r, amount, c.r),
        moved_by(from.g, to.g, amount, c.g),
        moved_by(from.b, to.b, amount, c.b),
        amount == 0 ==> c == from,
        amount == 256 ==> c == to,
{
    Rgb::new(
        blend_channel(from.r, to.r, amount),
        blend_channel(from.g, to.g, amount),
        blend_channel(from.b, to.b, amount),
    )
}

/// One operator, resolved against one terminal. It holds no state: what it does to a style word
/// is a function of that word and of nothing else.
pub struct Mixer<'a> {
    caps: &'a Capabilities,
    amount: u16,
    /// `toward`, resolved on the foreground side.
    to_fg: Rgb,
    /// `toward`, resolved on the background side.
    to_bg: Rgb,
}

impl<'a> Mixer<'a> {
    pub closed spec fn spec_caps(&self) -> &'a Capabilities {
        self.caps
    }

    pub closed spec fn spec_amount(&self) -> u16 {
        self.amount
    }

    pub closed spec fn spec_to_fg(&self) -> Rgb {
        self.to_fg
    }

    pub closed spec fn spec_to_bg(&self) -> Rgb {
        self.to_bg
    }

    /// The descriptor a mix rewrites a cell with, or `None` where a colour the cell needs cannot be
    /// resolved: every channel the mix touches has to resolve, or the cell is left as it was.
    pub open spec fn spec_moved(&self, e: ExtStyle) -> Option<Restyle<'static>> {
        let caps = self.spec_caps();
        let amount = self.spec_amount();
        match (spec_resolve(caps, e.fg, Side::Fg), spec_resolve(caps, e.bg, Side::Bg)) {
            (Some(f), Some(b)) => if e.ul == Color::Default {
                Some(
                    Restyle {
                        fg: Some(rgb_color(spec_blend(f, self.spec_to_fg(), amount))),
                        bg: Some(rgb_color(spec_blend(b, self.spec_to_bg(), amount))),
                        set: 0,
                        clear: 0,
                        ul: None,
                        link: None,
                    },
                )
            } else {
                match spec_resolve(caps, e.ul, Side::Fg) {
                    Some(u) => Some(
                        Restyle {
                            fg: Some(rgb_color(spec_blend(f, self.spec_to_fg(), amount))),
                            bg: Some(rgb_color(spec_blend(b, self.spec_to_bg(), amount))),
                            set: 0,
                            clear: 0,
                            ul: Some(rgb_color(spec_blend(u, self.spec_to_fg(), amount))),
                            link: None,
                        },
                    ),
                    None => None,
                }
            },
            _ => None,
        }
    }

    /// What one style word becomes.
    pub open spec fn spec_style(&self, tables: &Tables, prev: Style) -> Style {
        match self.spec_moved(spec_channels(tables, prev)) {
            Some(d) => spec_apply(tables, d, None, prev),
            None => prev,
        }
    }

    /// The mixer for one operator, or `None` when the operator provably changes no byte on the
    /// wire: the identity, a terminal with no colour, or a `toward` this terminal cannot resolve on
    /// either side.
    pub fn new(mix: Mix, caps: &'a Capabilities) -> (m: Option<Mixer<'a>>)
        ensures
            m is None <==> (mix.spec_amount() == 0 || caps.colors == ColorDepth::NoColor
                || spec_resolve(caps, mix.spec_toward(), Side::Fg) is None || spec_resolve(
                caps,
                mix.spec_toward(),
                Side::Bg,
            ) is None),
            m matches Some(m) ==> {
                &&& m.spec_caps() == caps
                &&& m.spec_amount() == mix.spec_amount()
                &&& Some(m.spec_to_fg()) == spec_resolve(caps, mix.spec_toward(), Side::Fg)
                &&& Some(m.spec_to_bg()) == spec_resolve(caps, mix.spec_toward(), Side::Bg)
                &&& m.spec_amount() <= 256
            },
    {
        proof {
            use_type_invariant(&mix);
        }
        if mix.is_identity() || caps.colors == ColorDepth::NoColor {
            return None;
        }
        let to_fg = match resolve(caps, mix.toward, Side::Fg) {
            Some(c) => c,
            None => return None,
        };
        let to_bg = match resolve(caps, mix.toward, Side::Bg) {
            Some(c) => c,
            None => return None,
        };
        Some(Mixer { caps, amount: mix.amount, to_fg, to_bg })
    }

    /// What one style word becomes: **a function of that word and of nothing else** — see
    /// [`lemma_mix_depends_on_the_word_alone`]. Both colours move by the same factor or neither
    /// does; attributes are not colours and are carried across; every channel the mix does not
    /// name, the hyperlink among them, is carried across untouched.
    pub fn style(&self, tables: &mut Tables, prev: Style) -> (s: Style)
        requires
            self.spec_amount() <= 256,
            prev.wf(),
            valid_style(old(tables), prev),
            old(tables).exts.entries@.len() + 1 < HANDLE_LIMIT,
        ensures
            s == self.spec_style(old(tables), prev),
            s.wf(),
            old(tables).wf() ==> final(tables).wf(),
            valid_style(final(tables), s),
            grows(old(tables).exts.entries@, final(tables).exts.entries@),
            final(tables).exts.entries@.len() <= old(tables).exts.entries@.len() + 1,
            final(tables).links == old(tables).links,
            final(tables).interner == old(tables).interner,
            final(tables).links_in_key == old(tables).links_in_key,
            s.attr & ATTR_MASK == prev.attr & ATTR_MASK,
            old(tables).links_in_key ==> spec_channels(final(tables), s).link == spec_channels(old(tables), prev).link,
            self.spec_moved(spec_channels(old(tables), prev)) is None ==> s == prev
                && final(tables).exts == old(tables).exts,
            self.spec_moved(spec_channels(old(tables), prev)) matches Some(d) ==> {
                let e = old(tables).spec_key(restyle::spec_restyled(old(tables), d, None, prev));
                &&& spec_channels(final(tables), s) == e
                &&& e.spec_is_extended() ==> final(tables).exts.entries@ == spec_interned(
                    old(tables).exts.entries@,
                    e,
                )
                &&& !e.spec_is_extended() ==> final(tables).exts == old(tables).exts
            },
    {
        self.mixed(tables, prev)
    }

    fn mixed(&self, tables: &mut Tables, prev: Style) -> (s: Style)
        requires
            self.spec_amount() <= 256,
            prev.wf(),
            valid_style(old(tables), prev),
            old(tables).exts.entries@.len() + 1 < HANDLE_LIMIT,
        ensures
            s == self.spec_style(old(tables), prev),
            s.wf(),
            old(tables).wf() ==> final(tables).wf(),
            valid_style(final(tables), s),
            grows(old(tables).exts.entries@, final(tables).exts.entries@),
            final(tables).exts.entries@.len() <= old(tables).exts.entries@.len() + 1,
            final(tables).links == old(tables).links,
            final(tables).interner == old(tables).interner,
            final(tables).links_in_key == old(tables).links_in_key,
            s.attr & ATTR_MASK == prev.attr & ATTR_MASK,
            old(tables).links_in_key ==> spec_channels(final(tables), s).link == spec_channels(old(tables), prev).link,
            self.spec_moved(spec_channels(old(tables), prev)) is None ==> s == prev
                && final(tables).exts == old(tables).exts,
            self.spec_moved(spec_channels(old(tables), prev)) matches Some(d) ==> {
                let e = old(tables).spec_key(restyle::spec_restyled(old(tables), d, None, prev));
                &&& spec_channels(final(tables), s) == e
                &&& e.spec_is_extended() ==> final(tables).exts.entries@ == spec_interned(
                    old(tables).exts.entries@,
                    e,
                )
                &&& !e.spec_is_extended() ==> final(tables).exts == old(tables).exts
            },
    {
        match self.moved(tables, prev) {
            Some(s) => s,
            None => prev,
        }
    }

    /// The mix, or `None` where a colour this cell needs cannot be resolved. Nothing here has a
    /// side effect before the last line, so a channel that gives up interns nothing.
    fn moved(&self, tables: &mut Tables, prev: Style) -> (r: Option<Style>)
        requires
            self.spec_amount() <= 256,
            prev.wf(),
            valid_style(old(tables), prev),
            old(tables).exts.entries@.len() + 1 < HANDLE_LIMIT,
        ensures
            r is None <==> self.spec_moved(spec_channels(old(tables), prev)) is None,
            r is None ==> *final(tables) == *old(tables),
            r matches Some(s) ==> {
                &&& s == self.spec_style(old(tables), prev)
                &&& s.wf()
                &&& old(tables).wf() ==> final(tables).wf()
                &&& valid_style(final(tables), s)
                &&& grows(old(tables).exts.entries@, final(tables).exts.entries@)
                &&& final(tables).exts.entries@.len() <= old(tables).exts.entries@.len() + 1
                &&& final(tables).links == old(tables).links
                &&& final(tables).interner == old(tables).interner
                &&& final(tables).links_in_key == old(tables).links_in_key
                &&& s.attr & ATTR_MASK == prev.attr & ATTR_MASK
                &&& self.spec_moved(spec_channels(old(tables), prev)) matches Some(d) && {
                    let e = old(tables).spec_key(restyle::spec_restyled(old(tables), d, None, prev));
                    &&& spec_channels(final(tables), s) == e
                    &&& e.spec_is_extended() ==> final(tables).exts.entries@ == spec_interned(
                        old(tables).exts.entries@,
                        e,
                    )
                    &&& !e.spec_is_extended() ==> final(tables).exts == old(tables).exts
                }
            },
    {
        let e = restyle::channels(tables, prev);
        let (to_fg, to_bg) = (self.to_fg, self.to_bg);
        let f = match resolve(self.caps, e.fg, Side::Fg) {
            Some(c) => c,
            None => return None,
        };
        let b = match resolve(self.caps, e.bg, Side::Bg) {
            Some(c) => c,
            None => return None,
        };
        let ul = if e.ul == Color::Default {
            None
        } else {
            match resolve(self.caps, e.ul, Side::Fg) {
                Some(u) => Some(color_of(blend(u, to_fg, self.amount))),
                None => return None,
            }
        };
        let d = Restyle {
            fg: Some(color_of(blend(f, to_fg, self.amount))),
            bg: Some(color_of(blend(b, to_bg, self.amount))),
            set: 0,
            clear: 0,
            ul,
            link: None,
        };
        assert(self.spec_moved(e) == Some(d));
        let s = restyle::apply(tables, &d, None, prev);
        proof {
            restyle::lemma_no_attribute_changes(prev.attr);
        }
        Some(s)
    }
}

/// Three channels as a truecolor [`Color`].
pub open spec fn rgb_color(c: Rgb) -> Color {
    Color::Rgb(c.r, c.g, c.b)
}

fn color_of(c: Rgb) -> (out: Color)
    ensures
        out == rgb_color(c),
{
    Color::rgb(c.r, c.g, c.b)
}

/// **A mix is a function of the style word and of nothing else.** Asked again — after any number
/// of other words have been mixed and interned, so long as the table has only grown from where the
/// first answer left it — the same word answers the same style and mints nothing more, so any
/// number of mixes of one word add at most one entry between them. What a one-entry memo on the
/// previous style word rests on.
pub proof fn lemma_mix_depends_on_the_word_alone(
    m: Mixer<'_>,
    before: &Tables,
    after: &Tables,
    prev: Style,
)
    requires
        valid_style(before, prev),
        before.links_in_key == after.links_in_key,
        grows(before.exts.entries@, after.exts.entries@),
        m.spec_moved(spec_channels(before, prev)) matches Some(d) ==> {
            let e = before.spec_key(restyle::spec_restyled(before, d, None, prev));
            e.spec_is_extended() ==> grows(spec_interned(before.exts.entries@, e), after.exts.entries@)
        },
    ensures
        m.spec_style(after, prev) == m.spec_style(before, prev),
        m.spec_moved(spec_channels(after, prev)) matches Some(d) ==> {
            let e = after.spec_key(restyle::spec_restyled(after, d, None, prev));
            e.spec_is_extended() ==> spec_interned(after.exts.entries@, e) == after.exts.entries@
        },
{
    assert(spec_channels(after, prev) == spec_channels(before, prev));
    if let Some(d) = m.spec_moved(spec_channels(before, prev)) {
        restyle::lemma_apply_again_mints_nothing(before, after, d, None, prev);
    }
}

} // verus!

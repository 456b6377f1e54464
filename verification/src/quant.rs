//! Colour narrowed to what the terminal can express, before the mirror comparison, so that the
//! equality filter is exact with respect to the wire.
//!
//! The algorithm is weighted integer distance in RGB with weights `2 : 4 : 3`. The 6x6x6 cube is a
//! product set, so its nearest point is the nearest level of each channel independently; the
//! twenty-four greys are a line, so the nearest grey is the weighted mean snapped to a step. Only
//! the sixteen-colour depth scans, and it scans sixteen.
use vstd::prelude::*;
use crate::caps::{Capabilities, ColorDepth};
use crate::style::{Cell, Color, ExtStyle, LinkId, Rgb, Style, ATTR_MASK, spec_inline};

verus! {

/// xterm's default sixteen, used for an entry OSC 4 did not answer for.
pub open spec fn spec_ansi16(i: int) -> Rgb {
    if i == 0 { Rgb { r: 0x00, g: 0x00, b: 0x00 } }
    else if i == 1 { Rgb { r: 0xcd, g: 0x00, b: 0x00 } }
    else if i == 2 { Rgb { r: 0x00, g: 0xcd, b: 0x00 } }
    else if i == 3 { Rgb { r: 0xcd, g: 0xcd, b: 0x00 } }
    else if i == 4 { Rgb { r: 0x00, g: 0x00, b: 0xee } }
    else if i == 5 { Rgb { r: 0xcd, g: 0x00, b: 0xcd } }
    else if i == 6 { Rgb { r: 0x00, g: 0xcd, b: 0xcd } }
    else if i == 7 { Rgb { r: 0xe5, g: 0xe5, b: 0xe5 } }
    else if i == 8 { Rgb { r: 0x7f, g: 0x7f, b: 0x7f } }
    else if i == 9 { Rgb { r: 0xff, g: 0x00, b: 0x00 } }
    else if i == 10 { Rgb { r: 0x00, g: 0xff, b: 0x00 } }
    else if i == 11 { Rgb { r: 0xff, g: 0xff, b: 0x00 } }
    else if i == 12 { Rgb { r: 0x5c, g: 0x5c, b: 0xff } }
    else if i == 13 { Rgb { r: 0xff, g: 0x00, b: 0xff } }
    else if i == 14 { Rgb { r: 0x00, g: 0xff, b: 0xff } }
    else { Rgb { r: 0xff, g: 0xff, b: 0xff } }
}

/// xterm's default entry `i` of the low sixteen.
pub fn ansi16(i: u8) -> (c: Rgb)
    requires
        i < 16,
    ensures
        c == spec_ansi16(i as int),
{
    match i {
        0 => Rgb::new(0x00, 0x00, 0x00),
        1 => Rgb::new(0xcd, 0x00, 0x00),
        2 => Rgb::new(0x00, 0xcd, 0x00),
        3 => Rgb::new(0xcd, 0xcd, 0x00),
        4 => Rgb::new(0x00, 0x00, 0xee),
        5 => Rgb::new(0xcd, 0x00, 0xcd),
        6 => Rgb::new(0x00, 0xcd, 0xcd),
        7 => Rgb::new(0xe5, 0xe5, 0xe5),
        8 => Rgb::new(0x7f, 0x7f, 0x7f),
        9 => Rgb::new(0xff, 0x00, 0x00),
        10 => Rgb::new(0x00, 0xff, 0x00),
        11 => Rgb::new(0xff, 0xff, 0x00),
        12 => Rgb::new(0x5c, 0x5c, 0xff),
        13 => Rgb::new(0xff, 0x00, 0xff),
        14 => Rgb::new(0x00, 0xff, 0xff),
        _ => Rgb::new(0xff, 0xff, 0xff),
    }
}

/// The six levels of the 6x6x6 cube, which is fixed by specification and identical everywhere.
pub open spec fn spec_cube(n: int) -> u8 {
    if n == 0 { 0 }
    else if n == 1 { 95 }
    else if n == 2 { 135 }
    else if n == 3 { 175 }
    else if n == 4 { 215 }
    else { 255 }
}

fn cube(n: usize) -> (v: u8)
    requires
        n < 6,
    ensures
        v == spec_cube(n as int),
{
    match n {
        0 => 0,
        1 => 95,
        2 => 135,
        3 => 175,
        4 => 215,
        _ => 255,
    }
}

/// The first index of the cube, and the first index a quantisation may target.
pub const CUBE_BASE: u8 = 16;
/// The first of the twenty-four greys.
pub const GREY_BASE: u8 = 232;
/// How many greys there are.
pub const GREYS: u8 = 24;
/// The weights of the distance, luminance-shaped and integer.
pub const W_R: u32 = 2;
/// See [`W_R`].
pub const W_G: u32 = 4;
/// See [`W_R`].
pub const W_B: u32 = 3;

/// The channels of an index no terminal is asked about: the cube (16..232) and the greys (232..256).
pub open spec fn spec_index_channels_fixed(i: u8) -> Rgb {
    if i < 232 {
        let n = i - 16;
        Rgb { r: spec_cube(n / 36), g: spec_cube((n / 6) % 6), b: spec_cube(n % 6) }
    } else {
        let level = (8 + 10 * (i - 232)) as u8;
        Rgb { r: level, g: level, b: level }
    }
}

/// Palette entry `i` as channels: OSC 4's answer or xterm's for the low sixteen, the
/// specification's for the rest.
pub open spec fn spec_index_channels(caps: &Capabilities, i: u8) -> Rgb {
    if i < 16 {
        match caps.spec_palette(i) {
            Some(c) => c,
            None => spec_ansi16(i as int),
        }
    } else {
        spec_index_channels_fixed(i)
    }
}

/// Palette entry `i`, as channels.
pub fn index_channels(caps: &Capabilities, i: u8) -> (c: Rgb)
    ensures
        c == spec_index_channels(caps, i),
{
    if i < 16 {
        match caps.palette(i) {
            Some(c) => c,
            None => ansi16(i),
        }
    } else {
        index_channels_fixed(i)
    }
}

/// The channels of an index in 16..256.
pub fn index_channels_fixed(i: u8) -> (c: Rgb)
    requires
        i >= CUBE_BASE,
    ensures
        c == spec_index_channels_fixed(i),
{
    if i < GREY_BASE {
        let n = (i - CUBE_BASE) as usize;
        Rgb::new(cube(n / 36), cube((n / 6) % 6), cube(n % 6))
    } else {
        let level = 8 + 10 * (i as u16 - GREY_BASE as u16);
        Rgb::new(level as u8, level as u8, level as u8)
    }
}

pub open spec fn spec_sq(x: u8, y: u8) -> u32 {
    let d = if x > y { x - y } else { y - x };
    (d * d) as u32
}

/// The weighted square distance between two colours.
pub open spec fn spec_distance(a: Rgb, b: Rgb) -> u32 {
    (W_R * spec_sq(a.r, b.r) + W_G * spec_sq(a.g, b.g) + W_B * spec_sq(a.b, b.b)) as u32
}

fn sq(x: u8, y: u8) -> (s: u32)
    ensures
        s == spec_sq(x, y),
        s <= 65025,
{
    let d: u32 = if x > y { (x - y) as u32 } else { (y - x) as u32 };
    assert(d * d <= 255 * 255) by (nonlinear_arith)
        requires d <= 255;
    d * d
}

/// The weighted square distance between two colours. Never overflows: the largest is `9 * 255²`.
pub fn distance(a: Rgb, b: Rgb) -> (d: u32)
    ensures
        d == spec_distance(a, b),
        d <= 9 * 65025,
{
    W_R * sq(a.r, b.r) + W_G * sq(a.g, b.g) + W_B * sq(a.b, b.b)
}

/// The first index among `0..n` at which `d` is smallest.
pub open spec fn first_min(d: spec_fn(int) -> u32, n: int) -> int
    decreases n,
{
    if n <= 1 {
        0
    } else {
        let m = first_min(d, n - 1);
        if d(n - 1) < d(m) {
            n - 1
        } else {
            m
        }
    }
}

/// `first_min` is a minimum, and the first one.
pub proof fn lemma_first_min(d: spec_fn(int) -> u32, n: int)
    requires
        n >= 1,
    ensures
        0 <= first_min(d, n) < n,
        forall|j: int| 0 <= j < n ==> d(first_min(d, n)) <= #[trigger] d(j),
        forall|j: int| 0 <= j < first_min(d, n) ==> d(first_min(d, n)) < #[trigger] d(j),
    decreases n,
{
    if n > 1 {
        lemma_first_min(d, n - 1);
    }
}

pub open spec fn level_distance(v: u8) -> spec_fn(int) -> u32 {
    |k: int| (if v > spec_cube(k) { v - spec_cube(k) } else { spec_cube(k) - v }) as u32
}

/// The nearest cube level to one channel, as its index 0..6: the first of the nearest.
pub open spec fn spec_cube_level(v: u8) -> int {
    first_min(level_distance(v), 6)
}

/// The nearest level of the cube to one channel, by comparison rather than division: the gap
/// from 0 to 95 is more than twice any other.
pub fn cube_level(v: u8) -> (l: usize)
    ensures
        l as int == spec_cube_level(v),
        l < 6,
{
    let mut best: usize = 0;
    let mut best_d: u32 = u32::MAX;
    let mut i: usize = 0;
    while i < 6
        invariant
            0 <= i <= 6,
            i == 0 ==> best_d == u32::MAX && best == 0,
            i >= 1 ==> best as int == first_min(level_distance(v), i as int) && best_d == (
            level_distance(v))(best as int),
        decreases 6 - i,
    {
        let level = cube(i);
        let d: u32 = if v > level { (v - level) as u32 } else { (level - v) as u32 };
        assert(d == (level_distance(v))(i as int));
        if d < best_d {
            best_d = d;
            best = i;
        }
        i = i + 1;
    }
    proof {
        lemma_first_min(level_distance(v), 6);
    }
    best
}

/// The nearest point of the cube, as a palette index.
pub open spec fn spec_nearest_cube(c: Rgb) -> u8 {
    (16 + 36 * spec_cube_level(c.r) + 6 * spec_cube_level(c.g) + spec_cube_level(c.b)) as u8
}

/// The nearest point of the 6x6x6 cube, as an index: exact because the distance decomposes per
/// channel over a product set.
pub fn nearest_cube(c: Rgb) -> (i: u8)
    ensures
        i == spec_nearest_cube(c),
        CUBE_BASE <= i < GREY_BASE,
{
    let (r, g, b) = (cube_level(c.r), cube_level(c.g), cube_level(c.b));
    CUBE_BASE + (36 * r + 6 * g + b) as u8
}

/// The nearest of the twenty-four greys, as a palette index.
pub open spec fn spec_nearest_grey(c: Rgb) -> u8 {
    let mean = (W_R * c.r + W_G * c.g + W_B * c.b) / 9;
    let above = if mean >= 8 { mean - 8 } else { 0 };
    let step = (above + 5) / 10;
    (232 + if step < 23 { step } else { 23 }) as u8
}

/// The nearest grey: the weighted mean, rounded to the nearest step of ten from eight and
/// clamped to the ends.
pub fn nearest_grey(c: Rgb) -> (i: u8)
    ensures
        i == spec_nearest_grey(c),
        i >= GREY_BASE,
{
    let mean = (W_R * c.r as u32 + W_G * c.g as u32 + W_B * c.b as u32) / (W_R + W_G + W_B);
    let step = (mean.saturating_sub(8) + 5) / 10;
    GREY_BASE + (if step < GREYS as u32 - 1 { step } else { GREYS as u32 - 1 }) as u8
}

/// What the terminal can express, and what everything else becomes.
#[derive(Clone, Copy, PartialEq, Eq, Debug)]
pub struct Quantiser {
    pub depth: ColorDepth,
    /// The sixteen the terminal paints: OSC 4 where it answered, xterm's where it was silent.
    pub palette: [Rgb; 16],
    /// Whether OSC 8 reaches the wire.
    pub hyperlinks: bool,
    /// Attribute flags the terminal does not render.
    pub attrs_dropped: u64,
}

pub open spec fn palette_distance(pal: Seq<Rgb>, c: Rgb) -> spec_fn(int) -> u32 {
    |k: int| spec_distance(c, pal[k])
}

/// The first of the terminal's own sixteen nearest to `c`.
pub open spec fn spec_nearest_ansi16(pal: Seq<Rgb>, c: Rgb) -> u8 {
    first_min(palette_distance(pal, c), 16) as u8
}

/// The nearer of the cube and the greys, ties to the cube. Never one of the low sixteen.
pub open spec fn spec_nearest_indexed(c: Rgb) -> u8 {
    let cube = spec_nearest_cube(c);
    let grey = spec_nearest_grey(c);
    if spec_distance(c, spec_index_channels_fixed(cube)) <= spec_distance(
        c,
        spec_index_channels_fixed(grey),
    ) {
        cube
    } else {
        grey
    }
}

/// An RGB colour's three channels.
pub open spec fn spec_channels(c: Color) -> Rgb {
    match c {
        Color::Rgb(r, g, b) => Rgb { r, g, b },
        _ => Rgb { r: 0, g: 0, b: 0 },
    }
}

impl Quantiser {
    /// An indexed colour as channels, through this terminal's own palette.
    pub open spec fn spec_indexed(self, i: u8) -> Rgb {
        if i < 16 {
            self.palette@[i as int]
        } else {
            spec_index_channels_fixed(i)
        }
    }

    /// One colour, narrowed to what this terminal can express.
    pub open spec fn spec_color(self, c: Color) -> Color {
        match self.depth {
            ColorDepth::NoColor => Color::Default,
            ColorDepth::TrueColor => c,
            ColorDepth::Indexed256 => match c {
                Color::Rgb(r, g, b) => Color::Indexed(spec_nearest_indexed(Rgb { r, g, b })),
                _ => c,
            },
            ColorDepth::Ansi16 => match c {
                Color::Default => c,
                Color::Indexed(i) => if i < 16 {
                    c
                } else {
                    Color::Indexed(spec_nearest_ansi16(self.palette@, self.spec_indexed(i)))
                },
                Color::Rgb(r, g, b) => Color::Indexed(
                    spec_nearest_ansi16(self.palette@, Rgb { r, g, b }),
                ),
            },
        }
    }

    /// One inline style word, narrowed. An extended word carries a handle, not colours.
    pub open spec fn spec_style(self, s: Style) -> Style {
        if self.depth == ColorDepth::TrueColor || s.extended {
            s
        } else {
            spec_inline(s.attr & ATTR_MASK, self.spec_color(s.fg), self.spec_color(s.bg))
        }
    }

    pub open spec fn spec_channels(self, e: ExtStyle) -> ExtStyle {
        ExtStyle {
            fg: self.spec_color(e.fg),
            bg: self.spec_color(e.bg),
            ul: self.spec_color(e.ul),
            link: if self.hyperlinks { e.link } else { LinkId { id: 0 } },
        }
    }

    /// A quantiser that narrows nothing.
    pub fn transparent() -> (q: Quantiser)
        ensures
            q.depth == ColorDepth::TrueColor,
            q.hyperlinks,
            q.attrs_dropped == 0,
            forall|i: int| 0 <= i < 16 ==> q.palette@[i] == spec_ansi16(i),
    {
        Quantiser {
            depth: ColorDepth::TrueColor,
            palette: [
                ansi16(0), ansi16(1), ansi16(2), ansi16(3), ansi16(4), ansi16(5), ansi16(6),
                ansi16(7), ansi16(8), ansi16(9), ansi16(10), ansi16(11), ansi16(12), ansi16(13),
                ansi16(14), ansi16(15),
            ],
            hyperlinks: true,
            attrs_dropped: 0,
        }
    }

    /// Whether this terminal narrows anything at all.
    pub fn narrows(self) -> (b: bool)
        ensures
            b == (self.depth != ColorDepth::TrueColor),
    {
        !(self.depth == ColorDepth::TrueColor)
    }

    /// Whether this is the quantiser for the terminal `caps` describes: its depth, its own
    /// sixteen, whether it takes OSC 8, and the attributes it does not render.
    pub open spec fn made_for(self, caps: &Capabilities) -> bool {
        &&& self.depth == caps.colors
        &&& self.hyperlinks == caps.hyperlinks
        &&& self.attrs_dropped == caps.private.attrs_dropped
        &&& forall|i: int| 0 <= i < 16 ==> self.palette@[i] == spec_index_channels(caps, i as u8)
    }

    /// The quantiser for one terminal.
    pub fn for_terminal(caps: &Capabilities) -> (q: Quantiser)
        ensures
            q.depth == caps.colors,
            q.hyperlinks == caps.hyperlinks,
            q.attrs_dropped == caps.private.attrs_dropped,
            forall|i: int| 0 <= i < 16 ==> q.palette@[i] == spec_index_channels(caps, i as u8),
            q.made_for(caps),
    {
        Quantiser {
            depth: caps.colors,
            palette: [
                index_channels(caps, 0), index_channels(caps, 1), index_channels(caps, 2),
                index_channels(caps, 3), index_channels(caps, 4), index_channels(caps, 5),
                index_channels(caps, 6), index_channels(caps, 7), index_channels(caps, 8),
                index_channels(caps, 9), index_channels(caps, 10), index_channels(caps, 11),
                index_channels(caps, 12), index_channels(caps, 13), index_channels(caps, 14),
                index_channels(caps, 15),
            ],
            hyperlinks: caps.hyperlinks,
            attrs_dropped: caps.private.attrs_dropped,
        }
    }

    /// One colour, narrowed to what this terminal can express. Idempotent at every depth: see
    /// [`lemma_color_idempotent`].
    pub fn color(self, c: Color) -> (out: Color)
        ensures
            out == self.spec_color(c),
    {
        match self.depth {
            ColorDepth::NoColor => Color::Default,
            ColorDepth::TrueColor => c,
            ColorDepth::Indexed256 => match c {
                Color::Rgb(r, g, b) => Color::Indexed(self.nearest_indexed(Rgb::new(r, g, b))),
                _ => c,
            },
            ColorDepth::Ansi16 => match c {
                Color::Default => c,
                Color::Indexed(i) => if i < 16 {
                    c
                } else {
                    Color::Indexed(self.nearest_ansi16(self.indexed(i)))
                },
                Color::Rgb(r, g, b) => Color::Indexed(self.nearest_ansi16(Rgb::new(r, g, b))),
            },
        }
    }

    /// One style word, narrowed. An extended word comes back unchanged: its low bits are a handle.
    pub fn style(self, s: Style) -> (out: Style)
        ensures
            out == self.spec_style(s),
    {
        if self.depth == ColorDepth::TrueColor || s.is_extended() {
            return s;
        }
        let (fg, bg) = (self.color(s.foreground()), self.color(s.background()));
        Style::inline(s.attr_word(), fg, bg)
    }

    /// One cell, narrowed. The grapheme is never touched.
    pub fn cell(self, c: Cell) -> (out: Cell)
        ensures
            out == (Cell { grapheme: c.grapheme, style: self.spec_style(c.style) }),
    {
        Cell::new(c.grapheme, self.style(c.style))
    }

    /// The four channels of an extended entry, narrowed, and the link dropped where the terminal
    /// cannot express one.
    pub fn channels(self, e: ExtStyle) -> (out: ExtStyle)
        ensures
            out == self.spec_channels(e),
    {
        ExtStyle {
            fg: self.color(e.fg),
            bg: self.color(e.bg),
            ul: self.color(e.ul),
            link: if self.hyperlinks {
                e.link
            } else {
                LinkId::none()
            },
        }
    }

    /// A style word with the attribute flags this terminal does not render taken away.
    pub fn attrs(self, s: Style) -> (out: Style)
        ensures
            out == (Style { attr: s.attr & !self.attrs_dropped, ..s }),
    {
        Style { attr: s.attr & !self.attrs_dropped, ..s }
    }

    /// An indexed colour as channels, through this terminal's own palette.
    fn indexed(self, i: u8) -> (c: Rgb)
        ensures
            c == self.spec_indexed(i),
    {
        if i < 16 {
            self.palette[i as usize]
        } else {
            index_channels_fixed(i)
        }
    }

    /// The nearer of the cube and the greys: never one of the low sixteen.
    fn nearest_indexed(self, c: Rgb) -> (i: u8)
        ensures
            i == spec_nearest_indexed(c),
            i >= CUBE_BASE,
    {
        let cube = nearest_cube(c);
        let grey = nearest_grey(c);
        if distance(c, index_channels_fixed(cube)) <= distance(c, index_channels_fixed(grey)) {
            cube
        } else {
            grey
        }
    }

    /// The first of the terminal's own sixteen nearest to `c`.
    fn nearest_ansi16(self, c: Rgb) -> (i: u8)
        ensures
            i == spec_nearest_ansi16(self.palette@, c),
            i < 16,
    {
        let ghost d = palette_distance(self.palette@, c);
        let mut best: u8 = 0;
        let mut best_d: u32 = u32::MAX;
        let mut i: usize = 0;
        while i < 16
            invariant
                0 <= i <= 16,
                d == palette_distance(self.palette@, c),
                i == 0 ==> best_d == u32::MAX && best == 0,
                i >= 1 ==> best as int == first_min(d, i as int) && best_d == d(best as int),
            decreases 16 - i,
        {
            let dist = distance(c, self.palette[i]);
            if dist < best_d {
                best_d = dist;
                best = i as u8;
            }
            i = i + 1;
        }
        proof {
            lemma_first_min(d, 16);
        }
        best
    }
}

/// **Narrowing is idempotent at every depth**: a colour already narrowed narrows to itself.
///
/// What lets the SGR path narrow a word the run scan has already narrowed without a flag saying
/// which of the two it is holding.
pub proof fn lemma_color_idempotent(q: Quantiser, c: Color)
    ensures
        q.spec_color(q.spec_color(c)) == q.spec_color(c),
{
    lemma_first_min(palette_distance(q.palette@, spec_channels(c)), 16);
    match c {
        Color::Indexed(i) => {
            lemma_first_min(palette_distance(q.palette@, q.spec_indexed(i)), 16);
        },
        _ => {},
    }
}

/// **At 256 colours no RGB value is ever narrowed to one of the low sixteen**, which the user's
/// theme repaints; every target is in the cube or the greys.
pub proof fn lemma_indexed256_never_targets_the_theme(q: Quantiser, r: u8, g: u8, b: u8)
    requires
        q.depth == ColorDepth::Indexed256,
    ensures
        q.spec_color(Color::Rgb(r, g, b)) matches Color::Indexed(i) && i >= CUBE_BASE,
{
    let c = Rgb { r, g, b };
    lemma_first_min(level_distance(r), 6);
    lemma_first_min(level_distance(g), 6);
    lemma_first_min(level_distance(b), 6);
}

/// Narrowing a style word is idempotent too, and preserves its attribute bits.
pub proof fn lemma_style_idempotent(q: Quantiser, s: Style)
    ensures
        q.spec_style(q.spec_style(s)) == q.spec_style(s),
        q.spec_style(s).attr & ATTR_MASK == s.attr & ATTR_MASK,
{
    lemma_color_idempotent(q, s.fg);
    lemma_color_idempotent(q, s.bg);
    let a = s.attr;
    assert((a & ATTR_MASK) & ATTR_MASK == a & ATTR_MASK) by (bit_vector);
}

} // verus!

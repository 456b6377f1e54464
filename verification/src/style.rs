//! Colours, style words, grapheme handles and cells: the values every other module moves around.
use vstd::prelude::*;

verus! {

/// Three colour channels.
#[derive(Clone, Copy, PartialEq, Eq, Debug, Structural)]
pub struct Rgb {
    pub r: u8,
    pub g: u8,
    pub b: u8,
}

impl Rgb {
    pub fn new(r: u8, g: u8, b: u8) -> (c: Rgb)
        ensures
            c == (Rgb { r, g, b }),
    {
        Rgb { r, g, b }
    }
}

/// The tag of the terminal's own colour.
pub const TAG_DEFAULT: u32 = 0;
/// The tag of a palette index.
pub const TAG_INDEXED: u32 = 1;
/// The tag of a truecolor value.
pub const TAG_RGB: u32 = 2;

/// A colour as a style word carries it: the terminal's own, a palette index, or three channels.
#[derive(Clone, Copy, PartialEq, Eq, Debug, Structural)]
pub enum Color {
    Default,
    Indexed(u8),
    Rgb(u8, u8, u8),
}

impl Color {
    /// The terminal's own colour, whichever side of a style it lands on.
    pub const DEFAULT: Color = Color::Default;

    pub fn indexed(i: u8) -> (c: Color)
        ensures
            c == Color::Indexed(i),
    {
        Color::Indexed(i)
    }

    pub fn rgb(r: u8, g: u8, b: u8) -> (c: Color)
        ensures
            c == Color::Rgb(r, g, b),
    {
        Color::Rgb(r, g, b)
    }

    pub open spec fn spec_tag(self) -> u32 {
        match self {
            Color::Default => TAG_DEFAULT,
            Color::Indexed(_) => TAG_INDEXED,
            Color::Rgb(..) => TAG_RGB,
        }
    }

    pub open spec fn spec_payload(self) -> u32 {
        match self {
            Color::Default => 0,
            Color::Indexed(i) => i as u32,
            Color::Rgb(r, g, b) => (r as u32 * 65536 + g as u32 * 256 + b as u32) as u32,
        }
    }

    /// The colour as twenty-six bits: the form in the top two, the payload in the low twenty-four.
    pub open spec fn spec_code(self) -> int {
        self.spec_tag() * 0x100_0000 + self.spec_payload()
    }

    /// Which of the three forms this is.
    pub fn tag(self) -> (t: u32)
        ensures
            t == self.spec_tag(),
    {
        match self {
            Color::Default => TAG_DEFAULT,
            Color::Indexed(_) => TAG_INDEXED,
            Color::Rgb(..) => TAG_RGB,
        }
    }

    /// The index, or the three channels packed as `0xRRGGBB`, or zero for the default.
    pub fn payload(self) -> (p: u32)
        ensures
            p == self.spec_payload(),
            p < 0x100_0000,
    {
        match self {
            Color::Default => 0,
            Color::Indexed(i) => i as u32,
            Color::Rgb(r, g, b) => r as u32 * 65536 + g as u32 * 256 + b as u32,
        }
    }
}

impl From<Rgb> for Color {
    fn from(c: Rgb) -> (out: Color) {
        Color::Rgb(c.r, c.g, c.b)
    }
}

impl vstd::std_specs::convert::FromSpecImpl<Rgb> for Color {
    open spec fn obeys_from_spec() -> bool {
        true
    }

    open spec fn from_spec(c: Rgb) -> Color {
        Color::Rgb(c.r, c.g, c.b)
    }
}

/// Where the eleven attribute bits begin in the style word.
pub const UNDERLINE_SHIFT: u64 = 52;
/// The extended bit: the low fifty-two bits are a handle rather than two colours.
pub const EXTENDED: u64 = 0x8000_0000_0000_0000;
/// Bold, in the style word's own position.
pub const BOLD: u64 = 0x4000_0000_0000_0000;
/// Dim.
pub const DIM: u64 = 0x2000_0000_0000_0000;
/// Italic.
pub const ITALIC: u64 = 0x1000_0000_0000_0000;
/// Reverse video.
pub const REVERSE: u64 = 0x0800_0000_0000_0000;
/// Blink.
pub const BLINK: u64 = 0x0400_0000_0000_0000;
/// Struck through.
pub const STRIKETHROUGH: u64 = 0x0200_0000_0000_0000;
/// Concealed.
pub const CONCEAL: u64 = 0x0100_0000_0000_0000;
/// Overlined.
pub const OVERLINE: u64 = 0x0080_0000_0000_0000;
/// The eight attribute flags.
pub const ATTRS: u64 = 0x7F80_0000_0000_0000;
/// The three-bit underline style field.
pub const UNDERLINE_MASK: u64 = 0x0070_0000_0000_0000;
/// All eleven attribute bits.
pub const ATTR_MASK: u64 = 0x7FF0_0000_0000_0000;
/// The largest handle an extended word can carry.
pub const HANDLE_LIMIT: u64 = 0x10_0000_0000_0000;

/// A style word: eleven attribute bits, and either two inline colours or a handle into the
/// extended-style table.
///
/// `attr` holds the attribute bits in their word positions (62..52) and nothing else. An inline
/// word carries `fg` and `bg` and a zero `handle`; an extended word carries default colours and a
/// handle, its colours living in the table entry the handle names.
#[derive(Clone, Copy, PartialEq, Eq, Debug, Structural)]
pub struct Style {
    pub extended: bool,
    pub attr: u64,
    pub fg: Color,
    pub bg: Color,
    pub handle: u64,
}

/// Masking a word leaves attribute bits and nothing else, and masking again changes nothing.
pub proof fn lemma_masked_is_attrs(w: u64)
    ensures
        (w & ATTR_MASK) & !ATTR_MASK == 0,
        (w & ATTR_MASK) & ATTR_MASK == w & ATTR_MASK,
        w & !ATTR_MASK == 0 ==> w & ATTR_MASK == w,
{
    assert((w & 0x7FF0_0000_0000_0000u64) & !0x7FF0_0000_0000_0000u64 == 0) by (bit_vector);
    assert((w & 0x7FF0_0000_0000_0000u64) & 0x7FF0_0000_0000_0000u64 == w & 0x7FF0_0000_0000_0000u64) by (bit_vector);
    assert(w & !0x7FF0_0000_0000_0000u64 == 0 ==> w & 0x7FF0_0000_0000_0000u64 == w) by (bit_vector);
}

/// The spec of an inline style word.
pub open spec fn spec_inline(attr_word: u64, fg: Color, bg: Color) -> Style {
    Style { extended: false, attr: attr_word & ATTR_MASK, fg, bg, handle: 0 }
}

/// The spec of an extended style word.
pub open spec fn spec_extended(attr_word: u64, handle: u64) -> Style {
    Style {
        extended: true,
        attr: attr_word & ATTR_MASK,
        fg: Color::Default,
        bg: Color::Default,
        handle: handle % HANDLE_LIMIT,
    }
}

impl Style {
    /// The word's representation: `attr` holds attribute bits and nothing else; an inline word has
    /// a zero handle; an extended word has the terminal's own colours and a handle that fits its
    /// field.
    pub open spec fn wf(self) -> bool {
        &&& self.attr & !ATTR_MASK == 0
        &&& !self.extended ==> self.handle == 0
        &&& self.extended ==> self.fg == Color::Default && self.bg == Color::Default && self.handle < HANDLE_LIMIT
    }

    /// The word with no attributes and the terminal's own colours.
    pub open spec fn spec_default() -> Style {
        Style { extended: false, attr: 0, fg: Color::Default, bg: Color::Default, handle: 0 }
    }

    pub fn new() -> (s: Style)
        ensures
            s == Style::spec_default(),
            s.wf(),
    {
        assert(0u64 & !ATTR_MASK == 0) by (bit_vector);
        Style { extended: false, attr: 0, fg: Color::Default, bg: Color::Default, handle: 0 }
    }

    /// An inline word from attribute bits (in word position) and two colours.
    pub fn inline(attr_word: u64, fg: Color, bg: Color) -> (s: Style)
        ensures
            s == spec_inline(attr_word, fg, bg),
            s.wf(),
    {
        proof {
            lemma_masked_is_attrs(attr_word);
        }
        Style { extended: false, attr: attr_word & ATTR_MASK, fg, bg, handle: 0 }
    }

    /// An extended word from attribute bits (in word position) and a table handle.
    pub fn extended(attr_word: u64, handle: u64) -> (s: Style)
        ensures
            s == spec_extended(attr_word, handle),
            s.wf(),
    {
        proof {
            lemma_masked_is_attrs(attr_word);
        }
        Style {
            extended: true,
            attr: attr_word & ATTR_MASK,
            fg: Color::Default,
            bg: Color::Default,
            handle: handle % HANDLE_LIMIT,
        }
    }

    /// Whether the colours live in the table.
    pub fn is_extended(self) -> (b: bool)
        ensures
            b == self.extended,
    {
        self.extended
    }

    pub open spec fn spec_ext_handle(self) -> Option<u64> {
        if self.extended {
            Some(self.handle)
        } else {
            None
        }
    }

    /// The table handle an extended word carries.
    pub fn ext_handle(self) -> (h: Option<u64>)
        ensures
            h == self.spec_ext_handle(),
    {
        if self.extended {
            Some(self.handle)
        } else {
            None
        }
    }

    /// The inline foreground. Only meaningful on an inline word.
    pub fn foreground(self) -> (c: Color)
        ensures
            c == self.fg,
    {
        self.fg
    }

    /// The inline background. Only meaningful on an inline word.
    pub fn background(self) -> (c: Color)
        ensures
            c == self.bg,
    {
        self.bg
    }

    /// The eleven attribute bits, in word position.
    pub fn attr_word(self) -> (w: u64)
        ensures
            w == self.attr & ATTR_MASK,
    {
        self.attr & ATTR_MASK
    }

    /// The eight attribute flags, in word position.
    pub fn attrs(self) -> (w: u64)
        ensures
            w == self.attr & ATTRS,
    {
        self.attr & ATTRS
    }

    pub open spec fn spec_underline_style(self) -> u64 {
        (self.attr & UNDERLINE_MASK) >> UNDERLINE_SHIFT
    }

    /// The underline style, 0 for none.
    pub fn underline_style(self) -> (u: u64)
        ensures
            u == self.spec_underline_style(),
            u < 8,
    {
        let a = self.attr;
        let u = (a & UNDERLINE_MASK) >> UNDERLINE_SHIFT;
        assert((a & UNDERLINE_MASK) >> 52u64 < 8) by (bit_vector);
        u
    }

    /// The word as sixty-four bits: bit 63 is the extended bit, 62..52 the attributes, and
    /// 51..0 either a handle or a foreground (51..26) and a background (25..0).
    pub fn bits(self) -> (w: u64)
        ensures
            self.extended ==> w == EXTENDED | (self.attr & ATTR_MASK) | (self.handle % HANDLE_LIMIT),
            !self.extended ==> w == (self.attr & ATTR_MASK) | ((self.fg.spec_code() * 0x400_0000
                + self.bg.spec_code()) as u64),
            !self.extended ==> w & EXTENDED == 0,
    {
        let attr = self.attr & ATTR_MASK;
        if self.extended {
            EXTENDED | attr | (self.handle % HANDLE_LIMIT)
        } else {
            let fg = (self.fg.tag() as u64) * 0x100_0000 + self.fg.payload() as u64;
            let bg = (self.bg.tag() as u64) * 0x100_0000 + self.bg.payload() as u64;
            let low = fg * 0x400_0000 + bg;
            assert(fg < 0x400_0000 && bg < 0x400_0000);
            assert(low < 0x10_0000_0000_0000) by (nonlinear_arith)
                requires fg < 0x400_0000, bg < 0x400_0000, low == fg * 0x400_0000 + bg;
            let w = attr | low;
            let a = self.attr;
            assert(w & EXTENDED == 0) by (bit_vector)
                requires attr == a & ATTR_MASK, low < 0x10_0000_0000_0000, w == attr | low;
            w
        }
    }

    pub open spec fn with_fg(self, c: Color) -> Style {
        Style { fg: c, ..self }
    }

    /// This word with a new inline foreground.
    pub fn fg(self, c: Color) -> (s: Style)
        ensures
            s == (Style { fg: c, ..self }),
    {
        Style { fg: c, ..self }
    }

    /// This word with a new inline background.
    pub fn bg(self, c: Color) -> (s: Style)
        ensures
            s == (Style { bg: c, ..self }),
    {
        Style { bg: c, ..self }
    }

    /// This word with one more attribute flag.
    pub fn with_flag(self, flag: u64) -> (s: Style)
        ensures
            s == (Style { attr: (self.attr | flag) & ATTR_MASK, ..self }),
    {
        Style { attr: (self.attr | flag) & ATTR_MASK, ..self }
    }

    pub fn bold(self) -> (s: Style)
        ensures
            s == (Style { attr: (self.attr | BOLD) & ATTR_MASK, ..self }),
    {
        self.with_flag(BOLD)
    }

    pub fn dim(self) -> (s: Style)
        ensures
            s == (Style { attr: (self.attr | DIM) & ATTR_MASK, ..self }),
    {
        self.with_flag(DIM)
    }

    pub fn italic(self) -> (s: Style)
        ensures
            s == (Style { attr: (self.attr | ITALIC) & ATTR_MASK, ..self }),
    {
        self.with_flag(ITALIC)
    }

    pub fn reverse(self) -> (s: Style)
        ensures
            s == (Style { attr: (self.attr | REVERSE) & ATTR_MASK, ..self }),
    {
        self.with_flag(REVERSE)
    }

    pub fn blink(self) -> (s: Style)
        ensures
            s == (Style { attr: (self.attr | BLINK) & ATTR_MASK, ..self }),
    {
        self.with_flag(BLINK)
    }

    pub fn strikethrough(self) -> (s: Style)
        ensures
            s == (Style { attr: (self.attr | STRIKETHROUGH) & ATTR_MASK, ..self }),
    {
        self.with_flag(STRIKETHROUGH)
    }

    pub fn conceal(self) -> (s: Style)
        ensures
            s == (Style { attr: (self.attr | CONCEAL) & ATTR_MASK, ..self }),
    {
        self.with_flag(CONCEAL)
    }

    pub fn overline(self) -> (s: Style)
        ensures
            s == (Style { attr: (self.attr | OVERLINE) & ATTR_MASK, ..self }),
    {
        self.with_flag(OVERLINE)
    }

    /// This word with underline style `n` (1..=5), replacing whatever style it had.
    pub fn with_underline(self, n: u64) -> (s: Style)
        requires
            1 <= n <= 5,
        ensures
            s == (Style {
                attr: ((self.attr & !UNDERLINE_MASK) | (n << UNDERLINE_SHIFT)) & ATTR_MASK,
                ..self
            }),
            s.spec_underline_style() == n,
    {
        let a = self.attr;
        let attr = ((a & !UNDERLINE_MASK) | (n << UNDERLINE_SHIFT)) & ATTR_MASK;
        assert((((((a & !UNDERLINE_MASK) | (n << 52u64)) & ATTR_MASK) & UNDERLINE_MASK)
            >> 52u64) == n) by (bit_vector)
            requires 1 <= n <= 5;
        Style { attr, ..self }
    }

    pub fn underline(self) -> (s: Style)
        ensures
            s.spec_underline_style() == 1,
            s == (Style { attr: ((self.attr & !UNDERLINE_MASK) | (1u64 << UNDERLINE_SHIFT)) & ATTR_MASK, ..self }),
    {
        self.with_underline(1)
    }

    pub fn underline_double(self) -> (s: Style)
        ensures
            s.spec_underline_style() == 2,
            s == (Style { attr: ((self.attr & !UNDERLINE_MASK) | (2u64 << UNDERLINE_SHIFT)) & ATTR_MASK, ..self }),
    {
        self.with_underline(2)
    }

    pub fn underline_curly(self) -> (s: Style)
        ensures
            s.spec_underline_style() == 3,
            s == (Style { attr: ((self.attr & !UNDERLINE_MASK) | (3u64 << UNDERLINE_SHIFT)) & ATTR_MASK, ..self }),
    {
        self.with_underline(3)
    }

    pub fn underline_dotted(self) -> (s: Style)
        ensures
            s.spec_underline_style() == 4,
            s == (Style { attr: ((self.attr & !UNDERLINE_MASK) | (4u64 << UNDERLINE_SHIFT)) & ATTR_MASK, ..self }),
    {
        self.with_underline(4)
    }

    pub fn underline_dashed(self) -> (s: Style)
        ensures
            s.spec_underline_style() == 5,
            s == (Style { attr: ((self.attr & !UNDERLINE_MASK) | (5u64 << UNDERLINE_SHIFT)) & ATTR_MASK, ..self }),
    {
        self.with_underline(5)
    }
}

/// A hyperlink handle: zero is no hyperlink, and `n` names the `n`th URI of the link table.
#[derive(Clone, Copy, PartialEq, Eq, Debug, Structural)]
pub struct LinkId {
    pub id: u32,
}

impl LinkId {
    /// No hyperlink.
    pub fn none() -> (l: LinkId)
        ensures
            l.id == 0,
    {
        LinkId { id: 0 }
    }

    pub fn is_none(self) -> (b: bool)
        ensures
            b == (self.id == 0),
    {
        self.id == 0
    }

    pub open spec fn spec_index(self) -> Option<usize> {
        if self.id == 0 {
            None
        } else {
            Some((self.id - 1) as usize)
        }
    }

    /// Where this link lives in the link table, or `None` for no link.
    pub fn index(self) -> (i: Option<usize>)
        ensures
            i == self.spec_index(),
    {
        if self.id == 0 {
            None
        } else {
            Some((self.id - 1) as usize)
        }
    }
}

/// The four channels of an extended style: the two colours, the underline colour and the link.
#[derive(Clone, Copy, PartialEq, Eq, Debug, Structural)]
pub struct ExtStyle {
    pub fg: Color,
    pub bg: Color,
    pub ul: Color,
    pub link: LinkId,
}

impl ExtStyle {
    pub open spec fn spec_is_extended(self) -> bool {
        self.ul != Color::Default || self.link.id != 0
    }

    /// Whether this entry needs the table: an underline colour or a hyperlink.
    pub fn is_extended(self) -> (b: bool)
        ensures
            b == self.spec_is_extended(),
    {
        !(self.ul == Color::Default) || self.link.id != 0
    }
}

/// What one cell shows: a scalar, an interned cluster, the right half of a wide glyph, or the
/// `EMPTY` sentinel that no composited frame holds.
#[derive(Clone, Copy, PartialEq, Eq, Debug, Structural)]
pub enum GraphemeId {
    Scalar { ch: char, wide: bool },
    Cluster { id: u32, wide: bool },
    Continuation,
    Empty,
}

impl GraphemeId {
    /// The right half of a wide glyph.
    pub const CONTINUATION: GraphemeId = GraphemeId::Continuation;
    /// The sentinel: nothing here.
    pub const EMPTY: GraphemeId = GraphemeId::Empty;

    /// A one-column scalar.
    pub fn scalar(ch: char) -> (g: GraphemeId)
        ensures
            g == (GraphemeId::Scalar { ch, wide: false }),
    {
        GraphemeId::Scalar { ch, wide: false }
    }

    /// A two-column scalar.
    pub fn wide_scalar(ch: char) -> (g: GraphemeId)
        ensures
            g == (GraphemeId::Scalar { ch, wide: true }),
    {
        GraphemeId::Scalar { ch, wide: true }
    }

    pub fn is_continuation(self) -> (b: bool)
        ensures
            b == (self is Continuation),
    {
        match self {
            GraphemeId::Continuation => true,
            _ => false,
        }
    }

    pub fn is_empty(self) -> (b: bool)
        ensures
            b == (self is Empty),
    {
        match self {
            GraphemeId::Empty => true,
            _ => false,
        }
    }

    pub open spec fn spec_as_scalar(self) -> Option<char> {
        match self {
            GraphemeId::Scalar { ch, .. } => Some(ch),
            _ => None,
        }
    }

    /// The scalar this handle is, if it is one.
    pub fn as_scalar(self) -> (c: Option<char>)
        ensures
            c == self.spec_as_scalar(),
    {
        match self {
            GraphemeId::Scalar { ch, .. } => Some(ch),
            _ => None,
        }
    }

    pub open spec fn spec_cluster_id(self) -> Option<u32> {
        match self {
            GraphemeId::Cluster { id, .. } => Some(id),
            _ => None,
        }
    }

    /// The interner index of a cluster handle.
    pub fn cluster_id(self) -> (c: Option<u32>)
        ensures
            c == self.spec_cluster_id(),
    {
        match self {
            GraphemeId::Cluster { id, .. } => Some(id),
            _ => None,
        }
    }

    pub open spec fn spec_columns(self) -> u16 {
        match self {
            GraphemeId::Scalar { wide, .. } => if wide { 2 } else { 1 },
            GraphemeId::Cluster { wide, .. } => if wide { 2 } else { 1 },
            _ => 0,
        }
    }

    /// How many columns the glyph covers.
    pub fn columns(self) -> (n: u16)
        ensures
            n == self.spec_columns(),
    {
        match self {
            GraphemeId::Scalar { wide, .. } => if wide { 2 } else { 1 },
            GraphemeId::Cluster { wide, .. } => if wide { 2 } else { 1 },
            _ => 0,
        }
    }

    pub open spec fn spec_is_ascii_scalar(self) -> bool {
        match self {
            GraphemeId::Scalar { ch, .. } => (ch as u32) < 0x80,
            _ => false,
        }
    }
}

/// One cell of a surface, a packet, or the mirror.
#[derive(Clone, Copy, PartialEq, Eq, Debug, Structural)]
pub struct Cell {
    pub grapheme: GraphemeId,
    pub style: Style,
}

impl Cell {
    pub fn new(grapheme: GraphemeId, style: Style) -> (c: Cell)
        ensures
            c == (Cell { grapheme, style }),
    {
        Cell { grapheme, style }
    }

    pub open spec fn spec_blank() -> Cell {
        Cell { grapheme: GraphemeId::Scalar { ch: ' ', wide: false }, style: Style::spec_default() }
    }

    pub open spec fn spec_unknown() -> Cell {
        Cell { grapheme: GraphemeId::Empty, style: Style::spec_default() }
    }

    /// A space in the terminal's own colours: what an erased cell shows.
    pub fn blank() -> (c: Cell)
        ensures
            c == Cell::spec_blank(),
    {
        Cell { grapheme: GraphemeId::Scalar { ch: ' ', wide: false }, style: Style::new() }
    }

    /// What the mirror holds where it does not know: the `EMPTY` sentinel.
    pub fn unknown() -> (c: Cell)
        ensures
            c == Cell::spec_unknown(),
    {
        Cell { grapheme: GraphemeId::Empty, style: Style::new() }
    }
}

} // verus!

//! `restyle`'s descriptor: what to rewrite, and the promise about everything else.
//!
//! > **`restyle` rewrites what the descriptor names and preserves every channel it does not, on
//! > either side of the extended bit.**
//!
//! And a descriptor that clears **both** extended channels puts the cell back inline: extended is
//! a cost, not a state.
use vstd::prelude::*;
use crate::style::{Color, ExtStyle, LinkId, Style, ATTR_MASK, HANDLE_LIMIT, UNDERLINE_SHIFT,
    spec_extended, spec_inline};
use crate::tables::{Tables, first_index, uri_view};

verus! {

/// A hyperlink named at the drawing verb: a URI, or no hyperlink at all.
#[derive(Clone, Copy, PartialEq, Eq, Debug)]
pub enum Link<'a> {
    /// No hyperlink: whatever the cell carried is taken away.
    Off,
    /// This URI.
    Uri(&'a str),
}

/// The eight attribute flags of the style word, shifted down to 0.
pub const FLAGS: u16 = 0b111_1111_1000;
/// The three-bit underline style, at 2..0. A value, not a set of flags.
pub const UNDERLINE_FIELD: u16 = 0b111;
/// The highest underline style that names anything.
pub const UNDERLINE_MAX: u16 = 5;

/// What to change about the cells a restyle covers. `None`, or a zero mask, leaves that channel
/// exactly as it is.
#[derive(Clone, Copy, PartialEq, Eq, Debug, Default)]
pub struct Restyle<'a> {
    /// The new foreground, or `None` to keep the old one.
    pub fg: Option<Color>,
    /// The new background, or `None` to keep the old one.
    pub bg: Option<Color>,
    /// Attributes to add.
    pub set: u16,
    /// Attributes to remove. Removal happens first, so a bit named by both ends up set.
    pub clear: u16,
    /// The underline's own colour. `Some(Color::DEFAULT)` clears it.
    pub ul: Option<Color>,
    /// The hyperlink. `Some(Link::Off)` clears it and `None` leaves it alone.
    pub link: Option<Link<'a>>,
}

impl Restyle<'_> {
    pub const BOLD: u16 = 1 << 10;
    pub const DIM: u16 = 1 << 9;
    pub const ITALIC: u16 = 1 << 8;
    pub const REVERSE: u16 = 1 << 7;
    pub const BLINK: u16 = 1 << 6;
    pub const STRIKETHROUGH: u16 = 1 << 5;
    pub const CONCEAL: u16 = 1 << 4;
    pub const OVERLINE: u16 = 1 << 3;
    /// Singly underlined. The underline style is a value that replaces the field as a unit.
    pub const UNDERLINE: u16 = 1;
    pub const UNDERLINE_DOUBLE: u16 = 2;
    pub const UNDERLINE_CURLY: u16 = 3;
    pub const UNDERLINE_DOTTED: u16 = 4;
    pub const UNDERLINE_DASHED: u16 = 5;
    /// What to put in `clear` to remove an underline of any style.
    pub const UNDERLINE_ANY: u16 = 7;
}

/// The eleven attribute bits after a descriptor's `set` and `clear` have been applied.
pub open spec fn spec_attrs_of(attr_word: u64, set: u16, clear: u16) -> u16 {
    let attrs = ((attr_word >> UNDERLINE_SHIFT) & 0x7FF) as u16;
    let attrs = (attrs & !(clear & FLAGS)) | (set & FLAGS);
    let s = set & UNDERLINE_FIELD;
    let c = clear & UNDERLINE_FIELD;
    if s != 0 && s <= UNDERLINE_MAX {
        (attrs & !UNDERLINE_FIELD) | s
    } else if c != 0 {
        attrs & !UNDERLINE_FIELD
    } else {
        attrs
    }
}

/// The eleven attribute bits after a descriptor has been applied to them, shifted down to 0.
pub fn attrs_of(old: Style, d: &Restyle<'_>) -> (a: u16)
    ensures
        a == spec_attrs_of(old.attr, d.set, d.clear),
        a < 2048,
{
    let w = old.attr;
    let mut attrs = ((w >> UNDERLINE_SHIFT) & 0x7FF) as u16;
    attrs = (attrs & !(d.clear & FLAGS)) | (d.set & FLAGS);
    let set = d.set & UNDERLINE_FIELD;
    let clear = d.clear & UNDERLINE_FIELD;
    let a0 = attrs;
    assert(((w >> 52u64) & 0x7FFu64) < 2048) by (bit_vector);
    let base = ((w >> UNDERLINE_SHIFT) & 0x7FF) as u16;
    let (dc, ds) = (d.clear, d.set);
    assert(((base & !(dc & FLAGS)) | (ds & FLAGS)) < 2048) by (bit_vector)
        requires base < 2048;
    if set != 0 && set <= UNDERLINE_MAX {
        attrs = (attrs & !UNDERLINE_FIELD) | set;
        assert(((a0 & !UNDERLINE_FIELD) | set) < 2048) by (bit_vector)
            requires a0 < 2048, set < 8;
    } else if clear != 0 {
        attrs = attrs & !UNDERLINE_FIELD;
        assert((a0 & !UNDERLINE_FIELD) < 2048) by (bit_vector)
            requires a0 < 2048;
    }
    attrs
}

/// What `set` and `clear` mean, bit by bit: a flag named by `set` ends set, a flag named only by
/// `clear` ends clear, and a flag neither names is carried across. The underline field is replaced
/// by a `set` that names a style, emptied by a `clear` that names any, and otherwise carried.
pub proof fn lemma_attrs_of(attr_word: u64, set: u16, clear: u16, bit: u16)
    requires
        bit < 11,
    ensures
        ({
            let old = ((attr_word >> UNDERLINE_SHIFT) & 0x7FF) as u16;
            let new = spec_attrs_of(attr_word, set, clear);
            let m = (1u16 << bit);
            &&& bit >= 3 && set & m != 0 ==> new & m != 0
            &&& bit >= 3 && set & m == 0 && clear & m != 0 ==> new & m == 0
            &&& bit >= 3 && set & m == 0 && clear & m == 0 ==> new & m == old & m
            &&& (set & 7 != 0 && set & 7 <= 5) ==> new & 7 == set & 7
            &&& !(set & 7 != 0 && set & 7 <= 5) && clear & 7 != 0 ==> new & 7 == 0
            &&& !(set & 7 != 0 && set & 7 <= 5) && clear & 7 == 0 ==> new & 7 == old & 7
        }),
{
    let old = ((attr_word >> UNDERLINE_SHIFT) & 0x7FF) as u16;
    let m = (1u16 << bit);
    let a1 = (old & !(clear & FLAGS)) | (set & FLAGS);
    let s = set & UNDERLINE_FIELD;
    let c = clear & UNDERLINE_FIELD;
    assert(bit >= 3 && set & m != 0 ==> a1 & m != 0 && ((a1 & !7u16) | s) & m != 0 && (a1 & !7u16) & m != 0)
        by (bit_vector)
        requires bit < 11, m == (1u16 << bit), a1 == (old & !(clear & 0b111_1111_1000u16)) | (set & 0b111_1111_1000u16), s == set & 7u16;
    assert(bit >= 3 && set & m == 0 && clear & m != 0 ==> a1 & m == 0 && ((a1 & !7u16) | s) & m == 0 && (a1 & !7u16) & m == 0)
        by (bit_vector)
        requires bit < 11, m == (1u16 << bit), a1 == (old & !(clear & 0b111_1111_1000u16)) | (set & 0b111_1111_1000u16), s == set & 7u16;
    assert(bit >= 3 && set & m == 0 && clear & m == 0 ==> a1 & m == old & m && ((a1 & !7u16) | s) & m == old & m && (a1 & !7u16) & m == old & m)
        by (bit_vector)
        requires bit < 11, m == (1u16 << bit), a1 == (old & !(clear & 0b111_1111_1000u16)) | (set & 0b111_1111_1000u16), s == set & 7u16;
    assert(((a1 & !7u16) | s) & 7 == s && (a1 & !7u16) & 7 == 0 && a1 & 7 == old & 7)
        by (bit_vector)
        requires a1 == (old & !(clear & 0b111_1111_1000u16)) | (set & 0b111_1111_1000u16), s == set & 7u16;
}

/// A descriptor that sets and clears nothing leaves the eleven attribute bits as they were.
pub proof fn lemma_no_attribute_changes(attr: u64)
    ensures
        ((spec_attrs_of(attr, 0, 0) as u64) << UNDERLINE_SHIFT) & ATTR_MASK == attr
            & ATTR_MASK,
        (((spec_attrs_of(attr, 0, 0) as u64) << UNDERLINE_SHIFT) & ATTR_MASK) & ATTR_MASK
            == attr & ATTR_MASK,
{
    let a = #[verifier::truncate] (((attr >> 52u64) & 0x7FFu64) as u16);
    assert(((attr >> 52u64) & 0x7FFu64) < 2048) by (bit_vector);
    let a1 = (a & !(0u16 & 0b111_1111_1000u16)) | (0u16 & 0b111_1111_1000u16);
    assert(a1 == a) by (bit_vector)
        requires a1 == (a & !(0u16 & 0b111_1111_1000u16)) | (0u16 & 0b111_1111_1000u16);
    assert(0u16 & 7u16 == 0 && 0u16 & 0b111_1111_1000u16 == 0) by (bit_vector);
    assert(spec_attrs_of(attr, 0, 0) == a1);
    assert(((a as u64) << 52u64) & 0x7FF0_0000_0000_0000u64 == attr & 0x7FF0_0000_0000_0000u64)
        by (bit_vector)
        requires a as u64 == (attr >> 52u64) & 0x7FFu64;
    let w = ((a as u64) << 52u64) & 0x7FF0_0000_0000_0000u64;
    assert(w & 0x7FF0_0000_0000_0000u64 == w) by (bit_vector)
        requires w == ((a as u64) << 52u64) & 0x7FF0_0000_0000_0000u64;
}

/// Whether a style word's handle, if it has one, names an entry of `tables`.
pub open spec fn valid_style(tables: &Tables, s: Style) -> bool {
    s.extended ==> s.handle < tables.exts.entries@.len()
}

/// The four channels a style word carries, whichever side of the extended bit it is on.
pub open spec fn spec_channels(tables: &Tables, s: Style) -> ExtStyle {
    if s.extended {
        tables.exts.entries@[s.handle as int]
    } else {
        ExtStyle { fg: s.fg, bg: s.bg, ul: Color::Default, link: LinkId { id: 0 } }
    }
}

/// The four channels a style carries, whichever side of the extended bit it is on. An inline word
/// has no underline colour and no hyperlink by construction.
pub fn channels(tables: &Tables, prev: Style) -> (e: ExtStyle)
    requires
        valid_style(tables, prev),
    ensures
        e == spec_channels(tables, prev),
{
    match prev.ext_handle() {
        Some(h) => {
            let e = tables.exts.get(h);
            match e {
                Some(e) => e,
                None => ExtStyle {
                    fg: Color::Default,
                    bg: Color::Default,
                    ul: Color::Default,
                    link: LinkId::none(),
                },
            }
        },
        None => ExtStyle {
            fg: prev.foreground(),
            bg: prev.background(),
            ul: Color::Default,
            link: LinkId::none(),
        },
    }
}

/// The [`LinkId`] a descriptor names, interned into `tables` once per verb call. `None` leaves the
/// channel alone and `Some(LinkId::none())` clears it.
pub fn intern_link(tables: &mut Tables, d: &Restyle<'_>) -> (l: Option<LinkId>)
    requires
        old(tables).links.uris@.len() + 1 < u32::MAX,
    ensures
        final(tables).exts == old(tables).exts,
        final(tables).links_in_key == old(tables).links_in_key,
        final(tables).interner == old(tables).interner,
        final(tables).links.uris@.len() <= old(tables).links.uris@.len() + 1,
        d.link is None ==> l is None && final(tables).links.uris@ == old(tables).links.uris@,
        d.link == Some(Link::Off) ==> l == Some(LinkId { id: 0 }) && final(tables).links.uris@
            == old(tables).links.uris@,
        d.link matches Some(Link::Uri(u)) ==> l matches Some(id) && id.id >= 1 && first_index(
            uri_view(final(tables).links.uris@),
            u@,
            id.id - 1,
        ),
{
    match d.link {
        None => None,
        Some(Link::Off) => Some(LinkId::none()),
        Some(Link::Uri(uri)) => Some(tables.link(uri)),
    }
}

/// The channels a descriptor leaves a style with, before interning.
pub open spec fn spec_restyled(
    tables: &Tables,
    d: Restyle<'_>,
    link: Option<LinkId>,
    prev: Style,
) -> ExtStyle {
    let e = spec_channels(tables, prev);
    ExtStyle {
        fg: match d.fg { Some(c) => c, None => e.fg },
        bg: match d.bg { Some(c) => c, None => e.bg },
        ul: match d.ul { Some(c) => c, None => e.ul },
        link: match link { Some(l) => l, None => e.link },
    }
}

/// The table only grows: every handle minted before is still minted, and names the same entry.
pub open spec fn grows(before: Seq<ExtStyle>, after: Seq<ExtStyle>) -> bool {
    before.len() <= after.len() && forall|i: int| 0 <= i < before.len() ==> after[i] == before[i]
}

/// The handle `e` is interned at in `entries`: its first occurrence, or a new one at the end.
pub open spec fn spec_intern_handle(entries: Seq<ExtStyle>, e: ExtStyle) -> int {
    if entries.contains(e) {
        choose|i: int| first_index(entries, e, i)
    } else {
        entries.len() as int
    }
}

/// The entries after interning `e`.
pub open spec fn spec_interned(entries: Seq<ExtStyle>, e: ExtStyle) -> Seq<ExtStyle> {
    if entries.contains(e) {
        entries
    } else {
        entries.push(e)
    }
}

/// What [`apply`] answers: a function of the table's entries, the descriptor, the interned link
/// and the old word, and of nothing else.
pub open spec fn spec_apply(tables: &Tables, d: Restyle<'_>, link: Option<LinkId>, prev: Style) -> Style {
    let e = tables.spec_key(spec_restyled(tables, d, link, prev));
    let attrs = (spec_attrs_of(prev.attr, d.set, d.clear) as u64) << UNDERLINE_SHIFT;
    if e.spec_is_extended() {
        spec_extended(attrs, spec_intern_handle(tables.exts.entries@, e) as u64)
    } else {
        spec_inline(attrs, e.fg, e.bg)
    }
}

/// Whatever a sequence contains has a first index in it.
pub proof fn lemma_first_index_exists(entries: Seq<ExtStyle>, e: ExtStyle)
    requires
        entries.contains(e),
    ensures
        exists|i: int| first_index(entries, e, i),
{
    let k = choose|k: int| 0 <= k < entries.len() && entries[k] == e;
    lemma_first_index_below(entries, e, k);
}

proof fn lemma_first_index_below(entries: Seq<ExtStyle>, e: ExtStyle, k: int)
    requires
        0 <= k < entries.len(),
        entries[k] == e,
    ensures
        exists|i: int| first_index(entries, e, i),
    decreases k,
{
    if forall|j: int| 0 <= j < k ==> entries[j] != e {
        assert(first_index(entries, e, k));
    } else {
        let j = choose|j: int| 0 <= j < k && entries[j] == e;
        lemma_first_index_below(entries, e, j);
    }
}

/// A first index is the only first index.
pub proof fn lemma_first_index_unique(entries: Seq<ExtStyle>, e: ExtStyle, i: int)
    requires
        first_index(entries, e, i),
    ensures
        spec_intern_handle(entries, e) == i,
{
    assert(entries.contains(e));
    let j = choose|j: int| first_index(entries, e, j);
    if j < i {
        assert(entries[j] != e);
    } else if j > i {
        assert(entries[i] != e);
    }
}

/// **Applying a descriptor again, against a table that has only grown since, answers the same
/// word.** What makes a settled operator converge after one frame, and what keeps two cells that
/// look identical comparing equal.
pub proof fn lemma_apply_is_stable(
    before: &Tables,
    after: &Tables,
    d: Restyle<'_>,
    link: Option<LinkId>,
    prev: Style,
)
    requires
        valid_style(before, prev),
        before.links_in_key == after.links_in_key,
        grows(before.exts.entries@, after.exts.entries@),
        ({
            let e = before.spec_key(spec_restyled(before, d, link, prev));
            e.spec_is_extended() ==> grows(spec_interned(before.exts.entries@, e), after.exts.entries@)
        }),
    ensures
        spec_apply(after, d, link, prev) == spec_apply(before, d, link, prev),
{
    let e = before.spec_key(spec_restyled(before, d, link, prev));
    assert(spec_channels(after, prev) == spec_channels(before, prev));
    if e.spec_is_extended() {
        let b = before.exts.entries@;
        let a = after.exts.entries@;
        if b.contains(e) {
            lemma_first_index_exists(b, e);
            let i = choose|i: int| first_index(b, e, i);
            lemma_first_index_unique(b, e, i);
            assert(first_index(a, e, i));
            lemma_first_index_unique(a, e, i);
        } else {
            let k = b.len() as int;
            assert forall|j: int| 0 <= j < k implies a[j] != e by {
                assert(a[j] == b[j]);
                if b[j] == e {
                    assert(b.contains(e));
                }
            }
            assert(spec_interned(b, e)[k] == e);
            assert(first_index(a, e, k));
            lemma_first_index_unique(a, e, k);
        }
    }
}

/// **The same result twice is the same handle.** Applying a descriptor again to the same word,
/// against a table that has only grown since the first application interned its entry, answers
/// the same word and mints nothing more.
pub proof fn lemma_apply_again_mints_nothing(
    before: &Tables,
    later: &Tables,
    d: Restyle<'_>,
    link: Option<LinkId>,
    prev: Style,
)
    requires
        valid_style(before, prev),
        before.links_in_key == later.links_in_key,
        grows(before.exts.entries@, later.exts.entries@),
        ({
            let e = before.spec_key(spec_restyled(before, d, link, prev));
            e.spec_is_extended() ==> grows(spec_interned(before.exts.entries@, e), later.exts.entries@)
        }),
    ensures
        spec_apply(later, d, link, prev) == spec_apply(before, d, link, prev),
        ({
            let e = later.spec_key(spec_restyled(later, d, link, prev));
            e.spec_is_extended() ==> spec_interned(later.exts.entries@, e) == later.exts.entries@
        }),
{
    lemma_apply_is_stable(before, later, d, link, prev);
    assert(spec_channels(later, prev) == spec_channels(before, prev));
    let e = before.spec_key(spec_restyled(before, d, link, prev));
    if e.spec_is_extended() {
        let b = before.exts.entries@;
        let k = spec_intern_handle(b, e);
        if b.contains(e) {
            let j = choose|j: int| 0 <= j < b.len() && b[j] == e;
            assert(later.exts.entries@[j] == e);
        } else {
            assert(spec_interned(b, e)[b.len() as int] == e);
            assert(later.exts.entries@[b.len() as int] == e);
        }
        assert(later.exts.entries@.contains(e));
    }
}

/// Whether a descriptor names nothing: no colour, no attribute, no underline colour.
pub open spec fn names_nothing(d: Restyle<'_>) -> bool {
    d.fg is None && d.bg is None && d.ul is None && d.set == 0 && d.clear == 0
}

/// Interning an entry that needs the table, as its own key, keeps the table well formed.
proof fn lemma_interned_wf(before: &Tables, after: &Tables, e: ExtStyle)
    requires
        before.wf(),
        after.links_in_key == before.links_in_key,
        e.spec_is_extended(),
        before.spec_key(e) == e,
        after.exts.entries@ == spec_interned(before.exts.entries@, e),
    ensures
        after.wf(),
{
    let b = before.exts.entries@;
    let a = after.exts.entries@;
    if !b.contains(e) {
        assert forall|i: int| 0 <= i < a.len() implies {
            &&& (#[trigger] a[i]).spec_is_extended()
            &&& after.spec_key(a[i]) == a[i]
            &&& first_index(a, a[i], i)
        } by {
            if i < b.len() {
                assert(a[i] == b[i]);
                assert(first_index(b, b[i], i));
            } else {
                assert forall|j: int| 0 <= j < i implies a[j] != a[i] by {
                    assert(a[j] == b[j]);
                }
            }
        }
    }
}

/// **A descriptor that names nothing changes nothing and mints nothing**: on a well-formed word
/// whose handle, if any, the table holds, it answers the same word, and the table stays as it is.
pub proof fn lemma_naming_nothing_changes_nothing(tables: &Tables, d: Restyle<'_>, prev: Style)
    requires
        tables.wf(),
        prev.wf(),
        valid_style(tables, prev),
        names_nothing(d),
    ensures
        spec_apply(tables, d, None, prev) == prev,
        ({
            let e = tables.spec_key(spec_restyled(tables, d, None, prev));
            &&& e.spec_is_extended() == prev.extended
            &&& e.spec_is_extended() ==> spec_interned(tables.exts.entries@, e) == tables.exts.entries@
        }),
{
    lemma_no_attribute_changes(prev.attr);
    crate::style::lemma_masked_is_attrs(prev.attr);
    let e = tables.spec_key(spec_restyled(tables, d, None, prev));
    if prev.extended {
        let h = prev.handle as int;
        assert(e == tables.exts.entries@[h]);
        assert(first_index(tables.exts.entries@, e, h));
        lemma_first_index_unique(tables.exts.entries@, e, h);
        assert(tables.exts.entries@.contains(e));
        assert(prev.handle % HANDLE_LIMIT == prev.handle);
    }
}

/// Apply a descriptor to one style word, minting a table entry only if the result needs one.
///
/// Every channel the descriptor does not name is carried across untouched, and the result lands
/// inline whenever both extended channels are clear.
pub fn apply(tables: &mut Tables, d: &Restyle<'_>, link: Option<LinkId>, prev: Style) -> (s: Style)
    requires
        prev.wf(),
        valid_style(old(tables), prev),
        old(tables).exts.entries@.len() + 1 < HANDLE_LIMIT,
    ensures
        s.wf(),
        old(tables).wf() ==> final(tables).wf(),
        old(tables).wf() && names_nothing(*d) && link is None ==> s == prev
            && final(tables).exts.entries@ == old(tables).exts.entries@,
        ({
            let e = old(tables).spec_key(spec_restyled(old(tables), *d, link, prev));
            let attrs = (spec_attrs_of(prev.attr, d.set, d.clear) as u64) << UNDERLINE_SHIFT;
            &&& final(tables).links == old(tables).links
            &&& final(tables).interner == old(tables).interner
            &&& final(tables).links_in_key == old(tables).links_in_key
            &&& grows(old(tables).exts.entries@, final(tables).exts.entries@)
            &&& final(tables).exts.entries@.len() <= old(tables).exts.entries@.len() + 1
            &&& valid_style(final(tables), s)
            &&& spec_channels(final(tables), s) == e
            &&& s.extended == e.spec_is_extended()
            &&& !e.spec_is_extended() ==> s == spec_inline(attrs, e.fg, e.bg) && final(tables).exts
                == old(tables).exts
            &&& e.spec_is_extended() ==> first_index(final(tables).exts.entries@, e, s.handle as int)
                && s == spec_extended(attrs, s.handle)
            &&& s.attr == attrs & ATTR_MASK
            &&& s == spec_apply(old(tables), *d, link, prev)
            &&& e.spec_is_extended() ==> final(tables).exts.entries@ == spec_interned(old(tables).exts.entries@, e)
        }),
{
    let a = attrs_of(prev, d);
    let attrs = (a as u64) << UNDERLINE_SHIFT;
    let mut e = channels(tables, prev);
    if let Some(c) = d.fg {
        e.fg = c;
    }
    if let Some(c) = d.bg {
        e.bg = c;
    }
    if let Some(c) = d.ul {
        e.ul = c;
    }
    if let Some(l) = link {
        e.link = l;
    }
    let e = tables.key(e);
    proof {
        if old(tables).wf() && names_nothing(*d) && link is None {
            lemma_naming_nothing_changes_nothing(old(tables), *d, prev);
        }
    }
    if e.is_extended() {
        let h = tables.exts.handle(e);
        proof {
            lemma_first_index_unique(tables.exts.entries@, e, h as int);
            if old(tables).exts.entries@.contains(e) {
                lemma_first_index_exists(old(tables).exts.entries@, e);
                let i = choose|i: int| first_index(old(tables).exts.entries@, e, i);
                assert(first_index(tables.exts.entries@, e, i));
                lemma_first_index_unique(tables.exts.entries@, e, i);
                lemma_first_index_unique(old(tables).exts.entries@, e, i);
            }
        }
        assert(h < HANDLE_LIMIT);
        assert(h % HANDLE_LIMIT == h);
        proof {
            if old(tables).wf() {
                lemma_interned_wf(old(tables), tables, e);
            }
        }
        Style::extended(attrs, h)
    } else {
        Style::inline(attrs, e.fg, e.bg)
    }
}

} // verus!

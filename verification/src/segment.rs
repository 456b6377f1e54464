//! Whether two clusters emitted back to back could be read by a terminal as one.
//!
//! UAX #29 keeps two scalars together only through a handful of rules: an `Extend`, `ZWJ` or
//! `SpacingMark` after anything (GB9, GB9a), anything after a `Prepend` (GB9b), the Indic conjunct
//! rule, a pictograph after `ZWJ` (GB11), a pair of regional indicators (GB12, GB13), the Hangul
//! syllable rules (GB6 to GB8) and `CR LF` (GB3). So a pair is certainly split when the second
//! begins with a scalar none of those rules can hold on the right, and the first ends with one
//! none of them can hold on the left. [`safe_next`] and [`safe_prev`] are those two sets, written
//! as blocks of the code space that hold no such scalar; anything outside them is answered
//! "may join", which costs a cursor move and never a mis-segmented cell.
use vstd::prelude::*;
use crate::packet::Packet;
use crate::style::GraphemeId;
use crate::wire::spec_text_of;

verus! {

/// A scalar no rule of UAX #29 keeps attached to what precedes it: ASCII graphics, the Latin,
/// Greek and Cyrillic letters before the first combining block of each, the arrows through the
/// braille patterns, kana without its voicing marks, the CJK ideographs, and the emoji that are
/// not skin-tone modifiers.
pub open spec fn safe_next(c: u32) -> bool {
    ||| 0x20 <= c <= 0x7E
    ||| 0xA0 <= c <= 0x2FF
    ||| 0x370 <= c <= 0x482
    ||| 0x2190 <= c <= 0x2BFF
    ||| 0x3040 <= c <= 0x3098
    ||| 0x309B <= c <= 0x30FF
    ||| 0x4E00 <= c <= 0x9FFF
    ||| 0x1F300 <= c <= 0x1F3FA
    ||| 0x1F400 <= c <= 0x1F64F
}

/// A scalar no rule of UAX #29 keeps attached to what follows it, given that what follows is
/// [`safe_next`]: anything but `CR`, a `Prepend`, `ZWJ`, a regional indicator or a Hangul jamo or
/// syllable.
pub open spec fn safe_prev(c: u32) -> bool {
    &&& c != 0x0D
    &&& !(0x600 <= c <= 0x605)
    &&& c != 0x6DD
    &&& c != 0x70F
    &&& !(0x890 <= c <= 0x891)
    &&& c != 0x8E2
    &&& c != 0x200D
    &&& !(0x1100 <= c <= 0x11FF)
    &&& !(0xA960 <= c <= 0xA97F)
    &&& !(0xAC00 <= c <= 0xD7FF)
    &&& !(0x11000 <= c <= 0x11FFF)
    &&& !(0x1F1E6 <= c <= 0x1F1FF)
}

/// The scalar a UTF-8 sequence begins with, decoded from its lead byte.
pub open spec fn lead_scalar(b: Seq<u8>) -> Option<u32> {
    if b.len() == 0 {
        None
    } else if b[0] < 0x80 {
        Some(b[0] as u32)
    } else if 0xC0 <= b[0] < 0xE0 && b.len() >= 2 {
        Some((((b[0] & 0x1F) as u32) << 6u32) | ((b[1] & 0x3F) as u32))
    } else if 0xE0 <= b[0] < 0xF0 && b.len() >= 3 {
        Some((((b[0] & 0x0F) as u32) << 12u32) | (((b[1] & 0x3F) as u32) << 6u32) | ((b[2] & 0x3F) as u32))
    } else if 0xF0 <= b[0] && b.len() >= 4 {
        Some((((b[0] & 0x07) as u32) << 18u32) | (((b[1] & 0x3F) as u32) << 12u32) | (((b[2] & 0x3F) as u32) << 6u32) | ((b[3] & 0x3F) as u32))
    } else {
        None
    }
}

/// The scalar a UTF-8 sequence ends with: the last lead byte within four of the end, decoded.
pub open spec fn trail_scalar(b: Seq<u8>) -> Option<u32> {
    let n = b.len() as int;
    if n == 0 {
        None
    } else if b[n - 1] < 0x80 {
        Some(b[n - 1] as u32)
    } else if n >= 2 && b[n - 2] >= 0xC0 {
        lead_scalar(b.subrange(n - 2, n))
    } else if n >= 3 && b[n - 3] >= 0xC0 {
        lead_scalar(b.subrange(n - 3, n))
    } else if n >= 4 && b[n - 4] >= 0xC0 {
        lead_scalar(b.subrange(n - 4, n))
    } else {
        None
    }
}

/// Whether `next`, written straight after `prev`, may be read as part of the same cluster. Two
/// ASCII scalars never join; a handle with no text this packet carries answers no.
pub open spec fn may_join(prev: GraphemeId, next: GraphemeId, p: &Packet) -> bool {
    if prev.spec_is_ascii_scalar() && next.spec_is_ascii_scalar() {
        false
    } else {
        match (spec_text_of(prev, p), spec_text_of(next, p)) {
            (Some(a), Some(b)) => match (trail_scalar(a), lead_scalar(b)) {
                (Some(l), Some(f)) => !(safe_prev(l) && safe_next(f)),
                _ => false,
            },
            _ => false,
        }
    }
}

/// The scalar a byte sequence begins with.
pub fn lead_of(b: &[u8]) -> (c: Option<u32>)
    ensures
        c == lead_scalar(b@),
{
    let n = b.len();
    if n == 0 {
        return None;
    }
    let b0 = b[0];
    if b0 < 0x80 {
        Some(b0 as u32)
    } else if 0xC0 <= b0 && b0 < 0xE0 && n >= 2 {
        Some((((b0 & 0x1F) as u32) << 6u32) | ((b[1] & 0x3F) as u32))
    } else if 0xE0 <= b0 && b0 < 0xF0 && n >= 3 {
        Some((((b0 & 0x0F) as u32) << 12u32) | (((b[1] & 0x3F) as u32) << 6u32) | ((b[2] & 0x3F) as u32))
    } else if 0xF0 <= b0 && n >= 4 {
        Some((((b0 & 0x07) as u32) << 18u32) | (((b[1] & 0x3F) as u32) << 12u32) | (((b[2] & 0x3F) as u32) << 6u32) | ((b[3] & 0x3F) as u32))
    } else {
        None
    }
}

/// The scalar a byte sequence ends with.
pub fn trail_of(b: &[u8]) -> (c: Option<u32>)
    ensures
        c == trail_scalar(b@),
{
    let n = b.len();
    if n == 0 {
        None
    } else if b[n - 1] < 0x80 {
        Some(b[n - 1] as u32)
    } else if n >= 2 && b[n - 2] >= 0xC0 {
        lead_of(vstd::slice::slice_subrange(b, n - 2, n))
    } else if n >= 3 && b[n - 3] >= 0xC0 {
        lead_of(vstd::slice::slice_subrange(b, n - 3, n))
    } else if n >= 4 && b[n - 4] >= 0xC0 {
        lead_of(vstd::slice::slice_subrange(b, n - 4, n))
    } else {
        None
    }
}

/// The first and last scalar of a handle's text, where it has any in this packet.
pub fn ends_of(g: GraphemeId, p: &Packet) -> (r: Option<(Option<u32>, Option<u32>)>)
    requires
        p.wf(),
    ensures
        match spec_text_of(g, p) {
            Some(t) => r == Some((lead_scalar(t), trail_scalar(t))),
            None => r is None,
        },
{
    match g {
        GraphemeId::Scalar { ch, .. } => {
            let mut buf: Vec<u8> = Vec::new();
            crate::wire::push_char(&mut buf, ch);
            assert(buf@ =~= vstd::utf8::encode_scalar(ch as u32));
            Some((lead_of(buf.as_slice()), trail_of(buf.as_slice())))
        },
        GraphemeId::Cluster { .. } => match p.cluster(g) {
            Some(b) => Some((lead_of(b), trail_of(b))),
            None => None,
        },
        _ => None,
    }
}

/// Whether a scalar is one [`safe_next`] admits.
pub fn is_safe_next(c: u32) -> (b: bool)
    ensures
        b == safe_next(c),
{
    (0x20 <= c && c <= 0x7E) || (0xA0 <= c && c <= 0x2FF) || (0x370 <= c && c <= 0x482) || (0x2190
        <= c && c <= 0x2BFF) || (0x3040 <= c && c <= 0x3098) || (0x309B <= c && c <= 0x30FF) || (
    0x4E00 <= c && c <= 0x9FFF) || (0x1F300 <= c && c <= 0x1F3FA) || (0x1F400 <= c && c <= 0x1F64F)
}

/// Whether a scalar is one [`safe_prev`] admits.
pub fn is_safe_prev(c: u32) -> (b: bool)
    ensures
        b == safe_prev(c),
{
    c != 0x0D && !(0x600 <= c && c <= 0x605) && c != 0x6DD && c != 0x70F && !(0x890 <= c && c
        <= 0x891) && c != 0x8E2 && c != 0x200D && !(0x1100 <= c && c <= 0x11FF) && !(0xA960 <= c
        && c <= 0xA97F) && !(0xAC00 <= c && c <= 0xD7FF) && !(0x11000 <= c && c <= 0x11FFF) && !(
    0x1F1E6 <= c && c <= 0x1F1FF)
}

/// Whether the cluster about to be emitted could join the one emitted just before it.
pub fn joins(prev: GraphemeId, next: GraphemeId, p: &Packet) -> (b: bool)
    requires
        p.wf(),
    ensures
        b == may_join(prev, next, p),
{
    if crate::wire::is_ascii_scalar(prev) && crate::wire::is_ascii_scalar(next) {
        return false;
    }
    let a = ends_of(prev, p);
    let b = ends_of(next, p);
    match (a, b) {
        (Some((_, Some(last))), Some((Some(first), _))) => !(is_safe_prev(last) && is_safe_next(first)),
        _ => false,
    }
}

} // verus!

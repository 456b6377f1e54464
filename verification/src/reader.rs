//! The input thread's decisions: what a read does to the terminal's size, whether the app thread
//! is woken for it, and whether the parser's diagnostics are worth publishing again.
//!
//! The thread itself reads, parses and posts; what it decides between those steps is here, as a
//! state and the events that move it.
use vstd::prelude::*;

verus! {

/// The size a measurement asks the screen to take, where there is one to believe: a size that
/// moved and has no zero in it. A zero size is a terminal going away, not a screen to draw.
pub open spec fn spec_resize_to(before: (u16, u16), measured: Option<(u16, u16)>) -> Option<(u16, u16)> {
    match measured {
        Some(now) => if now != before && now.0 > 0 && now.1 > 0 {
            Some(now)
        } else {
            None
        },
        None => None,
    }
}

/// **A measured size is published exactly when it moved**: a size with no zero in it, measured
/// after a read, is taken and handed on when it differs from the published one in either
/// dimension, and otherwise nothing happens; a zero anywhere, or no measurement, is never taken.
pub proof fn lemma_a_moved_size_is_published(before: (u16, u16), measured: Option<(u16, u16)>)
    ensures
        measured is Some && measured->Some_0.0 > 0 && measured->Some_0.1 > 0 ==> (spec_resize_to(before, measured) is Some
            <==> (measured->Some_0.0 != before.0 || measured->Some_0.1 != before.1)),
        spec_resize_to(before, measured) matches Some(r) ==> measured == Some(r) && r.0 > 0 && r.1 > 0
            && (r.0 != before.0 || r.1 != before.1),
{
}

/// What the input thread knows between reads: the size it last published, and the diagnostic
/// count it last published.
pub struct ReadState {
    size: (u16, u16),
    published: u64,
}

impl ReadState {
    pub closed spec fn spec_size(&self) -> (u16, u16) {
        self.size
    }

    pub closed spec fn spec_published(&self) -> u64 {
        self.published
    }

    /// The state at startup: the size attach measured, and nothing published.
    pub fn new(size: (u16, u16)) -> (s: ReadState)
        ensures
            s.spec_size() == size,
            s.spec_published() == 0,
    {
        ReadState { size, published: 0 }
    }

    /// The size the screen was last told.
    pub fn size(&self) -> (s: (u16, u16))
        ensures
            s == self.spec_size(),
    {
        self.size
    }

    /// A read arrived and the terminal measured `measured`, before the read is parsed: the resize
    /// to queue ahead of whatever the read parses to, if any. The size is taken at once, so the
    /// frame composed after this read is composed at it.
    pub fn resize(&mut self, measured: Option<(u16, u16)>) -> (r: Option<(u16, u16)>)
        ensures
            r == spec_resize_to(old(self).spec_size(), measured),
            measured is Some && measured->Some_0.0 > 0 && measured->Some_0.1 > 0 ==> (r is Some <==> (
                measured->Some_0.0 != old(self).spec_size().0 || measured->Some_0.1 != old(self).spec_size().1)),
            r matches Some(now) ==> measured == Some(now) && now.0 > 0 && now.1 > 0,
            final(self).spec_size() == match r {
                Some(now) => now,
                None => old(self).spec_size(),
            },
            final(self).spec_published() == old(self).spec_published(),
    {
        let before = self.size;
        let resize = match measured {
            Some(now) => if (now.0 != before.0 || now.1 != before.1) && now.0 > 0 && now.1 > 0 {
                Some(now)
            } else {
                None
            },
            None => None,
        };
        if let Some(now) = resize {
            self.size = now;
        }
        resize
    }

    /// Whether the app thread is woken for a read that began at size `before` and parsed to an
    /// event or to none: once for the read, for an event or for a size that moved, and never for
    /// a read that changed nothing.
    pub fn woke(&self, before: (u16, u16), any_event: bool) -> (b: bool)
        ensures
            b == (any_event || self.spec_size() != before),
    {
        any_event || self.size.0 != before.0 || self.size.1 != before.1
    }

    /// The parser now counts `unrecognised` sequences: whether that is news to publish.
    pub fn diagnostics(&mut self, unrecognised: u64) -> (publish: bool)
        ensures
            publish == (unrecognised != old(self).spec_published()),
            final(self).spec_published() == unrecognised,
            final(self).spec_size() == old(self).spec_size(),
    {
        let publish = unrecognised != self.published;
        self.published = unrecognised;
        publish
    }
}

} // verus!

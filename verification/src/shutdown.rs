//! The terminal comes back: one restoration, whoever asks for it and however often.
//!
//! Restoration is an idempotent decision guarded by one flag: the first caller that has somewhere
//! to write performs it, and every caller after it finds it done. A caller with nowhere to write
//! owes nothing less, so the restoration stays owed to whoever comes next with a sink. The flag's
//! atomicity across threads is the caller's to provide; what is decided here is who performs it.
use vstd::prelude::*;

verus! {

/// The restoration one session owes the terminal.
pub struct Site {
    done: bool,
    /// Whether mouse tracking may be on: once it may have been, the restoration turns it off.
    mouse: bool,
    /// Whether the session has a sink of its own to write the restoration through.
    has_sink: bool,
}

impl Site {
    pub closed spec fn spec_done(&self) -> bool {
        self.done
    }

    pub closed spec fn spec_mouse(&self) -> bool {
        self.mouse
    }

    pub closed spec fn spec_has_sink(&self) -> bool {
        self.has_sink
    }

    /// Whether a call of [`Site::restore`] with `through` performs the restoration on this site.
    pub open spec fn spec_performs(&self, through: bool) -> bool {
        !self.spec_done() && (through || self.spec_has_sink())
    }

    /// A session that has not been restored, whose own sink is present or not, and whose mouse
    /// tracking the negotiation turned on or did not.
    pub fn new(has_sink: bool, mouse_on: bool) -> (s: Site)
        ensures
            !s.spec_done(),
            s.spec_mouse() == mouse_on,
            s.spec_has_sink() == has_sink,
    {
        Site { done: false, mouse: mouse_on, has_sink }
    }

    /// The application raised mouse tracking: the restoration must now reset it. Lowering it
    /// never takes that back.
    pub fn mouse_may_be_on(&mut self, on: bool)
        ensures
            final(self).spec_mouse() == (old(self).spec_mouse() || on),
            final(self).spec_done() == old(self).spec_done(),
            final(self).spec_has_sink() == old(self).spec_has_sink(),
    {
        if on {
            self.mouse = true;
        }
    }

    /// Whether this call performs the restoration. `through` says whether the caller brought a
    /// sink of its own. Nowhere to write refuses without spending anything; a restoration already
    /// performed is never performed again.
    pub fn restore(&mut self, through: bool) -> (performed: bool)
        ensures
            performed == old(self).spec_performs(through),
            final(self).spec_done() == (old(self).spec_done() || performed),
            final(self).spec_mouse() == old(self).spec_mouse(),
            final(self).spec_has_sink() == old(self).spec_has_sink(),
    {
        if !through && !self.has_sink {
            return false;
        }
        if self.done {
            return false;
        }
        self.done = true;
        true
    }

    /// Whether the restoration has been performed.
    pub fn is_restored(&self) -> (b: bool)
        ensures
            b == self.spec_done(),
    {
        self.done
    }

    /// Whether the restoration resets mouse tracking.
    pub fn mouse_is_on(&self) -> (b: bool)
        ensures
            b == self.spec_mouse(),
    {
        self.mouse
    }
}

/// **A restoration that has happened never happens again**: where one call of
/// [`Site::restore`] performed it, no later call on the site that call left performs it a second
/// time, whoever makes it and whatever it brings to write through.
pub proof fn lemma_restoration_happens_once(first: Site, after: Site, through: bool, later: bool)
    requires
        first.spec_performs(through),
        after.spec_done() == (first.spec_done() || first.spec_performs(through)),
    ensures
        !after.spec_performs(later),
{
}

/// A session, as the process-wide slot the panic hook restores through knows it.
#[derive(Clone, Copy, PartialEq, Eq, Debug, Structural)]
pub struct SiteId {
    pub id: u64,
}

/// Whether `site` is the one the process-wide slot holds: a session that ends disarms only itself,
/// never the one that replaced it.
pub fn is_armed(held: Option<SiteId>, site: SiteId) -> (b: bool)
    ensures
        b == (held == Some(site)),
{
    match held {
        Some(current) => current == site,
        None => false,
    }
}

/// What the slot holds after `site` disarms: nothing where it held `site`, and what it held
/// otherwise.
pub fn disarmed(held: Option<SiteId>, site: SiteId) -> (after: Option<SiteId>)
    ensures
        held == Some(site) ==> after is None,
        held != Some(site) ==> after == held,
{
    if is_armed(held, site) {
        None
    } else {
        held
    }
}

} // verus!

//! The unblockable app thread: the in-loop frame-budget detector, the escape hatch that excuses a
//! region declared slow, and the state the stall observer reads.
//!
//! Time is a count of nanoseconds from any fixed instant, and every decision here takes the clock
//! reading it is about as an argument: what the detector decides is a function of what the clock
//! said, and only the caller reads the clock. The offence is a **frame-budget overrun by the app
//! thread's iteration, whatever caused it**: an iteration is charged what the clock says it took,
//! minus what permits excused, against one frame interval or what the application pinned.
use vstd::prelude::*;

verus! {

/// How many frame intervals an iteration may be inside before another thread calls it a stall.
pub const STALL_FACTOR: u64 = 64;

/// How many times the observer looks inside one stall limit.
pub const POLL_DIVISOR: u64 = 8;

/// The shortest poll the observer takes: one millisecond.
pub const POLL_FLOOR: u64 = 1_000_000;

/// The longest poll the observer takes: a hundred milliseconds.
pub const POLL_CEILING: u64 = 100_000_000;

/// The shortest a stall limit may be, however tight a budget the application pinned: one second.
pub const STALL_FLOOR: u64 = 1_000_000_000;

/// `a * b`, or `u64::MAX` where that does not fit.
pub open spec fn sat_mul(a: u64, b: u64) -> u64 {
    if a * b > u64::MAX {
        u64::MAX
    } else {
        (a * b) as u64
    }
}

/// `a + b`, or `u64::MAX` where that does not fit.
pub open spec fn sat_add(a: u64, b: u64) -> u64 {
    if a + b > u64::MAX {
        u64::MAX
    } else {
        (a + b) as u64
    }
}

/// `a - b`, or zero where `b` is larger.
pub open spec fn sat_sub(a: u64, b: u64) -> u64 {
    if a >= b {
        (a - b) as u64
    } else {
        0
    }
}

/// How long an iteration may be inside before another thread calls it a stall: sixty-four frame
/// intervals, and never less than a second.
pub fn stall_limit(threshold: u64) -> (limit: u64)
    ensures
        limit == stall_limit_spec(threshold),
        limit >= STALL_FLOOR,
{
    let scaled = threshold.checked_mul(STALL_FACTOR);
    let scaled = match scaled {
        Some(s) => s,
        None => u64::MAX,
    };
    if scaled > STALL_FLOOR {
        scaled
    } else {
        STALL_FLOOR
    }
}

/// How often the observer looks, for a given limit: eight times inside it, and never more often
/// than a millisecond nor less often than every hundred.
pub fn poll_for(limit: u64) -> (poll: u64)
    ensures
        poll == poll_spec(limit),
        POLL_FLOOR <= poll <= POLL_CEILING,
{
    let p = limit / POLL_DIVISOR;
    if p < POLL_FLOOR {
        POLL_FLOOR
    } else if p > POLL_CEILING {
        POLL_CEILING
    } else {
        p
    }
}

/// What an iteration cost after everything a permit excused, when that is over budget: the one
/// decision the in-loop rung makes. `None` where there is no iteration to judge, which is what a
/// `present` with no `wait` before it is.
pub open spec fn spec_overrun_by(entered: Option<u64>, now: u64, excused: u64, threshold: u64) -> Option<u64> {
    match entered {
        None => None,
        Some(e) => {
            let charged = sat_sub(sat_sub(now, e), excused);
            if charged > threshold {
                Some(charged)
            } else {
                None
            }
        },
    }
}

/// The in-loop decision, as a function of four values and nothing else.
pub fn overrun_by(entered: Option<u64>, now: u64, excused: u64, threshold: u64) -> (r: Option<u64>)
    ensures
        r == spec_overrun_by(entered, now, excused, threshold),
{
    let e = match entered {
        Some(e) => e,
        None => return None,
    };
    let charged = now.saturating_sub(e).saturating_sub(excused);
    if charged > threshold {
        Some(charged)
    } else {
        None
    }
}

/// What a finding asks of whoever holds the sink and the process: the number, the budget it is
/// against and the permit that was held, whether to write the one warning, and whether to panic.
#[derive(Clone, Copy, Debug)]
pub struct Verdict {
    pub charged: u64,
    pub threshold: u64,
    pub reason: Option<&'static str>,
    /// Write the warning into the caller's sink: the first finding of a process that has a sink.
    pub write: bool,
    /// Panic: every finding in a debug build.
    pub panic: bool,
}

/// **This region is allowed to be slow, and here is why.** A declaration the detector accounts for:
/// what the region cost comes off the iteration it was in, and the reason is what a stall report
/// prints. Given back to [`Perf::release`] when the region ends.
#[derive(Debug)]
pub struct Permit {
    pub reason: &'static str,
}

impl Permit {
    /// Why the region is slow.
    pub fn reason(&self) -> (r: &'static str)
        ensures
            r == self.reason,
    {
        self.reason
    }
}

/// What the observer thread may know about the app thread: when the iteration it is inside began,
/// the limit, the innermost permit's reason, whether the session is over, and which observer is
/// the current one.
#[derive(Clone, Copy, Debug)]
pub struct Watch {
    /// The clock reading the iteration entered at, **plus one**, or zero outside an iteration.
    entered: u64,
    limit: u64,
    reason: Option<&'static str>,
    stop: bool,
    /// Which observer is current: bumped by every stop, so an observer from before a suspend never
    /// matches again.
    generation: u64,
}

impl Watch {
    pub closed spec fn spec_entered(&self) -> u64 {
        self.entered
    }

    pub closed spec fn spec_limit(&self) -> u64 {
        self.limit
    }

    pub closed spec fn spec_reason(&self) -> Option<&'static str> {
        self.reason
    }

    pub closed spec fn spec_stopped(&self) -> bool {
        self.stop
    }

    pub closed spec fn spec_generation(&self) -> u64 {
        self.generation
    }

    /// A watch with nothing to watch yet.
    pub fn new(limit: u64) -> (w: Watch)
        ensures
            w.spec_entered() == 0,
            w.spec_limit() == limit,
            w.spec_reason() is None,
            !w.spec_stopped(),
            w.spec_generation() == 0,
    {
        Watch { entered: 0, limit, reason: None, stop: false, generation: 0 }
    }

    /// The app thread entered an iteration at `at`.
    pub fn entered(&mut self, at: u64)
        ensures
            final(self).spec_entered() == sat_add(at, 1),
            final(self).spec_limit() == old(self).spec_limit(),
            final(self).spec_reason() == old(self).spec_reason(),
            final(self).spec_stopped() == old(self).spec_stopped(),
            final(self).spec_generation() == old(self).spec_generation(),
    {
        self.entered = at.saturating_add(1);
    }

    /// The app thread came back.
    pub fn left(&mut self)
        ensures
            final(self).spec_entered() == 0,
            final(self).spec_limit() == old(self).spec_limit(),
            final(self).spec_reason() == old(self).spec_reason(),
            final(self).spec_stopped() == old(self).spec_stopped(),
            final(self).spec_generation() == old(self).spec_generation(),
    {
        self.entered = 0;
    }

    pub fn set_limit(&mut self, limit: u64)
        ensures
            final(self).spec_limit() == limit,
            final(self).spec_entered() == old(self).spec_entered(),
            final(self).spec_reason() == old(self).spec_reason(),
            final(self).spec_stopped() == old(self).spec_stopped(),
            final(self).spec_generation() == old(self).spec_generation(),
    {
        self.limit = limit;
    }

    /// Why the region the app thread is in is slow, or `None`.
    pub fn note(&mut self, reason: Option<&'static str>)
        ensures
            final(self).spec_reason() == reason,
            final(self).spec_entered() == old(self).spec_entered(),
            final(self).spec_limit() == old(self).spec_limit(),
            final(self).spec_stopped() == old(self).spec_stopped(),
            final(self).spec_generation() == old(self).spec_generation(),
    {
        self.reason = reason;
    }

    /// The session is over: the generation moves on before the flag is raised, so an observer
    /// mid-poll finds a generation it does not match whichever of the two it reads first.
    pub fn stop(&mut self)
        ensures
            final(self).spec_stopped(),
            final(self).spec_generation() == sat_add(old(self).spec_generation(), 1),
            final(self).spec_entered() == old(self).spec_entered(),
            final(self).spec_limit() == old(self).spec_limit(),
            final(self).spec_reason() == old(self).spec_reason(),
    {
        self.generation = self.generation.saturating_add(1);
        self.stop = true;
    }

    /// The generation an observer spawned now belongs to.
    pub fn generation(&self) -> (g: u64)
        ensures
            g == self.spec_generation(),
    {
        self.generation
    }

    /// Watch again, for a session that is coming back. The generation is not touched, so the
    /// observer a stop retired stays retired.
    pub fn watch_again(&mut self)
        ensures
            !final(self).spec_stopped(),
            final(self).spec_generation() == old(self).spec_generation(),
            final(self).spec_entered() == old(self).spec_entered(),
            final(self).spec_limit() == old(self).spec_limit(),
            final(self).spec_reason() == old(self).spec_reason(),
    {
        self.stop = false;
    }

    /// Whether an observer of this generation is still the current one.
    pub fn is_current(&self, generation: u64) -> (b: bool)
        ensures
            b == (generation == self.spec_generation()),
    {
        self.generation == generation
    }

    pub fn stopped(&self) -> (b: bool)
        ensures
            b == self.spec_stopped(),
    {
        self.stop
    }

    /// How long the app thread has been inside an iteration it has not come back from, and what it
    /// said it was doing: `None` outside an iteration and inside the limit.
    pub fn stalled(&self, now: u64) -> (r: Option<(u64, Option<&'static str>)>)
        ensures
            self.spec_entered() == 0 ==> r is None,
            self.spec_entered() > 0 ==> r == if sat_sub(now, (self.spec_entered() - 1) as u64) > self.spec_limit() {
                Some((sat_sub(now, (self.spec_entered() - 1) as u64), self.spec_reason()))
            } else {
                None
            },
    {
        if self.entered == 0 {
            return None;
        }
        let inside = now.saturating_sub(self.entered - 1);
        if inside > self.limit {
            Some((inside, self.reason))
        } else {
            None
        }
    }

    /// The reason the region the app thread is in is slow, as another thread reads it.
    pub fn reason_now(&self) -> (r: Option<&'static str>)
        ensures
            r == self.spec_reason(),
    {
        self.reason
    }
}

/// What an observer does after one poll.
#[derive(Clone, Copy, Debug)]
pub enum Step {
    /// The session is over, or this observer is no longer the current one.
    Leave,
    /// Nothing has stalled: sleep and look again.
    Sleep,
    /// The app thread has been inside one iteration past the limit: restore the terminal, report
    /// how long and why, and end the process.
    Abort { inside: u64, reason: Option<&'static str> },
}

impl Watch {
    /// One poll of the observer of generation `generation`, at `now`.
    pub fn step(&self, generation: u64, now: u64) -> (s: Step)
        ensures
            self.spec_stopped() || generation != self.spec_generation() ==> s is Leave,
            !(self.spec_stopped() || generation != self.spec_generation()) ==> match self.stalled_spec(now) {
                Some((inside, reason)) => s == (Step::Abort { inside, reason }),
                None => s is Sleep,
            },
    {
        if self.stopped() || !self.is_current(generation) {
            return Step::Leave;
        }
        match self.stalled(now) {
            Some((inside, reason)) => Step::Abort { inside, reason },
            None => Step::Sleep,
        }
    }

    /// What [`stalled`](Watch::stalled) answers at `now`.
    pub open spec fn stalled_spec(&self, now: u64) -> Option<(u64, Option<&'static str>)> {
        if self.spec_entered() == 0 {
            None
        } else if sat_sub(now, (self.spec_entered() - 1) as u64) > self.spec_limit() {
            Some((sat_sub(now, (self.spec_entered() - 1) as u64), self.spec_reason()))
        } else {
            None
        }
    }
}

/// An observer retired by a stop never becomes current again, whatever resumes after it: the
/// generation only moves forward.
pub proof fn lemma_a_retired_observer_stays_retired(before: Watch, stopped: Watch, resumed: Watch, g: u64)
    requires
        g == before.spec_generation(),
        before.spec_generation() < u64::MAX,
        stopped.spec_generation() == sat_add(before.spec_generation(), 1),
        resumed.spec_generation() == stopped.spec_generation(),
    ensures
        g != stopped.spec_generation(),
        g != resumed.spec_generation(),
{
}

/// The in-loop detector: when the current iteration entered, what permits excused of it, the
/// budget, and whether the one warning a process gets has been spent.
pub struct Perf {
    entered: Option<u64>,
    excused: u64,
    /// When the outermost live permit began, or `None` when none is held.
    open: Option<u64>,
    /// How many permits are live: nesting settles once, at the outermost.
    depth: u32,
    threshold: u64,
    /// Whether the caller pinned the budget, in which case a rate change may not move it.
    pinned: bool,
    reason: Option<&'static str>,
    /// Whether the release sanction has been spent: once per process, not once per frame.
    warned: bool,
    /// Whether the caller supplied a sink for the warning. Without one the warning is silence,
    /// never the terminal's own stderr.
    reports: bool,
    /// Whether a finding panics: a debug build's sanction.
    debug: bool,
    watch: Watch,
}

impl Perf {
    pub closed spec fn spec_entered(&self) -> Option<u64> {
        self.entered
    }

    pub closed spec fn spec_excused(&self) -> u64 {
        self.excused
    }

    pub closed spec fn spec_open(&self) -> Option<u64> {
        self.open
    }

    pub closed spec fn spec_depth(&self) -> u32 {
        self.depth
    }

    pub closed spec fn spec_threshold(&self) -> u64 {
        self.threshold
    }

    pub closed spec fn spec_pinned(&self) -> bool {
        self.pinned
    }

    pub closed spec fn spec_reason(&self) -> Option<&'static str> {
        self.reason
    }

    pub closed spec fn spec_warned(&self) -> bool {
        self.warned
    }

    pub closed spec fn spec_reports(&self) -> bool {
        self.reports
    }

    pub closed spec fn spec_debug(&self) -> bool {
        self.debug
    }

    pub closed spec fn spec_watch(&self) -> Watch {
        self.watch
    }

    /// A detector whose budget is `threshold` nanoseconds, pinned or derived from a rate; `reports`
    /// says whether the caller supplied a sink, `debug` whether a finding panics.
    pub fn new(threshold: u64, pinned: bool, reports: bool, debug: bool) -> (p: Perf)
        ensures
            p.spec_entered() is None,
            p.spec_excused() == 0,
            p.spec_open() is None,
            p.spec_depth() == 0,
            p.spec_threshold() == threshold,
            p.spec_pinned() == pinned,
            p.spec_reason() is None,
            !p.spec_warned(),
            p.spec_reports() == reports,
            p.spec_debug() == debug,
            p.spec_watch().spec_limit() >= STALL_FLOOR,
            p.spec_watch().spec_entered() == 0,
            !p.spec_watch().spec_stopped(),
    {
        Perf {
            entered: None,
            excused: 0,
            open: None,
            depth: 0,
            threshold,
            pinned,
            reason: None,
            warned: false,
            reports,
            debug,
            watch: Watch::new(stall_limit(threshold)),
        }
    }

    /// The current budget.
    pub fn threshold(&self) -> (t: u64)
        ensures
            t == self.spec_threshold(),
    {
        self.threshold
    }

    /// The observer's half.
    pub fn watch(&self) -> (w: &Watch)
        ensures
            *w == self.spec_watch(),
    {
        &self.watch
    }

    /// The app thread's iteration began at `now`: nothing is excused of it yet.
    pub fn enter(&mut self, now: u64)
        ensures
            final(self).spec_entered() == Some(now),
            final(self).spec_excused() == 0,
            final(self).spec_watch().spec_entered() == sat_add(now, 1),
            final(self).spec_threshold() == old(self).spec_threshold(),
            final(self).spec_warned() == old(self).spec_warned(),
            final(self).spec_open() == old(self).spec_open(),
            final(self).spec_depth() == old(self).spec_depth(),
            final(self).spec_pinned() == old(self).spec_pinned(),
            final(self).spec_reason() == old(self).spec_reason(),
            final(self).spec_reports() == old(self).spec_reports(),
            final(self).spec_debug() == old(self).spec_debug(),
            final(self).spec_watch().spec_limit() == old(self).spec_watch().spec_limit(),
            final(self).spec_watch().spec_reason() == old(self).spec_watch().spec_reason(),
            final(self).spec_watch().spec_stopped() == old(self).spec_watch().spec_stopped(),
            final(self).spec_watch().spec_generation() == old(self).spec_watch().spec_generation(),
    {
        self.entered = Some(now);
        self.excused = 0;
        self.watch.entered(now);
    }

    /// What a permit accounted for, added to what earlier permits in this iteration did.
    fn excuse(&mut self, spent: u64)
        ensures
            final(self).spec_excused() == sat_add(old(self).spec_excused(), spent),
            final(self).spec_entered() == old(self).spec_entered(),
            final(self).spec_open() == old(self).spec_open(),
            final(self).spec_depth() == old(self).spec_depth(),
            final(self).spec_threshold() == old(self).spec_threshold(),
            final(self).spec_reason() == old(self).spec_reason(),
            final(self).spec_warned() == old(self).spec_warned(),
            final(self).spec_reports() == old(self).spec_reports(),
            final(self).spec_debug() == old(self).spec_debug(),
            final(self).spec_pinned() == old(self).spec_pinned(),
            final(self).spec_watch() == old(self).spec_watch(),
    {
        self.excused = self.excused.saturating_add(spent);
    }

    /// Whether a finding now would produce any output at all: always in a debug build, and only
    /// until the warning is spent in a release one. The second overrun of a release process
    /// therefore formats nothing.
    pub fn will_report(&self) -> (b: bool)
        ensures
            b == (self.spec_debug() || !self.spec_warned()),
    {
        self.debug || !self.warned
    }

    /// The release sanction, and *once* is the load-bearing word: whether this message is the one
    /// a process writes into the caller's sink.
    pub fn warn_once(&mut self) -> (write: bool)
        ensures
            final(self).spec_depth() == old(self).spec_depth(),
            final(self).spec_open() == old(self).spec_open(),
            final(self).spec_excused() == old(self).spec_excused(),
            final(self).spec_reason() == old(self).spec_reason(),
            write == (!old(self).spec_warned() && old(self).spec_reports()),
            final(self).spec_warned(),
            final(self).spec_entered() == old(self).spec_entered(),
            final(self).spec_threshold() == old(self).spec_threshold(),
            final(self).spec_reports() == old(self).spec_reports(),
            final(self).spec_debug() == old(self).spec_debug(),
            final(self).spec_pinned() == old(self).spec_pinned(),
            final(self).spec_watch() == old(self).spec_watch(),
    {
        let first = !self.warned;
        self.warned = true;
        first && self.reports
    }

    /// Both sanctions, because they are one finding: the warning goes out before the panic rather
    /// than instead of it, and neither is formatted once nothing would be said.
    fn sanction(&mut self, charged: u64) -> (v: Option<Verdict>)
        ensures
            final(self).spec_depth() == old(self).spec_depth(),
            final(self).spec_open() == old(self).spec_open(),
            final(self).spec_excused() == old(self).spec_excused(),
            final(self).spec_reason() == old(self).spec_reason(),
            !(old(self).spec_debug() || !old(self).spec_warned()) ==> v is None && *final(self) == *old(self),
            (old(self).spec_debug() || !old(self).spec_warned()) ==> v == Some(Verdict {
                charged,
                threshold: old(self).spec_threshold(),
                reason: old(self).spec_reason(),
                write: !old(self).spec_warned() && old(self).spec_reports(),
                panic: old(self).spec_debug(),
            }),
            (old(self).spec_debug() || !old(self).spec_warned()) ==> final(self).spec_warned(),
            final(self).spec_entered() == old(self).spec_entered(),
            final(self).spec_threshold() == old(self).spec_threshold(),
            final(self).spec_reports() == old(self).spec_reports(),
            final(self).spec_debug() == old(self).spec_debug(),
            final(self).spec_pinned() == old(self).spec_pinned(),
            final(self).spec_watch() == old(self).spec_watch(),
    {
        if !self.will_report() {
            return None;
        }
        let threshold = self.threshold;
        let reason = self.reason;
        let write = self.warn_once();
        Some(Verdict { charged, threshold, reason, write, panic: self.debug })
    }

    /// The iteration is over at `now`: the permit still held is settled up to here, and the
    /// iteration is judged. `None` is every ordinary frame, and every `present` with no `wait`
    /// before it.
    pub fn leave(&mut self, now: u64) -> (v: Option<Verdict>)
        ensures
            final(self).spec_entered() is None,
            final(self).spec_watch().spec_entered() == 0 || old(self).spec_entered() is None,
            final(self).spec_threshold() == old(self).spec_threshold(),
            final(self).spec_depth() == old(self).spec_depth(),
            old(self).spec_entered() is None ==> v is None && *final(self) == *old(self),
            old(self).spec_entered() matches Some(e) ==> {
                let excused = match old(self).spec_open() {
                    Some(at) => sat_add(old(self).spec_excused(), sat_sub(now, at)),
                    None => old(self).spec_excused(),
                };
                match spec_overrun_by(Some(e), now, excused, old(self).spec_threshold()) {
                    None => v is None,
                    Some(charged) => if old(self).spec_debug() || !old(self).spec_warned() {
                        v == Some(Verdict {
                            charged,
                            threshold: old(self).spec_threshold(),
                            reason: old(self).spec_reason(),
                            write: !old(self).spec_warned() && old(self).spec_reports(),
                            panic: old(self).spec_debug(),
                        })
                    } else {
                        v is None
                    },
                }
            },
            old(self).spec_entered() is Some && old(self).spec_open() is Some ==> final(self).spec_open() == Some(now),
            old(self).spec_warned() ==> final(self).spec_warned(),
            final(self).spec_pinned() == old(self).spec_pinned(),
            final(self).spec_reports() == old(self).spec_reports(),
            final(self).spec_debug() == old(self).spec_debug(),
            final(self).spec_watch().spec_limit() == old(self).spec_watch().spec_limit(),
            final(self).spec_watch().spec_stopped() == old(self).spec_watch().spec_stopped(),
            final(self).spec_watch().spec_generation() == old(self).spec_watch().spec_generation(),
            final(self).spec_watch().spec_reason() == old(self).spec_watch().spec_reason(),
    {
        let entered = match self.entered {
            Some(e) => e,
            None => return None,
        };
        self.entered = None;
        self.watch.left();
        if let Some(at) = self.open {
            self.excuse(now.saturating_sub(at));
            self.open = Some(now);
        }
        match overrun_by(Some(entered), now, self.excused, self.threshold) {
            Some(charged) => self.sanction(charged),
            None => None,
        }
    }

    /// A monitor changed under the running program, so the budget did too: `threshold` is one
    /// frame interval at the new rate. A pinned budget is not moved.
    pub fn set_rate(&mut self, threshold: u64)
        ensures
            old(self).spec_pinned() ==> *final(self) == *old(self),
            !old(self).spec_pinned() ==> final(self).spec_threshold() == threshold
                && final(self).spec_watch().spec_limit() == stall_limit_spec(threshold),
            final(self).spec_pinned() == old(self).spec_pinned(),
            final(self).spec_entered() == old(self).spec_entered(),
            final(self).spec_excused() == old(self).spec_excused(),
            final(self).spec_open() == old(self).spec_open(),
            final(self).spec_depth() == old(self).spec_depth(),
            final(self).spec_reason() == old(self).spec_reason(),
            final(self).spec_warned() == old(self).spec_warned(),
            final(self).spec_reports() == old(self).spec_reports(),
            final(self).spec_debug() == old(self).spec_debug(),
            final(self).spec_watch().spec_entered() == old(self).spec_watch().spec_entered(),
            final(self).spec_watch().spec_reason() == old(self).spec_watch().spec_reason(),
            final(self).spec_watch().spec_stopped() == old(self).spec_watch().spec_stopped(),
            final(self).spec_watch().spec_generation() == old(self).spec_watch().spec_generation(),
    {
        if self.pinned {
            return;
        }
        self.threshold = threshold;
        self.watch.set_limit(stall_limit(threshold));
    }

    /// Declare that from `now` until the permit is released the app thread is expected to be slow,
    /// and why. Nested permits open one span, at the outermost.
    pub fn permit_slow(&mut self, now: u64, reason: &'static str) -> (p: Permit)
        ensures
            p.reason == reason,
            old(self).spec_depth() == 0 ==> final(self).spec_open() == Some(now),
            old(self).spec_depth() > 0 ==> final(self).spec_open() == old(self).spec_open(),
            final(self).spec_depth() == if old(self).spec_depth() == u32::MAX { u32::MAX } else { (old(self).spec_depth() + 1) as u32 },
            final(self).spec_reason() == Some(reason),
            final(self).spec_watch().spec_reason() == Some(reason),
            final(self).spec_entered() == old(self).spec_entered(),
            final(self).spec_excused() == old(self).spec_excused(),
            final(self).spec_threshold() == old(self).spec_threshold(),
            final(self).spec_warned() == old(self).spec_warned(),
            final(self).spec_pinned() == old(self).spec_pinned(),
            final(self).spec_reports() == old(self).spec_reports(),
            final(self).spec_debug() == old(self).spec_debug(),
            final(self).spec_watch().spec_limit() == old(self).spec_watch().spec_limit(),
            final(self).spec_watch().spec_stopped() == old(self).spec_watch().spec_stopped(),
            final(self).spec_watch().spec_generation() == old(self).spec_watch().spec_generation(),
            final(self).spec_watch().spec_entered() == old(self).spec_watch().spec_entered(),
    {
        if self.depth == 0 {
            self.open = Some(now);
        }
        self.depth = self.depth.saturating_add(1);
        self.reason = Some(reason);
        self.watch.note(Some(reason));
        Permit { reason }
    }

    /// The region a permit declared is over at `now`. Only the outermost settles, and only what
    /// `leave` has not already taken.
    pub fn release(&mut self, permit: Permit, now: u64)
        ensures
            final(self).spec_depth() == if old(self).spec_depth() == 0 { 0 } else { (old(self).spec_depth() - 1) as u32 },
            final(self).spec_depth() > 0 ==> final(self).spec_excused() == old(self).spec_excused()
                && final(self).spec_open() == old(self).spec_open() && final(self).spec_reason() == old(self).spec_reason(),
            final(self).spec_depth() == 0 ==> final(self).spec_open() is None && final(self).spec_reason() is None
                && final(self).spec_watch().spec_reason() is None && final(self).spec_excused() == match old(self).spec_open() {
                Some(at) => sat_add(old(self).spec_excused(), sat_sub(now, at)),
                None => old(self).spec_excused(),
            },
            final(self).spec_entered() == old(self).spec_entered(),
            final(self).spec_threshold() == old(self).spec_threshold(),
            final(self).spec_warned() == old(self).spec_warned(),
            final(self).spec_depth() > 0 ==> final(self).spec_watch() == old(self).spec_watch(),
            final(self).spec_pinned() == old(self).spec_pinned(),
            final(self).spec_reports() == old(self).spec_reports(),
            final(self).spec_debug() == old(self).spec_debug(),
            final(self).spec_watch().spec_limit() == old(self).spec_watch().spec_limit(),
            final(self).spec_watch().spec_stopped() == old(self).spec_watch().spec_stopped(),
            final(self).spec_watch().spec_generation() == old(self).spec_watch().spec_generation(),
            final(self).spec_watch().spec_entered() == old(self).spec_watch().spec_entered(),
    {
        let _ = permit;
        let depth = self.depth.saturating_sub(1);
        self.depth = depth;
        if depth > 0 {
            return;
        }
        if let Some(at) = self.open {
            self.open = None;
            self.excuse(now.saturating_sub(at));
        }
        self.reason = None;
        self.watch.note(None);
    }

    /// Whether the iteration in progress has already lost its frame at `now`, asked without
    /// spending the sanction.
    pub fn would_overrun(&self, now: u64) -> (b: bool)
        ensures
            b == spec_overrun_by(self.spec_entered(), now, self.spec_excused(), self.spec_threshold()) is Some,
    {
        overrun_by(self.entered, now, self.excused, self.threshold).is_some()
    }

    /// This session is over; the observer has nothing left to watch. The entry is cleared before
    /// the flag is raised, so an observer mid-poll cannot find a stall in a session that ended.
    pub fn stop_observing(&mut self)
        ensures
            final(self).spec_watch().spec_stopped(),
            final(self).spec_watch().spec_entered() == 0,
            final(self).spec_watch().spec_generation() == sat_add(old(self).spec_watch().spec_generation(), 1),
            final(self).spec_watch().spec_limit() == old(self).spec_watch().spec_limit(),
            final(self).spec_watch().spec_reason() == old(self).spec_watch().spec_reason(),
            final(self).spec_entered() == old(self).spec_entered(),
            final(self).spec_excused() == old(self).spec_excused(),
            final(self).spec_open() == old(self).spec_open(),
            final(self).spec_depth() == old(self).spec_depth(),
            final(self).spec_threshold() == old(self).spec_threshold(),
            final(self).spec_pinned() == old(self).spec_pinned(),
            final(self).spec_reason() == old(self).spec_reason(),
            final(self).spec_warned() == old(self).spec_warned(),
            final(self).spec_reports() == old(self).spec_reports(),
            final(self).spec_debug() == old(self).spec_debug(),
    {
        self.watch.left();
        self.watch.stop();
    }

    /// This session is back; watch it again, under the generation the stop left.
    pub fn observe_again(&mut self)
        ensures
            !final(self).spec_watch().spec_stopped(),
            final(self).spec_watch().spec_generation() == old(self).spec_watch().spec_generation(),
            final(self).spec_watch().spec_entered() == old(self).spec_watch().spec_entered(),
            final(self).spec_watch().spec_limit() == old(self).spec_watch().spec_limit(),
            final(self).spec_watch().spec_reason() == old(self).spec_watch().spec_reason(),
            final(self).spec_entered() == old(self).spec_entered(),
            final(self).spec_excused() == old(self).spec_excused(),
            final(self).spec_open() == old(self).spec_open(),
            final(self).spec_depth() == old(self).spec_depth(),
            final(self).spec_threshold() == old(self).spec_threshold(),
            final(self).spec_pinned() == old(self).spec_pinned(),
            final(self).spec_reason() == old(self).spec_reason(),
            final(self).spec_warned() == old(self).spec_warned(),
            final(self).spec_reports() == old(self).spec_reports(),
            final(self).spec_debug() == old(self).spec_debug(),
    {
        self.watch.watch_again();
    }

    /// Whether the detector is still watching this session.
    pub fn is_watching(&self) -> (b: bool)
        ensures
            b == !self.spec_watch().spec_stopped(),
    {
        !self.watch.stopped()
    }

    /// How often the observer looks, for this budget.
    pub fn poll(&self) -> (p: u64)
        ensures
            p == poll_spec(stall_limit_spec(self.spec_threshold())),
            POLL_FLOOR <= p <= POLL_CEILING,
    {
        poll_for(stall_limit(self.threshold))
    }
}

/// How often the observer looks inside a limit: eight times, clamped to a millisecond and a
/// hundred.
pub open spec fn poll_spec(limit: u64) -> u64 {
    if limit / POLL_DIVISOR < POLL_FLOOR {
        POLL_FLOOR
    } else if limit / POLL_DIVISOR > POLL_CEILING {
        POLL_CEILING
    } else {
        limit / POLL_DIVISOR
    }
}

/// How long an iteration may be inside before it is a stall: sixty-four frame intervals, and
/// never less than a second.
pub open spec fn stall_limit_spec(threshold: u64) -> u64 {
    if sat_mul(threshold, STALL_FACTOR) > STALL_FLOOR {
        sat_mul(threshold, STALL_FACTOR)
    } else {
        STALL_FLOOR
    }
}

} // verus!

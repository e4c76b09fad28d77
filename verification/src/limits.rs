use vstd::prelude::*;

use crate::error::{Error, Result, Stage};

verus! {

/// The ceilings one operation is held to.
#[derive(Debug, Clone, Copy, PartialEq, Eq, Structural)]
pub struct Limits {
    /// The largest input, in bytes.
    pub max_input_bytes: u64,
    /// The most pages a document, a selection or a merged output may have.
    pub max_pages: u64,
    /// The most memory an operation may be measured to have spent.
    pub max_memory_bytes: u64,
    /// The longest an operation may run, in milliseconds, checked at page boundaries.
    pub max_duration_ms: u64,
    /// The most pixels one render may allocate.
    pub max_pixels: u64,
}

/// The default page ceiling.
pub const DEFAULT_MAX_PAGES: u64 = 10_000u64;

/// The default pixel ceiling: 256 Mpx, a caller ceiling rather than a device one.
pub const DEFAULT_MAX_PIXELS: u64 = 268_435_456u64;

/// The default input ceiling: 256 MiB.
pub const DEFAULT_MAX_INPUT_BYTES: u64 = 268_435_456u64;

/// The default measured-memory ceiling: 1 GiB.
pub const DEFAULT_MAX_MEMORY_BYTES: u64 = 1_073_741_824u64;

/// The default time budget: thirty seconds.
pub const DEFAULT_MAX_DURATION_MS: u64 = 30_000u64;

impl Limits {
    /// The default ceilings.
    pub fn defaults() -> (l: Limits)
        ensures
            l.max_pages == DEFAULT_MAX_PAGES,
            l.max_pixels == DEFAULT_MAX_PIXELS,
            l.max_input_bytes == DEFAULT_MAX_INPUT_BYTES,
            l.max_memory_bytes == DEFAULT_MAX_MEMORY_BYTES,
            l.max_duration_ms == DEFAULT_MAX_DURATION_MS,
    {
        Limits {
            max_input_bytes: DEFAULT_MAX_INPUT_BYTES,
            max_pages: DEFAULT_MAX_PAGES,
            max_memory_bytes: DEFAULT_MAX_MEMORY_BYTES,
            max_duration_ms: DEFAULT_MAX_DURATION_MS,
            max_pixels: DEFAULT_MAX_PIXELS,
        }
    }

    /// Refuse `requested` when it exceeds `allowed`, naming the limit and the stage.
    pub fn check(stage: Stage, limit: &'static str, requested: u64, allowed: u64) -> (r: Result<()>)
        ensures
            r is Ok <==> requested <= allowed,
            r is Err ==> r->Err_0 == (Error::LimitExceeded { limit, stage, requested, allowed }),
    {
        if requested > allowed {
            Err(Error::LimitExceeded { limit, stage, requested, allowed })
        } else {
            Ok(())
        }
    }
}

impl Default for Limits {
    fn default() -> (l: Limits)
        ensures
            l.max_pages == DEFAULT_MAX_PAGES,
            l.max_pixels == DEFAULT_MAX_PIXELS,
            l.max_input_bytes == DEFAULT_MAX_INPUT_BYTES,
            l.max_memory_bytes == DEFAULT_MAX_MEMORY_BYTES,
            l.max_duration_ms == DEFAULT_MAX_DURATION_MS,
    {
        Limits::defaults()
    }
}

/// A source of the current time, in milliseconds.
///
/// Two readings may differ. A clock may say within which bounds every reading it gives lies,
/// and the operations timed by it promise to finish whenever those bounds keep them within
/// their budget; a clock that says nothing reads anywhere from zero to the largest `u64`.
pub trait Clock {
    /// No reading is earlier than this.
    open spec fn earliest(&self) -> u64 {
        0
    }

    /// No reading is later than this.
    open spec fn latest(&self) -> u64 {
        u64::MAX
    }

    /// The current time, in milliseconds from an origin of the clock's choosing.
    fn now_ms(&self) -> (t: u64)
        ensures
            self.earliest() <= t <= self.latest();
}

/// Every reading `clock` gives lies within `budget` of every other: a deadline started from
/// one of them never runs out.
pub open spec fn steady<C: Clock>(clock: &C, budget: u64) -> bool {
    clock.latest() - clock.earliest() <= budget
}

/// A clock that always reads the same value.
#[derive(Debug, Clone, Copy)]
pub struct ManualClock {
    /// The value every reading returns.
    pub now: u64,
}

impl ManualClock {
    /// A clock stopped at `now`.
    pub fn new(now: u64) -> (c: ManualClock)
        ensures
            c.now == now,
    {
        ManualClock { now }
    }
}

impl Clock for ManualClock {
    open spec fn earliest(&self) -> u64 {
        self.now
    }

    open spec fn latest(&self) -> u64 {
        self.now
    }

    fn now_ms(&self) -> (t: u64)
        ensures
            t == self.now,
    {
        self.now
    }
}

/// The time budget of one operation: where it started and how long it may take.
///
/// Cooperative: it refuses only where it is checked, which is at page boundaries.
#[derive(Debug, Clone, Copy, PartialEq, Eq, Structural)]
pub struct Deadline {
    /// The clock reading the budget is measured from.
    pub origin: u64,
    /// The budget, in milliseconds.
    pub budget: u64,
}

/// How long has passed between `origin` and `now`; a clock that went backwards reads zero.
pub open spec fn elapsed(origin: u64, now: u64) -> u64 {
    if now >= origin { (now - origin) as u64 } else { 0 }
}

impl Deadline {
    /// No reading `clock` gives is past the budget.
    pub open spec fn holds_for<C: Clock>(self, clock: &C) -> bool {
        elapsed(self.origin, clock.latest()) <= self.budget
    }

    /// Start the budget `limits` gives, at the reading `now`.
    pub fn starting_at(now: u64, limits: &Limits) -> (d: Deadline)
        ensures
            d.origin == now,
            d.budget == limits.max_duration_ms,
    {
        Deadline { origin: now, budget: limits.max_duration_ms }
    }

    /// Start the budget `limits` gives, now by `clock`.
    pub fn start<C: Clock>(clock: &C, limits: &Limits) -> (d: Deadline)
        ensures
            d.budget == limits.max_duration_ms,
            clock.earliest() <= d.origin <= clock.latest(),
            steady(clock, limits.max_duration_ms) ==> d.holds_for(clock),
    {
        Deadline::starting_at(clock.now_ms(), limits)
    }

    /// Refuse once more than the budget has passed at the reading `now`.
    ///
    /// At the budget is not past it.
    pub fn check_at(&self, now: u64) -> (r: Result<()>)
        ensures
            r is Ok <==> elapsed(self.origin, now) <= self.budget,
            r is Err ==> r->Err_0 == (Error::LimitExceeded {
                limit: "max_duration_ms",
                stage: Stage::Duration,
                requested: elapsed(self.origin, now),
                allowed: self.budget,
            }),
    {
        let spent = if now >= self.origin { now - self.origin } else { 0 };
        Limits::check(Stage::Duration, "max_duration_ms", spent, self.budget)
    }

    /// Refuse once more than the budget has passed, by `clock`.
    ///
    /// Whether it refuses is the clock's reading: a budget of `u64::MAX` never runs out, nor
    /// does one that every reading of the clock keeps within, and a refusal names the limit,
    /// the time spent past the budget, and the budget.
    pub fn checkpoint<C: Clock>(&self, clock: &C) -> (r: Result<()>)
        ensures
            r is Err ==> r->Err_0 is LimitExceeded && r->Err_0->limit@ == "max_duration_ms"@
                && r->Err_0->stage == Stage::Duration && r->Err_0->allowed == self.budget
                && r->Err_0->requested > self.budget,
            self.budget == u64::MAX ==> r is Ok,
            self.holds_for(clock) ==> r is Ok,
    {
        self.check_at(clock.now_ms())
    }
}

} // verus!

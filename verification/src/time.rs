//! UTC instants as plain values, and the whole-second distance between them.

use vstd::prelude::*;

verus! {

/// Nanoseconds in one second.
pub const NANOS_PER_SECOND: u32 = 1_000_000_000;

/// Largest distance from the Unix epoch, in seconds, that a `UtcTime` may
/// have: about 253,000 years either way, inside the range of dates that a
/// calendar date-time can represent, so that every instant can be formatted.
pub const MAX_EPOCH_SECONDS: i64 = 8_000_000_000_000;

/// A UTC instant: whole seconds since the Unix epoch and the nanoseconds that
/// follow them.
#[derive(Clone, Copy, Debug, PartialEq, Eq, PartialOrd, Ord, Hash)]
pub struct UtcTime {
    pub seconds: i64,
    pub nanos: u32,
}

impl UtcTime {
    /// The nanosecond fraction is below one second and the instant lies in
    /// the representable date range.
    pub open spec fn wf(self) -> bool {
        &&& self.nanos < NANOS_PER_SECOND
        &&& -MAX_EPOCH_SECONDS <= self.seconds <= MAX_EPOCH_SECONDS
    }

    /// Nanoseconds since the Unix epoch.
    pub open spec fn total_nanos(self) -> int {
        self.seconds * 1_000_000_000 + self.nanos
    }

    /// Whether the instant is well-formed: a fraction below one second, in
    /// the representable range.
    pub fn is_wf(&self) -> (r: bool)
        ensures
            r == self.wf(),
    {
        self.nanos < NANOS_PER_SECOND && -MAX_EPOCH_SECONDS <= self.seconds && self.seconds
            <= MAX_EPOCH_SECONDS
    }

    /// An instant at a whole second.
    pub fn from_seconds(seconds: i64) -> (t: UtcTime)
        ensures
            t.seconds == seconds,
            t.nanos == 0,
    {
        UtcTime { seconds, nanos: 0 }
    }

    /// `self` lies strictly before `other`.
    pub fn is_before(&self, other: &UtcTime) -> (r: bool)
        requires
            self.wf(),
            other.wf(),
        ensures
            r == (self.total_nanos() < other.total_nanos()),
    {
        self.seconds < other.seconds || (self.seconds == other.seconds && self.nanos
            < other.nanos)
    }

    /// `self` and `other` are the same instant.
    pub fn same_instant(&self, other: &UtcTime) -> (r: bool)
        requires
            self.wf(),
            other.wf(),
        ensures
            r == (self.total_nanos() == other.total_nanos()),
    {
        self.seconds == other.seconds && self.nanos == other.nanos
    }
}

/// Integer division rounding toward zero.
pub open spec fn div_toward_zero(a: int, b: int) -> int
    recommends
        b > 0,
{
    if a >= 0 {
        a / b
    } else {
        -((-a) / b)
    }
}

/// The signed number of whole seconds from `earlier` to `later`, rounded
/// toward zero.
pub open spec fn whole_seconds_between(later: UtcTime, earlier: UtcTime) -> int {
    div_toward_zero(later.total_nanos() - earlier.total_nanos(), 1_000_000_000)
}

/// The whole seconds from `earlier` to `later`, rounded toward zero, as the
/// difference of two date-times reports them.
pub fn seconds_between(later: &UtcTime, earlier: &UtcTime) -> (r: i64)
    requires
        later.wf(),
        earlier.wf(),
    ensures
        r == whole_seconds_between(*later, *earlier),
        -2 * MAX_EPOCH_SECONDS - 1 <= r <= 2 * MAX_EPOCH_SECONDS + 1,
{
    let total: i128 = (later.seconds as i128 - earlier.seconds as i128) * 1_000_000_000i128
        + (later.nanos as i128 - earlier.nanos as i128);
    assert(total == later.total_nanos() - earlier.total_nanos());
    let q: i128 = if total >= 0 {
        total / 1_000_000_000i128
    } else {
        -((-total) / 1_000_000_000i128)
    };
    assert(-2 * MAX_EPOCH_SECONDS - 1 <= q <= 2 * MAX_EPOCH_SECONDS + 1) by {
        assert(-(2 * MAX_EPOCH_SECONDS + 1) * 1_000_000_000 <= total <= (2 * MAX_EPOCH_SECONDS
            + 1) * 1_000_000_000);
    }
    q as i64
}

} // verus!

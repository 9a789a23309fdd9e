use vstd::prelude::*;

use crate::error::MlsError;
use crate::time::MlsTime;

verus! {

/// Seconds taken off the start of a new validity window, to allow for
/// clocks that disagree between machines.
pub const CLOCK_SKEW_SECONDS: u64 = 3600;

/// Seconds in one day.
pub const SECONDS_PER_DAY: u64 = 86400;

/// Days in one year, as validity windows count them.
pub const DAYS_PER_YEAR: u32 = 365;

/// A validity window: the closed interval from `not_before` to `not_after`.
#[derive(Clone, Copy, Debug, Default, PartialEq, Eq, Structural)]
#[non_exhaustive]
pub struct Lifetime {
    pub not_before: MlsTime,
    pub not_after: MlsTime,
}

/// The window of `s` seconds that starts at `start`: it opens one hour of
/// clock skew before `start` and closes `s` seconds after it. Either bound
/// leaving the range of `u64` is a `TimeOverflow`.
pub open spec fn window_from(s: u64, start: MlsTime) -> Result<Lifetime, MlsError> {
    if start.seconds + s > u64::MAX || start.seconds < CLOCK_SKEW_SECONDS {
        Err(MlsError::TimeOverflow)
    } else {
        Ok(
            Lifetime {
                not_before: MlsTime { seconds: (start.seconds - CLOCK_SKEW_SECONDS) as u64 },
                not_after: MlsTime { seconds: (start.seconds + s) as u64 },
            },
        )
    }
}

impl Lifetime {
    /// Whether `time` lies in the closed window.
    pub open spec fn contains(&self, time: MlsTime) -> bool {
        self.not_before.seconds <= time.seconds <= self.not_after.seconds
    }

    pub fn new(not_before: MlsTime, not_after: MlsTime) -> (r: Lifetime)
        ensures
            r.not_before == not_before,
            r.not_after == not_after,
    {
        Lifetime { not_before, not_after }
    }

    /// A window of `s` seconds starting at `maybe_not_before`, or at the
    /// current time when none is given.
    pub fn seconds(s: u64, maybe_not_before: Option<MlsTime>) -> (r: Result<Self, MlsError>)
        ensures
            maybe_not_before matches Some(start) ==> r == window_from(s, start),
            maybe_not_before is None ==> exists|start: MlsTime| r == window_from(s, start),
            s == u64::MAX ==> r == Err::<Self, MlsError>(MlsError::TimeOverflow),
    {
        let start = match maybe_not_before {
            Some(t) => t,
            None => MlsTime::now(),
        };
        let not_after = match start.seconds.checked_add(s) {
            Some(v) => v,
            None => {
                return Err(MlsError::TimeOverflow);
            },
        };
        if start.seconds < CLOCK_SKEW_SECONDS {
            return Err(MlsError::TimeOverflow);
        }
        let r = Ok(
            Lifetime {
                not_before: MlsTime { seconds: start.seconds - CLOCK_SKEW_SECONDS },
                not_after: MlsTime { seconds: not_after },
            },
        );
        assert(r == window_from(s, start));
        r
    }

    /// A window of `d` days; see [`Lifetime::seconds`].
    pub fn days(d: u32, maybe_not_before: Option<MlsTime>) -> (r: Result<Self, MlsError>)
        ensures
            maybe_not_before matches Some(start) ==> r == window_from(
                (d * SECONDS_PER_DAY) as u64,
                start,
            ),
            maybe_not_before is None ==> exists|start: MlsTime|
                r == #[trigger] window_from((d * SECONDS_PER_DAY) as u64, start),
    {
        assert(d * SECONDS_PER_DAY <= u64::MAX) by (nonlinear_arith)
            requires
                d <= u32::MAX,
        ;
        Self::seconds(d as u64 * SECONDS_PER_DAY, maybe_not_before)
    }

    /// A window of `y` years of 365 days; see [`Lifetime::seconds`].
    pub fn years(y: u8, maybe_not_before: Option<MlsTime>) -> (r: Result<Self, MlsError>)
        ensures
            maybe_not_before matches Some(start) ==> r == window_from(
                (y * DAYS_PER_YEAR * SECONDS_PER_DAY) as u64,
                start,
            ),
            maybe_not_before is None ==> exists|start: MlsTime|
                r == #[trigger] window_from((y * DAYS_PER_YEAR * SECONDS_PER_DAY) as u64, start),
    {
        Self::days(DAYS_PER_YEAR * y as u32, maybe_not_before)
    }

    /// Whether `time` lies in the window, both bounds included.
    pub fn within_lifetime(&self, time: MlsTime) -> (r: bool)
        ensures
            r == self.contains(time),
    {
        self.not_before.seconds <= time.seconds && time.seconds <= self.not_after.seconds
    }
}

} // verus!

use vstd::prelude::*;

verus! {

/// A point in time after 1970, with a precision of one second.
#[derive(Clone, Copy, Debug, Default, PartialEq, Eq, PartialOrd, Ord, Hash, Structural)]
pub struct MlsTime {
    pub seconds: u64,
}

/// Relies on `mls_rs_core::time::MlsTime::now` and `seconds_since_epoch`:
/// the seconds elapsed since the Unix epoch, as the system clock reads them.
/// Nothing is known of the value.
#[verifier::external_body]
fn system_seconds_now() -> (r: u64) {
    mls_rs_core::time::MlsTime::now().seconds_since_epoch()
}

impl MlsTime {
    /// The current system time.
    pub fn now() -> (r: MlsTime) {
        MlsTime { seconds: system_seconds_now() }
    }

    /// Number of seconds since the Unix epoch.
    pub fn seconds_since_epoch(&self) -> (r: u64)
        ensures
            r == self.seconds,
    {
        self.seconds
    }
}

impl From<u64> for MlsTime {
    fn from(value: u64) -> (r: MlsTime) {
        MlsTime { seconds: value }
    }
}

impl vstd::std_specs::convert::FromSpecImpl<u64> for MlsTime {
    open spec fn obeys_from_spec() -> bool {
        true
    }

    open spec fn from_spec(v: u64) -> MlsTime {
        MlsTime { seconds: v }
    }
}

} // verus!

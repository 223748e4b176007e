//! Points in time, as the state file records them.

use vstd::prelude::*;

verus! {

/// The first second a timestamp can have: midnight of January 1, 262144 BCE.
pub const MIN_SECONDS: i64 = -8_334_601_228_800;

/// The last second a timestamp can have: the end of the year 262142.
pub const MAX_SECONDS: i64 = 8_210_266_876_799;

/// Whether `secs` and `nanos` name a point in time: within the calendar, and a
/// leap second (nanoseconds past a whole second) only at the end of a minute.
pub open spec fn is_time(secs: int, nanos: int) -> bool {
    &&& MIN_SECONDS <= secs <= MAX_SECONDS
    &&& 0 <= nanos < 2_000_000_000
    &&& nanos >= 1_000_000_000 ==> secs % 60 == 59
}

/// A point in time: seconds since the Unix epoch in UTC, and nanoseconds.
#[derive(Debug, Clone, Copy, PartialEq, Eq, Structural)]
pub struct Timestamp {
    secs: i64,
    nanos: u32,
}

impl Timestamp {
    #[verifier::type_invariant]
    spec fn is_valid(self) -> bool {
        is_time(self.secs as int, self.nanos as int)
    }

    pub closed spec fn secs(self) -> int {
        self.secs as int
    }

    pub closed spec fn nanos(self) -> int {
        self.nanos as int
    }

    /// The point in time `secs` seconds and `nanos` nanoseconds after the Unix
    /// epoch; `None` where the calendar does not reach.
    pub fn new(secs: i64, nanos: u32) -> (r: Option<Self>)
        ensures
            r is Some <==> is_time(secs as int, nanos as int),
            r matches Some(t) ==> t.secs() == secs && t.nanos() == nanos,
    {
        if secs < MIN_SECONDS || secs > MAX_SECONDS || nanos >= 2_000_000_000 {
            return None;
        }
        // MIN_SECONDS is a whole number of minutes.
        let into_minute = ((secs - MIN_SECONDS) as u64) % 60;
        proof {
            assert(into_minute == secs as int % 60) by (nonlinear_arith)
                requires
                    into_minute == (secs - (-8_334_601_228_800int)) % 60,
            ;
        }
        if nanos >= 1_000_000_000 && into_minute != 59 {
            return None;
        }
        Some(Timestamp { secs, nanos })
    }

    /// Seconds since the Unix epoch.
    pub fn seconds(&self) -> (r: i64)
        ensures
            r == self.secs(),
    {
        self.secs
    }

    /// Nanoseconds within the second.
    pub fn nanoseconds(&self) -> (r: u32)
        ensures
            r == self.nanos(),
    {
        self.nanos
    }

    /// The timestamp as `2026-06-18 08:05:00 UTC`.
    pub fn utc(&self) -> (r: String)
        ensures
            r@ == utc_text(self.secs(), self.nanos()),
    {
        proof {
            use_type_invariant(self);
        }
        format_utc(self.secs, self.nanos)
    }
}

/// The point in time `secs`, `nanos` as `2026-06-18 08:05:00 UTC`.
pub uninterp spec fn utc_text(secs: int, nanos: int) -> Seq<char>;

/// `chrono::DateTime::from_timestamp`, rendered by `DateTime::format` as
/// `%Y-%m-%d %H:%M:%S UTC`. The calendar is not spelled out, only named.
#[verifier::external_body]
fn format_utc(secs: i64, nanos: u32) -> (r: String)
    requires
        is_time(secs as int, nanos as int),
    ensures
        r@ == utc_text(secs as int, nanos as int),
{
    let time = chrono::DateTime::from_timestamp(secs, nanos).unwrap();
    time.format("%Y-%m-%d %H:%M:%S UTC").to_string()
}

/// The calendar is of whole days, from its first to its last; and only the last second of a
/// minute can be a leap second.
pub proof fn law_calendar_is_of_whole_days(secs: int, nanos: int)
    ensures
        0 <= nanos < 1_000_000_000 ==> (is_time(secs, nanos) <==> -96_465_292 <= secs / 86_400
            <= 95_026_236),
        is_time(secs, nanos) && nanos >= 1_000_000_000 ==> secs % 60 == 59 && is_time(secs, 0),
        !(0 <= nanos < 2_000_000_000) ==> !is_time(secs, nanos),
{
}

} // verus!

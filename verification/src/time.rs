use chrono::Datelike;
use chrono::Timelike;
use vstd::prelude::*;

verus! {

/// Largest UNIX timestamp (in seconds) that a [`DateTime`] may hold.
///
/// This matches the last second that `chrono` can represent
/// (`262142-12-31T23:59:59Z`), so every `DateTime` of this library can be
/// converted to a `chrono` datetime by unverified callers.
pub const MAX_TIMESTAMP: i64 = 8_210_266_876_799;

/// Nanoseconds in one second.
pub const NANOS_PER_SEC: u32 = 1_000_000_000;

/// Represents a date and time in the UTC time zone, held as whole seconds
/// since the UNIX epoch plus a sub-second nanosecond part.
#[derive(Clone, Copy, PartialEq, Eq, Structural, Debug, Hash)]
pub struct DateTime {
    pub secs: i64,
    pub nanos: u32,
}

impl DateTime {
    /// Validity of a datetime: non-negative seconds within the representable
    /// range, and a sub-second nanosecond part.
    pub open spec fn wf(&self) -> bool {
        0 <= self.secs <= MAX_TIMESTAMP && self.nanos < NANOS_PER_SEC
    }

    /// Constructs a datetime from a UNIX timestamp, rejecting values outside
    /// the representable range.
    pub fn new(secs: i64, nanos: u32) -> (r: Option<DateTime>)
        ensures
            (0 <= secs <= MAX_TIMESTAMP && nanos < NANOS_PER_SEC) <==> r is Some,
            r matches Some(dt) ==> dt.secs == secs && dt.nanos == nanos && dt.wf(),
    {
        if 0 <= secs && secs <= MAX_TIMESTAMP && nanos < NANOS_PER_SEC {
            Some(DateTime { secs, nanos })
        } else {
            None
        }
    }

    /// The number of non-leap seconds since the UNIX epoch.
    pub fn timestamp(&self) -> (r: i64)
        ensures
            r == self.secs,
    {
        self.secs
    }

    /// The sub-second part, in nanoseconds.
    pub fn subsec_nanos(&self) -> (r: u32)
        ensures
            r == self.nanos,
    {
        self.nanos
    }
}

/// The civil (calendar) fields of an instant, as seen in the machine's local
/// time zone.
#[derive(Clone, Copy, PartialEq, Eq, Structural, Debug)]
pub struct CivilParts {
    pub year: i32,
    pub month: u8,
    pub day: u8,
    pub hour: u8,
    pub minute: u8,
    pub second: u8,
}

/// Relies on `chrono::DateTime::from_timestamp`, `chrono::DateTime::with_timezone`
/// with `chrono::Local`, and the `chrono::Datelike` / `chrono::Timelike` accessors:
/// converts a UNIX timestamp to the calendar fields of the machine's local time
/// zone. The result depends on the machine's time zone database, so nothing more
/// than the documented field ranges is assumed of it. Out-of-range timestamps
/// yield the fields of the epoch datetime, as `unwrap_or_default` provides.
#[verifier::external_body]
pub(crate) fn local_civil_parts(secs: i64) -> (r: CivilParts)
    ensures
        1 <= r.month <= 12,
        1 <= r.day <= 31,
        r.hour <= 23,
        r.minute <= 59,
        r.second <= 59,
{
    let dt = chrono::DateTime::from_timestamp(secs, 0).unwrap_or_default();
    let local = dt.with_timezone(&chrono::Local);
    CivilParts {
        year: local.year(),
        month: local.month() as u8,
        day: local.day() as u8,
        hour: local.hour() as u8,
        minute: local.minute() as u8,
        second: local.second() as u8,
    }
}

/// Relies on `chrono::Utc::now`: the current wall-clock time as a UNIX
/// timestamp with a sub-second nanosecond part. Nothing is assumed of the
/// machine's clock.
#[verifier::external_body]
fn utc_now_raw() -> (r: (i64, u32))
{
    let now = chrono::Utc::now();
    (now.timestamp(), now.timestamp_subsec_nanos())
}

impl DateTime {
    /// The current wall-clock time, clamped into the representable range.
    pub fn now() -> (r: DateTime)
        ensures
            r.wf(),
    {
        let (secs, nanos) = utc_now_raw();
        let secs: i64 = if secs < 0 {
            0
        } else if secs > MAX_TIMESTAMP {
            MAX_TIMESTAMP
        } else {
            secs
        };
        let nanos: u32 = if nanos >= NANOS_PER_SEC {
            NANOS_PER_SEC - 1
        } else {
            nanos
        };
        DateTime { secs, nanos }
    }
}

/// Represents the dimension of datetime, used for log rotation.
#[derive(Clone, Copy, PartialEq, Eq, Structural, Debug)]
pub enum TimeDimension {
    Day,
    Hour,
    Minute,
}

/// Whether two instants fall into the same bucket of the given dimension:
/// `Day` asks for the same calendar date, `Hour` additionally for the same
/// hour, `Minute` additionally for the same minute.
pub open spec fn spec_check_match(dim: TimeDimension, a: CivilParts, b: CivilParts) -> bool {
    let same_date = a.year == b.year && a.month == b.month && a.day == b.day;
    match dim {
        TimeDimension::Day => same_date,
        TimeDimension::Hour => same_date && a.hour == b.hour,
        TimeDimension::Minute => same_date && a.hour == b.hour && a.minute == b.minute,
    }
}

impl TimeDimension {
    /// Checks whether two datetimes, given by their local calendar fields,
    /// match on this dimension.
    pub fn check_match(self, a: &CivilParts, b: &CivilParts) -> (r: bool)
        ensures
            r == spec_check_match(self, *a, *b),
    {
        let same_date = a.year == b.year && a.month == b.month && a.day == b.day;
        match self {
            TimeDimension::Day => same_date,
            TimeDimension::Hour => same_date && a.hour == b.hour,
            TimeDimension::Minute => same_date && a.hour == b.hour && a.minute == b.minute,
        }
    }

    /// The file rotation dimension implied by this chunk rotation dimension:
    /// a file always groups chunks of the coarser bucket containing them.
    pub fn file_dimension(self) -> (r: TimeDimension)
        ensures
            r == spec_file_dimension(self),
    {
        match self {
            TimeDimension::Minute => TimeDimension::Hour,
            TimeDimension::Hour => TimeDimension::Day,
            TimeDimension::Day => TimeDimension::Day,
        }
    }
}

pub open spec fn spec_file_dimension(dim: TimeDimension) -> TimeDimension {
    match dim {
        TimeDimension::Minute => TimeDimension::Hour,
        TimeDimension::Hour => TimeDimension::Day,
        TimeDimension::Day => TimeDimension::Day,
    }
}

/// A match on a finer dimension implies a match on every coarser one.
pub proof fn lemma_finer_match_implies_coarser(a: CivilParts, b: CivilParts)
    ensures
        spec_check_match(TimeDimension::Minute, a, b) ==> spec_check_match(
            TimeDimension::Hour,
            a,
            b,
        ),
        spec_check_match(TimeDimension::Hour, a, b) ==> spec_check_match(TimeDimension::Day, a, b),
{
}

} // verus!

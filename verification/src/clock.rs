//! Moments in time, read from and written as text by chrono, and the whole
//! seconds between two of them.
use vstd::prelude::*;
use chrono::{Datelike, Timelike};

verus! {

/// Nanoseconds in one second.
pub const NANOS_PER_SECOND: i128 = 1_000_000_000;

/// A moment in UTC: the day (January 1 of year 1 is day 1), the seconds
/// since that day's midnight, and the nanoseconds past that second, which
/// reach 1_000_000_000 or more only within a leap second.
#[derive(Clone, Copy, PartialEq, Eq, Debug, Structural)]
pub struct Instant {
    pub days: i32,
    pub secs: u32,
    pub frac: u32,
}

/// A moment as an `Instant` and as the RFC 3339 text that is stored for it.
pub struct Moment {
    pub instant: Instant,
    pub text: String,
}

/// One second more or less where a leap second lies between the two
/// moments' times of day.
pub open spec fn leap_adjustment(later: Instant, earlier: Instant) -> int {
    if later.secs > earlier.secs && earlier.frac >= NANOS_PER_SECOND {
        1
    } else if later.secs < earlier.secs && later.frac >= NANOS_PER_SECOND {
        -1
    } else {
        0
    }
}

/// The nanoseconds from `earlier` to `later` (negative where `later` comes first).
pub open spec fn elapsed_nanos(later: Instant, earlier: Instant) -> int {
    ((later.days - earlier.days) * 86400 + (later.secs - earlier.secs) + leap_adjustment(
        later,
        earlier,
    )) * NANOS_PER_SECOND + (later.frac - earlier.frac)
}

/// The whole seconds in `nanos`, rounded toward zero.
pub open spec fn whole_seconds(nanos: int) -> int {
    if nanos >= 0 {
        nanos / (NANOS_PER_SECOND as int)
    } else {
        -((-nanos) / (NANOS_PER_SECOND as int))
    }
}

/// The whole seconds from `earlier` to `later`, rounded toward zero.
pub open spec fn elapsed_seconds(later: Instant, earlier: Instant) -> int {
    whole_seconds(elapsed_nanos(later, earlier))
}

/// What `chrono::DateTime::parse_from_rfc3339` makes of a text: the moment
/// in UTC, or the text of its parse error.
pub uninterp spec fn rfc3339_instant(text: Seq<char>) -> Result<Instant, Seq<char>>;

/// What `chrono::NaiveDateTime::parse_from_str` makes of `text` read with
/// `pattern`: the calendar day of the parsed date and time, written as
/// chrono writes a date (`%Y-%m-%d`), or nothing where the text does not parse.
pub uninterp spec fn parsed_day(text: Seq<char>, pattern: Seq<char>) -> Option<Seq<char>>;

/// A parse result with its error taken by its view.
pub open spec fn parse_view(res: Result<Instant, String>) -> Result<Instant, Seq<char>> {
    match res {
        Ok(t) => Ok(t),
        Err(e) => Err(e@),
    }
}

/// What chrono's `to_rfc3339` writes for the moment `instant` in UTC.
pub uninterp spec fn utc_rfc3339(instant: Instant) -> Seq<char>;

/// `instant` lies in the years 1 to 9999, which RFC 3339 text writes with
/// four digits (January 1 of year 1 is day 1, December 31 of 9999 is day 3652059).
pub open spec fn in_four_digit_years(instant: Instant) -> bool {
    1 <= instant.days <= 3_652_059
}

/// `m` is a reading of the clock as `current_moment` gives it: a time of day
/// without a leap second, written as chrono's RFC 3339 text of that moment,
/// which reads back as the same moment in the years 1 to 9999.
pub open spec fn clock_reading(m: Moment) -> bool {
    &&& m.instant.secs < 86400
    &&& m.instant.frac < NANOS_PER_SECOND
    &&& m.text@ == utc_rfc3339(m.instant)
    &&& in_four_digit_years(m.instant) ==> rfc3339_instant(m.text@) == Ok::<Instant, Seq<char>>(
        m.instant,
    )
}

/// Reads the system clock (`std::time::SystemTime::now`) and turns it into a
/// UTC moment with chrono's `From<SystemTime>` for `DateTime<Utc>`, which,
/// unlike `Utc::now`, also takes a clock set before 1970; the moment is given
/// both as an `Instant` and as the text of `to_rfc3339`. The claim: the time
/// of day is below 86400 seconds and its nanoseconds below one second (the
/// system clock has no leap second), the text is `utc_rfc3339` of the
/// instant, and in the years 1 to 9999 `parse_from_rfc3339` reads that text
/// back as the same instant (`to_rfc3339` writes a four-digit year, every
/// nonzero digit of the nanoseconds and the offset `+00:00`). Which moment it
/// is, is not stated. chrono's conversion unwraps a timestamp outside its
/// range of about 262,000 years either side of year 0, far beyond any
/// reading that the system clock gives.
#[verifier::external_body]
pub(crate) fn current_moment() -> (now: Moment)
    ensures
        now.instant.secs < 86400,
        now.instant.frac < NANOS_PER_SECOND,
        now.text@ == utc_rfc3339(now.instant),
        in_four_digit_years(now.instant) ==> rfc3339_instant(now.text@) == Ok::<Instant, Seq<char>>(
            now.instant,
        ),
{
    let now = chrono::DateTime::<chrono::Utc>::from(std::time::SystemTime::now());
    let utc = now.naive_utc();
    Moment {
        instant: Instant {
            days: utc.date().num_days_from_ce(),
            secs: utc.time().num_seconds_from_midnight(),
            frac: utc.time().nanosecond(),
        },
        text: now.to_rfc3339(),
    }
}

/// Calls `chrono::DateTime::parse_from_rfc3339` and takes the parsed moment
/// in UTC, or the text of the parse error. The claim is only that the result
/// is `rfc3339_instant` of the text.
#[verifier::external_body]
pub(crate) fn parse_rfc3339(text: &str) -> (res: Result<Instant, String>)
    ensures
        parse_view(res) == rfc3339_instant(text@),
{
    match chrono::DateTime::parse_from_rfc3339(text) {
        Ok(moment) => {
            let utc = moment.naive_utc();
            Ok(Instant {
                days: utc.date().num_days_from_ce(),
                secs: utc.time().num_seconds_from_midnight(),
                frac: utc.time().nanosecond(),
            })
        },
        Err(e) => Err(e.to_string()),
    }
}

/// Calls `chrono::NaiveDateTime::parse_from_str` and writes the parsed date
/// as chrono's `Display` of a `NaiveDate` does, which is `%Y-%m-%d`. The
/// claim is only that the result is `parsed_day` of the text and the pattern.
#[verifier::external_body]
pub(crate) fn parse_day(text: &str, pattern: &str) -> (day: Option<String>)
    ensures
        match day {
            Some(d) => parsed_day(text@, pattern@) == Some(d@),
            None => parsed_day(text@, pattern@) is None,
        },
{
    match chrono::NaiveDateTime::parse_from_str(text, pattern) {
        Ok(moment) => Some(moment.date().to_string()),
        Err(_) => None,
    }
}

/// The whole seconds from `earlier` to `later`, rounded toward zero, as
/// chrono's `signed_duration_since` followed by `num_seconds` counts them.
pub fn seconds_between(later: &Instant, earlier: &Instant) -> (s: i64)
    ensures
        s == elapsed_seconds(*later, *earlier),
{
    let mut secs: i128 = (later.days as i128 - earlier.days as i128) * 86400 + (later.secs as i128
        - earlier.secs as i128);
    if later.secs > earlier.secs && earlier.frac as i128 >= NANOS_PER_SECOND {
        secs = secs + 1;
    } else if later.secs < earlier.secs && later.frac as i128 >= NANOS_PER_SECOND {
        secs = secs - 1;
    }
    let nanos: i128 = secs * NANOS_PER_SECOND + (later.frac as i128 - earlier.frac as i128);
    assert(nanos == elapsed_nanos(*later, *earlier));
    if nanos >= 0 {
        let whole: i128 = nanos / NANOS_PER_SECOND;
        whole as i64
    } else {
        let whole: i128 = (-nanos) / NANOS_PER_SECOND;
        -(whole as i64)
    }
}

/// The seconds from a moment to itself are none, and swapping two moments
/// negates the seconds between them.
pub proof fn lemma_elapsed_antisymmetric(a: Instant, b: Instant)
    ensures
        elapsed_seconds(a, a) == 0,
        elapsed_seconds(a, b) == -elapsed_seconds(b, a),
{
    assert(elapsed_nanos(a, a) == 0);
    assert(elapsed_nanos(b, a) == -elapsed_nanos(a, b));
}

/// The seconds from `earlier` to `later`, or zero where `later` is not after
/// `earlier`: how long a session lasted.
pub open spec fn nonnegative_seconds(later: Instant, earlier: Instant) -> int {
    let s: int = elapsed_seconds(later, earlier);
    if s > 0 {
        s
    } else {
        0
    }
}

/// The nanoseconds from the start of day 0 to `t`, every day counting 86400
/// seconds.
pub open spec fn timeline_nanos(t: Instant) -> int {
    ((t.days as int) * 86400 + (t.secs as int)) * (NANOS_PER_SECOND as int) + (t.frac as int)
}

/// The whole seconds from `earlier` to `later` on that timeline, or zero
/// where `later` does not come after `earlier`.
pub open spec fn seconds_on_timeline(later: Instant, earlier: Instant) -> int {
    let d: int = timeline_nanos(later) - timeline_nanos(earlier);
    if d > 0 {
        d / (NANOS_PER_SECOND as int)
    } else {
        0
    }
}

/// Between two moments outside a leap second, the nanoseconds between them
/// are their distance on the timeline, days included; the seconds between
/// them are the whole seconds of that distance, rounded toward zero; and the
/// seconds a session between them lasted are those whole seconds where the
/// distance is positive, zero otherwise.
pub proof fn lemma_session_seconds_on_timeline(later: Instant, earlier: Instant)
    requires
        later.frac < NANOS_PER_SECOND,
        earlier.frac < NANOS_PER_SECOND,
    ensures
        elapsed_nanos(later, earlier) == timeline_nanos(later) - timeline_nanos(earlier),
        timeline_nanos(later) >= timeline_nanos(earlier) ==> elapsed_seconds(later, earlier) == (
        timeline_nanos(later) - timeline_nanos(earlier)) / (NANOS_PER_SECOND as int),
        timeline_nanos(later) < timeline_nanos(earlier) ==> elapsed_seconds(later, earlier) == -((
        timeline_nanos(earlier) - timeline_nanos(later)) / (NANOS_PER_SECOND as int)),
        nonnegative_seconds(later, earlier) == seconds_on_timeline(later, earlier),
{
    assert(leap_adjustment(later, earlier) == 0);
    let d: int = timeline_nanos(later) - timeline_nanos(earlier);
    assert(elapsed_nanos(later, earlier) == d);
    if d < 0 {
        assert((-d) / (NANOS_PER_SECOND as int) >= 0);
    }
}

/// How long a session from `earlier` to `later` lasted, never negative.
pub fn session_seconds(later: &Instant, earlier: &Instant) -> (s: i64)
    ensures
        s == nonnegative_seconds(*later, *earlier),
        s >= 0,
{
    let s: i64 = seconds_between(later, earlier);
    if s > 0 {
        s
    } else {
        0
    }
}

/// A session never lasts a negative time, and one that ends where it
/// started, or before, lasts none.
pub proof fn lemma_session_seconds_nonnegative(later: Instant, earlier: Instant)
    ensures
        nonnegative_seconds(later, earlier) >= 0,
        elapsed_seconds(later, earlier) <= 0 ==> nonnegative_seconds(later, earlier) == 0,
        nonnegative_seconds(earlier, earlier) == 0,
{
    lemma_elapsed_antisymmetric(earlier, later);
}

} // verus!

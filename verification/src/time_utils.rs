//! Instants and clock times: the texts that the backend reads as the ends of
//! a query range, and the labels of the chart's time axis.

use crate::decimal::{digit_char, Decimal, ONE};
use chrono::{DateTime, TimeZone, Utc};
use vstd::prelude::*;

verus! {

/// The first second that the calendar reaches: the start of the year -262143.
pub const MIN_SECONDS: i64 = -8_334_601_228_800;

/// The last second that the calendar reaches: the end of the year 262142.
pub const MAX_SECONDS: i64 = 8_210_266_876_799;

/// Whether `nanos` nanoseconds into the second `secs` since the epoch is an
/// instant of the calendar. A count of a thousand million nanoseconds or more
/// stands for a leap second, which can only follow the last second of a
/// minute.
pub open spec fn utc_valid(secs: int, nanos: int) -> bool {
    &&& MIN_SECONDS <= secs <= MAX_SECONDS
    &&& 0 <= nanos < 2_000_000_000
    &&& nanos >= 1_000_000_000 ==> secs % 60 == 59
}

/// The two digits of `n`, for `n` below a hundred.
pub open spec fn two_digits(n: int) -> Seq<char> {
    seq![digit_char(n / 10), digit_char(n % 10)]
}

/// The time of day in UTC at the second `secs` since the epoch, as hours and
/// minutes on a 24-hour clock.
pub open spec fn clock_text(secs: int) -> Seq<char> {
    two_digits(secs % 86_400 / 3_600) + seq![':'] + two_digits(secs % 3_600 / 60)
}

/// The instant one hour before `nanos` nanoseconds into the second `secs`. A
/// leap second counts as a second of its own behind the last of its minute,
/// so an hour before it lies in the first second of its hour: an hour before
/// 23:59:60.5 is 23:00:00.5.
pub open spec fn hour_before(secs: int, nanos: int) -> (int, int) {
    if nanos >= 1_000_000_000 {
        (secs - 3_599, nanos - 1_000_000_000)
    } else {
        (secs - 3_600, nanos)
    }
}

/// The text that chrono's `Debug` writes for the UTC date and time at `nanos`
/// nanoseconds into the second `secs`: date, `T`, time of day, `Z`.
pub uninterp spec fn utc_text(secs: int, nanos: int) -> Seq<char>;

/// The second and nanosecond that chrono reads from `text` as a date and time
/// with an offset, or `None` where it reads none.
pub uninterp spec fn parsed_utc(text: Seq<char>) -> Option<(int, int)>;

/// chrono's error for a text that is no date and time.
#[verifier::external_type_specification]
#[verifier::external_body]
pub struct ExParseError(chrono::ParseError);

/// `Utc.timestamp_opt`, then `format("%H:%M")`: the hour and the minute of
/// the UTC time of day, two digits each. The instant must be one of the
/// calendar, as chrono gives no date and time for any other.
#[verifier::external_body]
fn utc_clock(secs: i64, nanos: u32) -> (r: String)
    requires
        utc_valid(secs as int, nanos as int),
    ensures
        r@ == clock_text(secs as int),
{
    Utc.timestamp_opt(secs, nanos).unwrap().format("%H:%M").to_string()
}

/// `Utc.timestamp_opt`, then `Debug` of the `DateTime<Utc>`: the text that
/// `utc_text` names. The instant must be one of the calendar.
#[verifier::external_body]
fn utc_debug(secs: i64, nanos: u32) -> (r: String)
    requires
        utc_valid(secs as int, nanos as int),
    ensures
        r@ == utc_text(secs as int, nanos as int),
{
    format!("{:?}", Utc.timestamp_opt(secs, nanos).unwrap())
}

/// `str::parse::<DateTime<Utc>>`, then `timestamp` and
/// `timestamp_subsec_nanos` of what was read: the pair that `parsed_utc`
/// names, or chrono's error.
#[verifier::external_body]
fn utc_parse(text: &str) -> (r: Result<(i64, u32), chrono::ParseError>)
    ensures
        match r {
            Ok(p) => parsed_utc(text@) == Some((p.0 as int, p.1 as int)),
            Err(_) => parsed_utc(text@) is None,
        },
{
    match text.parse::<DateTime<Utc>>() {
        Ok(d) => Ok((d.timestamp(), d.timestamp_subsec_nanos())),
        Err(e) => Err(e),
    }
}

/// `Utc::now`, then `timestamp` and `timestamp_subsec_nanos`: the clock's
/// reading. chrono makes it from the time that has gone by since the epoch,
/// as whole seconds and less than a second of nanoseconds, and only hands it
/// out as an instant of the calendar; so it never lies before the epoch.
#[verifier::external_body]
fn utc_now() -> (r: (i64, u32))
    ensures
        utc_valid(r.0 as int, r.1 as int),
        r.0 >= 0,
        r.1 < 1_000_000_000,
{
    let now = Utc::now();
    (now.timestamp(), now.timestamp_subsec_nanos())
}

/// Why a text gives no instant.
#[derive(Clone, Copy, Debug, PartialEq, Eq, Structural)]
pub enum TimeError {
    /// The text is no date and time with an offset.
    Malformed,
    /// The instant, or the one asked for, lies outside the calendar.
    OutOfRange,
}

/// An instant of the calendar in UTC.
#[derive(Clone, Copy, Debug, PartialEq, Eq)]
pub struct UtcInstant {
    secs: i64,
    nanos: u32,
}

impl View for UtcInstant {
    type V = (int, int);

    /// The second since the epoch and the nanosecond in it.
    closed spec fn view(&self) -> (int, int) {
        (self.secs as int, self.nanos as int)
    }
}

/// `secs` modulo sixty, never negative.
fn second_of_minute(secs: i64) -> (r: i64)
    ensures
        r == secs as int % 60,
{
    if secs >= 0 {
        secs % 60
    } else {
        59 - (-(secs + 1)) % 60
    }
}

impl UtcInstant {
    #[verifier::type_invariant]
    closed spec fn in_calendar(&self) -> bool {
        utc_valid(self.secs as int, self.nanos as int)
    }

    /// The instant `nanos` nanoseconds into the second `secs` since the
    /// epoch, if the calendar has it.
    pub fn new(secs: i64, nanos: u32) -> (r: Option<UtcInstant>)
        ensures
            match r {
                Some(t) => utc_valid(secs as int, nanos as int) && t@ == (
                    secs as int,
                    nanos as int,
                ),
                None => !utc_valid(secs as int, nanos as int),
            },
    {
        if secs < MIN_SECONDS || secs > MAX_SECONDS || nanos >= 2_000_000_000 {
            return None;
        }
        if nanos >= 1_000_000_000 && second_of_minute(secs) != 59 {
            return None;
        }
        Some(UtcInstant { secs, nanos })
    }

    /// The clock's reading: an instant at or after the epoch, without a leap
    /// second.
    pub fn now() -> (r: UtcInstant)
        ensures
            utc_valid(r@.0, r@.1),
            r@.0 >= 0,
            r@.1 < 1_000_000_000,
    {
        let (secs, nanos) = utc_now();
        UtcInstant { secs, nanos }
    }

    /// The second since the epoch.
    pub fn seconds(&self) -> (r: i64)
        ensures
            r == self@.0,
            utc_valid(self@.0, self@.1),
    {
        proof {
            use_type_invariant(self);
        }
        self.secs
    }

    /// The nanosecond in the second.
    pub fn nanoseconds(&self) -> (r: u32)
        ensures
            r == self@.1,
    {
        self.nanos
    }

    /// The instant one hour earlier, if the calendar has it.
    pub fn one_hour_before(&self) -> (r: Option<UtcInstant>)
        ensures
            match r {
                Some(t) => t@ == hour_before(self@.0, self@.1) && utc_valid(t@.0, t@.1),
                None => !utc_valid(
                    hour_before(self@.0, self@.1).0,
                    hour_before(self@.0, self@.1).1,
                ),
            },
    {
        proof {
            use_type_invariant(self);
        }
        if self.nanos >= 1_000_000_000 {
            UtcInstant::new(self.secs - 3_599, self.nanos - 1_000_000_000)
        } else {
            UtcInstant::new(self.secs - 3_600, self.nanos)
        }
    }
}

/// The clock time of `timestamp` seconds since the epoch: the time of day in
/// UTC of its whole second, or none where that second lies outside the
/// calendar.
pub open spec fn time_string_of(timestamp: Decimal) -> Option<Seq<char>> {
    let secs = timestamp.units as int / (ONE as int);
    if MIN_SECONDS <= secs <= MAX_SECONDS {
        Some(clock_text(secs))
    } else {
        None
    }
}

/// The time of day in UTC at `timestamp` seconds since the epoch, as `HH:MM`
/// on a 24-hour clock. There is none where the second lies outside the
/// calendar.
pub fn timestamp_to_time_string(timestamp: Decimal) -> (r: Option<String>)
    ensures
        match r {
            Some(t) => time_string_of(timestamp) == Some(t@),
            None => time_string_of(timestamp) is None,
        },
{
    let secs: i128 = timestamp.whole();
    let nanos: u32 = timestamp.fraction();
    if secs < MIN_SECONDS as i128 || secs > MAX_SECONDS as i128 {
        return None;
    }
    Some(utc_clock(secs as i64, nanos))
}

/// The text of `date` that the backend reads as an end of a query range.
pub fn format_to_prom_date_string(date: UtcInstant) -> (r: String)
    ensures
        r@ == utc_text(date@.0, date@.1),
{
    proof {
        use_type_invariant(&date);
    }
    utc_debug(date.secs, date.nanos)
}

/// Whether `nanos` nanoseconds into the second `secs` can be a reading of
/// the clock: an instant of the calendar at or after the epoch, without a
/// leap second.
pub open spec fn is_reading(secs: int, nanos: int) -> bool {
    &&& utc_valid(secs, nanos)
    &&& secs >= 0
    &&& nanos < 1_000_000_000
}

/// The text of the clock's reading, as the backend reads it.
pub fn get_now() -> (r: String)
    ensures
        exists|secs: int, nanos: int|
            is_reading(secs, nanos) && r@ == #[trigger] utc_text(secs, nanos),
{
    let now = UtcInstant::now();
    format_to_prom_date_string(now)
}

/// The texts of the two ends of the hour that ends at `now`, as the backend
/// reads them: the instant one hour before `now`, then `now` itself. There
/// are none where the hour before `now` lies outside the calendar.
pub fn last_hour_of(now: UtcInstant) -> (r: Option<(String, String)>)
    ensures
        match r {
            Some((from, to)) => {
                &&& utc_valid(hour_before(now@.0, now@.1).0, hour_before(now@.0, now@.1).1)
                &&& from@ == utc_text(hour_before(now@.0, now@.1).0, hour_before(now@.0, now@.1).1)
                &&& to@ == utc_text(now@.0, now@.1)
            },
            None => !utc_valid(hour_before(now@.0, now@.1).0, hour_before(now@.0, now@.1).1),
        },
{
    match now.one_hour_before() {
        Some(before) => {
            let to = format_to_prom_date_string(now);
            let from = format_to_prom_date_string(before);
            Some((from, to))
        },
        None => None,
    }
}

/// The texts of the two ends of the last hour, as the backend reads them:
/// the instant 3600 seconds before the clock's reading, then the reading
/// itself.
pub fn get_last_hour() -> (r: (String, String))
    ensures
        exists|secs: int, nanos: int|
            {
                &&& is_reading(secs, nanos)
                &&& utc_valid(secs - 3_600, nanos)
                &&& r.0@ == utc_text(secs - 3_600, nanos)
                &&& r.1@ == #[trigger] utc_text(secs, nanos)
            },
{
    let now = UtcInstant::now();
    match last_hour_of(now) {
        Some(ends) => {
            assert(is_reading(now@.0, now@.1));
            assert(ends.1@ == utc_text(now@.0, now@.1));
            ends
        },
        None => vstd::pervasive::unreached(),
    }
}

/// Reads `date` as an instant.
pub fn parse_instant(date: &str) -> (r: Result<UtcInstant, TimeError>)
    ensures
        match r {
            Ok(t) => parsed_utc(date@) == Some(t@) && utc_valid(t@.0, t@.1),
            Err(TimeError::Malformed) => parsed_utc(date@) is None,
            Err(TimeError::OutOfRange) => parsed_utc(date@) matches Some(p) && !utc_valid(
                p.0,
                p.1,
            ),
        },
{
    match utc_parse(date) {
        Ok((secs, nanos)) => match UtcInstant::new(secs, nanos) {
            Some(t) => Ok(t),
            None => Err(TimeError::OutOfRange),
        },
        Err(_) => Err(TimeError::Malformed),
    }
}

/// What `get_one_hour_before_date` gives for a text that chrono reads as
/// `parsed`.
pub open spec fn hour_before_text(parsed: Option<(int, int)>) -> Result<Seq<char>, TimeError> {
    match parsed {
        None => Err(TimeError::Malformed),
        Some(p) => {
            let q = hour_before(p.0, p.1);
            if utc_valid(p.0, p.1) && utc_valid(q.0, q.1) {
                Ok(utc_text(q.0, q.1))
            } else {
                Err(TimeError::OutOfRange)
            }
        },
    }
}

/// The text of the instant one hour before the one that `date` writes.
pub fn get_one_hour_before_date(date: &str) -> (r: Result<String, TimeError>)
    ensures
        match r {
            Ok(t) => hour_before_text(parsed_utc(date@)) == Ok::<Seq<char>, TimeError>(t@),
            Err(e) => hour_before_text(parsed_utc(date@)) == Err::<Seq<char>, TimeError>(e),
        },
{
    let instant = match parse_instant(date) {
        Ok(t) => t,
        Err(e) => {
            return Err(e);
        },
    };
    match instant.one_hour_before() {
        Some(before) => Ok(format_to_prom_date_string(before)),
        None => Err(TimeError::OutOfRange),
    }
}

} // verus!

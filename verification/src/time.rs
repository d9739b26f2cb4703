//! Instants, days and the two market time zones.
use vstd::prelude::*;

verus! {

pub const NANOS_PER_SEC: i128 = 1_000_000_000;

pub const SECS_PER_DAY: i64 = 86_400;

/// The first second of the calendar, counted from 1970-01-01T00:00:00Z.
pub const FIRST_SECOND: i64 = -8_334_601_228_800;

/// The last second of the calendar.
pub const LAST_SECOND: i64 = 8_210_266_876_799;

/// An instant in UTC, to the nanosecond.
#[derive(Debug, Clone, Copy, PartialEq, Eq, Structural)]
pub struct Timestamp {
    nanos: i128,
}

impl View for Timestamp {
    type V = Timestamp;

    open spec fn view(&self) -> Timestamp {
        *self
    }
}

/// The instant `nanos` nanoseconds after 1970-01-01T00:00:00Z.
pub closed spec fn instant(nanos: int) -> Timestamp {
    Timestamp { nanos: nanos as i128 }
}

/// Whether an instant is within the calendar.
pub open spec fn instant_in_range(nanos: int) -> bool {
    FIRST_SECOND * NANOS_PER_SEC <= nanos < (LAST_SECOND + 1) * NANOS_PER_SEC
}

/// An instant within the calendar is where it was put.
pub proof fn lemma_instant(nanos: int)
    requires
        instant_in_range(nanos),
    ensures
        instant(nanos).at() == nanos,
{
}

/// Two instants at the same time are the same.
pub proof fn lemma_same_instant(s: Timestamp, t: Timestamp)
    requires
        s.at() == t.at(),
    ensures
        s == t,
{
}

impl Timestamp {
    /// Nanoseconds since 1970-01-01T00:00:00Z.
    pub closed spec fn at(self) -> int {
        self.nanos as int
    }

    #[verifier::type_invariant]
    pub open spec fn valid(self) -> bool {
        instant_in_range(self.at())
    }

    /// Whole seconds since 1970-01-01T00:00:00Z, rounded down.
    pub open spec fn second(self) -> int {
        self.at() / (NANOS_PER_SEC as int)
    }

    pub fn from_nanos(nanos: i128) -> (r: Option<Timestamp>)
        ensures
            r is Some <==> instant_in_range(nanos as int),
            r matches Some(t) ==> t.at() == nanos && t == instant(nanos as int),
    {
        if (FIRST_SECOND as i128) * NANOS_PER_SEC <= nanos && nanos < (LAST_SECOND as i128 + 1) * NANOS_PER_SEC {
            Some(Timestamp { nanos })
        } else {
            None
        }
    }

    pub fn from_secs(secs: i64) -> (r: Option<Timestamp>)
        ensures
            r is Some <==> FIRST_SECOND <= secs <= LAST_SECOND,
            r matches Some(t) ==> t.at() == secs * NANOS_PER_SEC && t == instant(secs * NANOS_PER_SEC),
    {
        if FIRST_SECOND <= secs && secs <= LAST_SECOND {
            Some(Timestamp { nanos: secs as i128 * NANOS_PER_SEC })
        } else {
            None
        }
    }

    /// The instant `nanos` nanoseconds into the second `secs`.
    pub fn from_parts(secs: i64, nanos: u32) -> (t: Timestamp)
        requires
            FIRST_SECOND <= secs <= LAST_SECOND,
            nanos < 1_000_000_000,
        ensures
            t.at() == secs * NANOS_PER_SEC + nanos,
    {
        Timestamp { nanos: secs as i128 * NANOS_PER_SEC + nanos as i128 }
    }

    pub fn nanos(self) -> (r: i128)
        ensures
            r == self.at(),
            instant_in_range(r as int),
    {
        proof {
            use_type_invariant(self);
        }
        self.nanos
    }

    /// Whole seconds since 1970-01-01T00:00:00Z, rounded down.
    pub fn secs(self) -> (r: i64)
        ensures
            r == self.second(),
            FIRST_SECOND <= r <= LAST_SECOND,
    {
        proof {
            use_type_invariant(self);
        }
        let q = self.nanos / NANOS_PER_SEC;
        if self.nanos < 0 && q * NANOS_PER_SEC != self.nanos {
            (q - 1) as i64
        } else {
            q as i64
        }
    }

    /// Nanoseconds from `earlier` to `self`; negative where `earlier` is the later one.
    pub fn since(self, earlier: Timestamp) -> (r: i128)
        ensures
            r == self.at() - earlier.at(),
    {
        proof {
            use_type_invariant(self);
            use_type_invariant(earlier);
        }
        self.nanos - earlier.nanos
    }

    pub fn after(self, o: Timestamp) -> (r: bool)
        ensures
            r == (self.at() > o.at()),
    {
        self.nanos > o.nanos
    }

    /// The instant `nanos` later, if the calendar reaches it.
    pub fn checked_add(self, nanos: i64) -> (r: Option<Timestamp>)
        ensures
            r is Some <==> instant_in_range(self.at() + nanos),
            r matches Some(t) ==> t.at() == self.at() + nanos && t == instant(self.at() + nanos),
    {
        proof {
            use_type_invariant(self);
        }
        Self::from_nanos(self.nanos + nanos as i128)
    }
}

/// The instant of a count of milliseconds, or another one where that is outside the calendar.
pub open spec fn millis_or(ms: int, or: Timestamp) -> Timestamp {
    if instant_in_range(ms * 1_000_000) {
        instant(ms * 1_000_000)
    } else {
        or
    }
}

/// The instant of a count of milliseconds since 1970-01-01, or `or` where that is outside the
/// calendar.
pub fn at_millis(ms: i64, or: Timestamp) -> (r: Timestamp)
    ensures
        r == millis_or(ms as int, or),
{
    match Timestamp::from_nanos(ms as i128 * 1_000_000) {
        Some(t) => t,
        None => or,
    }
}

/// `a / b` rounded toward zero, for a positive `b`.
pub open spec fn quotient_to_zero(a: int, b: int) -> int {
    if a < 0 {
        -((-a) / b)
    } else {
        a / b
    }
}

/// The time zones of the exchanges.
#[derive(Debug, Clone, Copy, PartialEq, Eq, Structural)]
pub enum Zone {
    Seoul,
    NewYork,
}

/// The part of every day, as seconds of the day in UTC and a length, in which the clock of a zone is
/// never changed: from 17:00 to 14:00 for Seoul, from 07:00 to 17:00 for New York.
pub open spec fn quiet(zone: Zone) -> (int, int) {
    match zone {
        Zone::Seoul => (61_200, 75_600),
        Zone::NewYork => (25_200, 36_000),
    }
}

/// The least and the greatest offset that a zone ever had.
pub open spec fn offset_range(zone: Zone) -> (int, int) {
    match zone {
        Zone::Seoul => (30_472, 36_000),
        Zone::NewYork => (-18_000, -14_400),
    }
}

/// The second since which the clock of a zone was certainly not changed: where the quiet part of the
/// day began, or else the second itself.
pub open spec fn settled(zone: Zone, second: int) -> int {
    let since = (second - quiet(zone).0) % (SECS_PER_DAY as int);
    if since < quiet(zone).1 {
        second - since
    } else {
        second
    }
}

/// What `chrono_tz` has as the offset of a zone from UTC, in seconds, at a second of UTC.
pub uninterp spec fn table_offset(zone: Zone, second: int) -> int;

/// The offset of a zone from UTC, in seconds, at a second of UTC.
pub open spec fn zone_offset(zone: Zone, second: int) -> int {
    let o = table_offset(zone, settled(zone, second));
    let (least, greatest) = offset_range(zone);
    if o < least {
        least
    } else if o > greatest {
        greatest
    } else {
        o
    }
}

/// What `chrono`'s `from_local_datetime(..).single()` gives for a second of local time in a zone:
/// the second of UTC, unless the clock skips or repeats that local time.
pub uninterp spec fn zone_instant(zone: Zone, local: int) -> Option<i64>;

/// Calls `chrono::DateTime::with_timezone` with a `chrono_tz` zone. Claimed, as the tables of the two
/// zones show: the offset depends on the zone and the second alone, is the same all through the quiet
/// part of a day, and is within the zone's range.
#[verifier::external_body]
fn read_offset(zone: Zone, second: i64) -> (r: i64)
    requires
        FIRST_SECOND <= second <= LAST_SECOND,
    ensures
        r == table_offset(zone, settled(zone, second as int)),
        offset_range(zone).0 <= r <= offset_range(zone).1,
{
    let tz = match zone {
        Zone::Seoul => chrono_tz::Asia::Seoul,
        Zone::NewYork => chrono_tz::America::New_York,
    };
    let t = chrono::DateTime::from_timestamp(second, 0).expect("second is within the calendar");
    let local = chrono::Offset::fix(t.with_timezone(&tz).offset());
    local.local_minus_utc() as i64
}

/// The offset of a zone from UTC at a second of UTC.
pub(crate) fn offset_at(zone: Zone, second: i64) -> (r: i64)
    requires
        FIRST_SECOND <= second <= LAST_SECOND,
    ensures
        r == zone_offset(zone, second as int),
        -86_400 < r < 86_400,
{
    read_offset(zone, second)
}

/// Calls `chrono::TimeZone::from_local_datetime` with a `chrono_tz` zone and takes its `single`
/// answer. Claimed: it depends on the zone and the local time alone, and the clock of the zone
/// shows that local time at the instant it gives.
#[verifier::external_body]
pub(crate) fn instant_at(zone: Zone, local: i64) -> (r: Option<i64>)
    requires
        FIRST_SECOND <= local <= LAST_SECOND,
    ensures
        r == zone_instant(zone, local as int),
        r matches Some(t) ==> FIRST_SECOND <= t <= LAST_SECOND && t + zone_offset(zone, t as int) == local,
{
    let tz = match zone {
        Zone::Seoul => chrono_tz::Asia::Seoul,
        Zone::NewYork => chrono_tz::America::New_York,
    };
    let t = chrono::DateTime::from_timestamp(local, 0).expect("second is within the calendar");
    chrono::TimeZone::from_local_datetime(&tz, &t.naive_utc()).single().map(|t| t.timestamp())
}

/// The day of a second, counted from 1970-01-01.
pub open spec fn day_of(second: int) -> int {
    second / (SECS_PER_DAY as int)
}

/// The second within its day.
pub open spec fn second_of_day(second: int) -> int {
    second % (SECS_PER_DAY as int)
}

/// The day of the week: 0 is Monday. Day zero, 1970-01-01, was a Thursday.
pub open spec fn weekday(day: int) -> int {
    (day + 3) % 7
}

/// Quotient and remainder of a second by the length of a day.
pub fn split_second(second: i64) -> (r: (i64, i64))
    ensures
        r.0 == day_of(second as int),
        r.1 == second_of_day(second as int),
        0 <= r.1 < SECS_PER_DAY,
{
    let q = second / SECS_PER_DAY;
    let m = second % SECS_PER_DAY;
    if m < 0 {
        (q - 1, m + SECS_PER_DAY)
    } else {
        (q, m)
    }
}

/// The day of the week of a day: 0 is Monday.
pub fn weekday_of(day: i64) -> (r: i64)
    requires
        -200_000_000 <= day <= 200_000_000,
    ensures
        r == weekday(day as int),
        0 <= r < 7,
{
    let m = (day + 3) % 7;
    if m < 0 {
        m + 7
    } else {
        m
    }
}

} // verus!

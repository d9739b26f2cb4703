//! USD/KRW, cached: from a live source when one is plugged in, else (or when it fails) the ECB
//! reference rate, which moves once per business day.
use crate::decimal::Decimal;
use crate::json::{decimal_in, field, member, Json, JsonView};
use crate::record::{as_table, parse_as, read_as, record_with, table_of, with_field, Shape};
use crate::time::Timestamp;
use vstd::prelude::*;

verus! {

/// How long the reference rate stays good: an hour.
pub const REFERENCE_MAX_AGE_NANOS: i128 = 3_600_000_000_000;

/// The won rate in a response, if it has one.
pub open spec fn rate_in(v: JsonView) -> Option<Decimal> {
    decimal_in(member(field(v, "rates"@, 0, 1), "KRW"@))
}

/// The won rate in a response.
pub fn frankfurter_rate(v: &Json) -> (r: Option<Decimal>)
    ensures
        r == rate_in(v.view()),
{
    match v.record_field("rates", 0, 1) {
        Some(rates) => rates.decimal_member("KRW"),
        None => None,
    }
}

/// A Frankfurter response.
pub open spec fn rates_shape() -> Shape {
    record_with("rates", table_of(Shape::Amount), Shape::End)
}

fn rates_record() -> (r: Shape)
    ensures
        r == rates_shape(),
{
    with_field("rates", as_table(Shape::Amount), Shape::End)
}

/// Reads a Frankfurter response.
pub fn parse_frankfurter(bytes: &[u8]) -> (r: Result<Decimal, String>)
    ensures
        match read_as(bytes@, rates_shape()) {
            Err(m) => r matches Err(e) && e@ == m,
            Ok(v) => match rate_in(v) {
                Some(d) => r == Ok::<Decimal, String>(d),
                None => r matches Err(e) && e@ == "no KRW rate in response"@,
            },
        },
{
    match parse_as(bytes, &rates_record()) {
        Err(e) => Err(e),
        Ok(v) => match frankfurter_rate(&v) {
            Some(d) => Ok(d),
            None => Err("no KRW rate in response".to_owned()),
        },
    }
}

/// The last good rate.
#[derive(Debug, Clone, Copy)]
pub struct FxCache {
    /// The rate and when it was fetched.
    pub cached: Option<(Decimal, Timestamp)>,
    /// Whether the rate is never asked for again.
    pub fixed: bool,
}

impl FxCache {
    pub fn new() -> (r: FxCache)
        ensures
            r.cached is None,
            !r.fixed,
    {
        FxCache { cached: None, fixed: false }
    }

    /// A cache that always answers `rate` (tests, and offline runs).
    pub fn fixed(rate: Decimal, now: Timestamp) -> (r: FxCache)
        ensures
            r.cached == Some((rate, now)),
            r.fixed,
    {
        FxCache { cached: Some((rate, now)), fixed: true }
    }

    /// The rate that can be used without asking anybody: a fixed one, or one that is younger than
    /// `max_age`.
    pub open spec fn usable(self, now: Timestamp, max_age: int) -> Option<Decimal> {
        match self.cached {
            Some((rate, at)) => if self.fixed || now.at() - at.at() < max_age {
                Some(rate)
            } else {
                None
            },
            None => None,
        }
    }

    /// KRW per USD, if the cached rate can be used. `source` is how long an answer of the live
    /// source stays good, in nanoseconds, if there is a source; without one an answer is good for an
    /// hour.
    pub fn usd_krw(&self, now: Timestamp, source: Option<i128>) -> (r: Option<Decimal>)
        ensures
            r == self.usable(now, good_for(source)),
    {
        let max_age: i128 = match source {
            Some(age) => age,
            None => REFERENCE_MAX_AGE_NANOS,
        };
        match self.cached {
            Some((rate, at)) => if self.fixed || now.since(at) < max_age {
                Some(rate)
            } else {
                None
            },
            None => None,
        }
    }

    /// The last good rate, whatever its age.
    pub open spec fn last(self) -> Option<Decimal> {
        match self.cached {
            Some((rate, _)) => Some(rate),
            None => None,
        }
    }

    /// Takes the answers of a refresh: that of the live source, and that of the reference rate,
    /// which is asked for only where the source gave none. The rate that counts is kept and
    /// returned; if every refresh failed, the last good rate is returned, if there is one.
    pub fn refreshed(&mut self, live: Option<Decimal>, reference: Option<Decimal>, now: Timestamp) -> (r: Option<Decimal>)
        ensures
            match fetched(live, reference) {
                Some(rate) => r == Some(rate) && final(self).cached == Some((rate, now)),
                None => r == old(self).last() && final(self).cached == old(self).cached,
            },
            final(self).fixed == old(self).fixed,
    {
        let answer = match live {
            Some(rate) => Some(rate),
            None => reference,
        };
        match answer {
            Some(rate) => {
                self.cached = Some((rate, now));
                Some(rate)
            },
            None => match self.cached {
                Some((rate, _)) => Some(rate),
                None => None,
            },
        }
    }
}

/// How long an answer stays good: as long as the live source says, or an hour without one.
pub open spec fn good_for(source: Option<i128>) -> int {
    match source {
        Some(age) => age as int,
        None => REFERENCE_MAX_AGE_NANOS as int,
    }
}

/// The rate that counts of a refresh: the live one comes first, and the reference rate stands in for
/// it.
pub open spec fn fetched(live: Option<Decimal>, reference: Option<Decimal>) -> Option<Decimal> {
    match live {
        Some(rate) => Some(rate),
        None => reference,
    }
}

/// The rate that is answered: the cached one while it is good, else the live one, else the reference
/// rate, else the last good one, whatever its age.
pub open spec fn answered(
    cache: FxCache,
    source: Option<i128>,
    live: Option<Decimal>,
    reference: Option<Decimal>,
    now: Timestamp,
) -> Option<Decimal> {
    match cache.usable(now, good_for(source)) {
        Some(rate) => Some(rate),
        None => match fetched(live, reference) {
            Some(rate) => Some(rate),
            None => cache.last(),
        },
    }
}

/// There is an answer unless every refresh failed and there never was a rate; a fixed rate is always
/// answered; and a rate that was fetched becomes the last good one.
pub proof fn law_rates_come_in_order(
    cache: FxCache,
    source: Option<i128>,
    live: Option<Decimal>,
    reference: Option<Decimal>,
    now: Timestamp,
)
    ensures
        answered(cache, source, live, reference, now) is None <==> live is None && reference is None
            && cache.cached is None,
        cache.fixed && cache.cached is Some ==> answered(cache, source, live, reference, now) == cache.last(),
        cache.usable(now, good_for(source)) is None && live is Some ==> answered(
            cache,
            source,
            live,
            reference,
            now,
        ) == live,
        cache.usable(now, good_for(source)) is None && live is None && reference is Some ==> answered(
            cache,
            source,
            live,
            reference,
            now,
        ) == reference,
{
}

/// A rate that was fetched less than an hour ago, or less than as long ago as the live source says its rates
/// are good for, is answered without asking; an older one is asked for again, unless it is fixed.
pub proof fn law_fresh_rates_are_not_asked_for(cache: FxCache, source: Option<i128>, now: Timestamp)
    requires
        cache.cached is Some,
    ensures
        ({
            let (rate, at) = cache.cached->0;
            let good = match source {
                Some(age) => age as int,
                None => 3_600_000_000_000int,
            };
            cache.usable(now, good_for(source)) == if cache.fixed || now.at() - at.at() < good {
                Some(rate)
            } else {
                None
            }
        }),
{
}

} // verus!

//! OHLCV candles: intervals, resampling, and 1-minute bars built from trade prints.
use crate::decimal::{
    lemma_product, lemma_sums, lemma_unit, max_int, opt_plus, product_held, representable, unit, Decimal,
};
use crate::domain::{InstrumentId, Trade, TradeView, Venue};
use crate::table::{lemma_row, lemma_row_of, Stored, Table};
use crate::text::{all_white, lemma_trimmed_around, same_text, trim, trimmed};
use crate::time::{
    instant, instant_in_range, lemma_instant, lemma_same_instant, weekday, Timestamp, FIRST_SECOND, LAST_SECOND, NANOS_PER_SEC,
};
use crate::venue::Overflow;
use vstd::prelude::*;

verus! {

#[derive(Debug, Clone, Copy, PartialEq)]
pub struct Candle {
    pub start: Timestamp,
    pub open: Decimal,
    pub high: Decimal,
    pub low: Decimal,
    pub close: Decimal,
    /// Base-asset volume (shares or coins).
    pub volume: Decimal,
    /// Traded value in the quote currency.
    pub value: Decimal,
}

impl View for Candle {
    type V = Candle;

    open spec fn view(&self) -> Candle {
        *self
    }
}

impl Stored for Candle {
    open spec fn sound(&self) -> bool {
        true
    }
}

#[derive(Debug, Clone, Copy, PartialEq, Eq, Hash, Structural)]
pub enum Interval {
    M1,
    M5,
    M15,
    H1,
    D1,
    W1,
}

impl Interval {
    pub open spec fn code_text(self) -> Seq<char> {
        match self {
            Interval::M1 => "1m"@,
            Interval::M5 => "5m"@,
            Interval::M15 => "15m"@,
            Interval::H1 => "1h"@,
            Interval::D1 => "1d"@,
            Interval::W1 => "1w"@,
        }
    }

    /// The interval with a given code.
    pub open spec fn coded(s: Seq<char>) -> Option<Interval> {
        if s == "1m"@ {
            Some(Interval::M1)
        } else if s == "5m"@ {
            Some(Interval::M5)
        } else if s == "15m"@ {
            Some(Interval::M15)
        } else if s == "1h"@ {
            Some(Interval::H1)
        } else if s == "1d"@ {
            Some(Interval::D1)
        } else if s == "1w"@ {
            Some(Interval::W1)
        } else {
            None
        }
    }

    pub fn code(self) -> (r: &'static str)
        ensures
            r@ == self.code_text(),
    {
        match self {
            Interval::M1 => "1m",
            Interval::M5 => "5m",
            Interval::M15 => "15m",
            Interval::H1 => "1h",
            Interval::D1 => "1d",
            Interval::W1 => "1w",
        }
    }

    /// Reads a code, white space around it aside.
    pub fn parse(s: &str) -> (r: Option<Interval>)
        ensures
            r == Interval::coded(trimmed(s@)),
    {
        let t = trim(s);
        let t = t.as_str();
        if same_text(t, "1m") {
            Some(Interval::M1)
        } else if same_text(t, "5m") {
            Some(Interval::M5)
        } else if same_text(t, "15m") {
            Some(Interval::M15)
        } else if same_text(t, "1h") {
            Some(Interval::H1)
        } else if same_text(t, "1d") {
            Some(Interval::D1)
        } else if same_text(t, "1w") {
            Some(Interval::W1)
        } else {
            None
        }
    }

    pub open spec fn spec_secs(self) -> i64 {
        match self {
            Interval::M1 => 60,
            Interval::M5 => 300,
            Interval::M15 => 900,
            Interval::H1 => 3_600,
            Interval::D1 => 86_400,
            Interval::W1 => 604_800,
        }
    }

    #[verifier::when_used_as_spec(spec_secs)]
    pub fn secs(self) -> (r: i64)
        ensures
            r == self.spec_secs(),
    {
        match self {
            Interval::M1 => 60,
            Interval::M5 => 300,
            Interval::M15 => 900,
            Interval::H1 => 3_600,
            Interval::D1 => 86_400,
            Interval::W1 => 604_800,
        }
    }

    pub fn is_intraday(self) -> (r: bool)
        ensures
            r == (self.secs() < 86_400),
    {
        self.secs() < 86_400
    }

    /// How far the first bucket boundary after the epoch's midnight is from it: weeks start Monday
    /// 00:00 UTC, and the epoch was a Thursday.
    pub open spec fn shift(self) -> int {
        if self == Interval::W1 {
            259_200
        } else {
            0
        }
    }

    /// The second at which the bucket of a second starts.
    pub open spec fn bucket_start(self, second: int) -> int {
        second - (second + self.shift()) % (self.secs() as int)
    }

    /// The start of the bucket of an instant.
    pub open spec fn bucket_of(self, t: Timestamp) -> Option<Timestamp> {
        let s = self.bucket_start(t.second());
        if FIRST_SECOND <= s <= LAST_SECOND {
            Some(instant(s * NANOS_PER_SEC))
        } else {
            None
        }
    }

    /// The start of the bucket of `t`; `None` before the first whole week of the calendar.
    pub fn bucket(self, t: Timestamp) -> (r: Option<Timestamp>)
        ensures
            r == self.bucket_of(t),
            r matches Some(b) ==> b.at() == self.bucket_start(t.second()) * NANOS_PER_SEC,
    {
        let offset: i64 = if self == Interval::W1 {
            259_200
        } else {
            0
        };
        let s = t.secs();
        let q = (s + offset) % self.secs();
        let m = if q < 0 {
            q + self.secs()
        } else {
            q
        };
        proof {
            let a = s + offset;
            let b = self.secs() as int;
            if a < 0 {
                let n = (-a) / b;
                let k = (-a) % b;
                vstd::arithmetic::div_mod::lemma_fundamental_div_mod(-a, b);
                if k == 0 {
                    assert(a == b * (-n)) by (nonlinear_arith)
                        requires
                            -a == b * n,
                    ;
                    vstd::arithmetic::div_mod::lemma_fundamental_div_mod_converse(a, b, -n, 0);
                } else {
                    assert(a == b * (-n - 1) + (b - k)) by (nonlinear_arith)
                        requires
                            -a == b * n + k,
                    ;
                    vstd::arithmetic::div_mod::lemma_fundamental_div_mod_converse(a, b, -n - 1, b - k);
                }
            }
        }
        Timestamp::from_secs(s - m)
    }
}

/// The code of an interval names it, with white space around it too, and no other interval.
pub proof fn law_interval_codes(i: Interval, s: Seq<char>, a: Seq<char>, b: Seq<char>)
    requires
        all_white(a),
        all_white(b),
    ensures
        Interval::coded(i.code_text()) == Some(i),
        Interval::coded(trimmed(a + i.code_text() + b)) == Some(i),
        Interval::coded(s) is Some ==> (Interval::coded(s)->0).code_text() == s,
        Interval::coded(trimmed(s)) is None <==> trimmed(s) != "1m"@ && trimmed(s) != "5m"@ && trimmed(s) != "15m"@
            && trimmed(s) != "1h"@ && trimmed(s) != "1d"@ && trimmed(s) != "1w"@,
{
    reveal_strlit("1m");
    reveal_strlit("5m");
    reveal_strlit("15m");
    reveal_strlit("1h");
    reveal_strlit("1d");
    reveal_strlit("1w");
    assert("1m"@[1] == 'm' && "5m"@[0] == '5' && "15m"@.len() == 3 && "1h"@[1] == 'h' && "1d"@[1] == 'd' && "1w"@[1]
        == 'w');
    assert("1m"@.len() == 2 && "5m"@.len() == 2 && "1h"@.len() == 2 && "1d"@.len() == 2 && "1w"@.len() == 2);
    assert("1m"@[0] == '1' && "1h"@[0] == '1' && "1d"@[0] == '1' && "1w"@[0] == '1');
    lemma_trimmed_around(a, i.code_text(), b);
}

/// A bucket starts at or before its instants, less than one interval before them, and the start of
/// a bucket is in the bucket.
pub proof fn law_buckets_are_aligned(i: Interval, second: int)
    ensures
        i.bucket_start(second) <= second < i.bucket_start(second) + i.secs(),
        i.bucket_start(i.bucket_start(second)) == i.bucket_start(second),
{
    let b = i.secs() as int;
    let a = second + i.shift();
    vstd::arithmetic::div_mod::lemma_fundamental_div_mod(a, b);
    vstd::arithmetic::div_mod::lemma_fundamental_div_mod_converse(a - a % b, b, a / b, 0);
}

/// A candle with a later one merged into it.
pub open spec fn merged(last: Candle, c: Candle) -> Option<Candle> {
    match (last.volume.plus(c.volume), last.value.plus(c.value)) {
        (Some(volume), Some(value)) => Some(
            Candle {
                high: last.high.greater(c.high),
                low: last.low.lesser(c.low),
                close: c.close,
                volume,
                value,
                ..last
            },
        ),
        _ => None,
    }
}

/// A later fragment merged into a candle of the same bucket: it keeps where the candle began, and
/// nothing is overwritten but the close. `None` where a decimal cannot hold a sum.
pub fn merge(last: Candle, c: Candle) -> (r: Option<Candle>)
    ensures
        r == merged(last, c),
{
    let volume = last.volume.checked_add(c.volume)?;
    let value = last.value.checked_add(c.value)?;
    Some(
        Candle {
            start: last.start,
            open: last.open,
            high: last.high.max(c.high),
            low: last.low.min(c.low),
            close: c.close,
            volume,
            value,
        },
    )
}

/// The candles after one more: it is merged into the last one of the same bucket, or begins a
/// bucket of its own.
pub open spec fn appended(out: Seq<Candle>, c: Candle, interval: Interval) -> Option<Seq<Candle>> {
    match interval.bucket_of(c.start) {
        None => None,
        Some(start) => if out.len() > 0 && out.last().start == start {
            match merged(out.last(), c) {
                Some(m) => Some(out.drop_last().push(m)),
                None => None,
            }
        } else {
            Some(out.push(Candle { start, ..c }))
        },
    }
}

/// The candles from index `i` on merged into buckets, behind those that came before.
pub open spec fn resampled(candles: Seq<Candle>, interval: Interval, i: int, out: Seq<Candle>) -> Option<Seq<Candle>>
    decreases candles.len() - i,
{
    if i >= candles.len() {
        Some(out)
    } else {
        match appended(out, candles[i], interval) {
            Some(more) => resampled(candles, interval, i + 1, more),
            None => None,
        }
    }
}

/// Recorded bars are looked up over this many times the span that the candles cover: sessions are a
/// small part of the day and of the week.
pub const LOOKBACK: i128 = 8;

/// How far back recorded bars are looked up, in nanoseconds.
pub open spec fn lookback(interval: Interval, limit: int) -> int {
    LOOKBACK * (interval.spec_secs() * limit) * NANOS_PER_SEC
}

/// From when on recorded bars are looked up for `limit` candles; `None` where that is before the
/// calendar starts.
pub fn lookback_start(now: Timestamp, interval: Interval, limit: usize) -> (r: Option<Timestamp>)
    ensures
        r is Some <==> instant_in_range(now.at() - lookback(interval, limit as int)),
        r matches Some(t) ==> t.at() == now.at() - lookback(interval, limit as int),
{
    let secs = interval.secs() as i128;
    let n = limit as i128;
    assert(0 <= secs * n <= 604_800 * 0xffff_ffff_ffff_ffff) by (nonlinear_arith)
        requires
            0 <= secs <= 604_800,
            0 <= n <= 0xffff_ffff_ffff_ffff,
    ;
    Timestamp::from_nanos(now.nanos() - LOOKBACK * (secs * n) * NANOS_PER_SEC)
}

/// Merges candles (oldest first) into `interval` buckets. `None` where a decimal cannot hold a sum
/// or the calendar a bucket.
pub fn resample(candles: &[Candle], interval: Interval) -> (r: Option<Vec<Candle>>)
    ensures
        match resampled(candles@, interval, 0, Seq::empty()) {
            Some(s) => r matches Some(v) && v@ == s,
            None => r is None,
        },
{
    let mut out: Vec<Candle> = Vec::new();
    let mut i: usize = 0;
    while i < candles.len()
        invariant
            i <= candles@.len(),
            resampled(candles@, interval, 0, Seq::empty()) == resampled(candles@, interval, i as int, out@),
        decreases candles@.len() - i,
    {
        let c = candles[i];
        let start = interval.bucket(c.start)?;
        let n = out.len();
        if n > 0 && out[n - 1].start == start {
            let m = merge(out[n - 1], c)?;
            let ghost before = out@;
            out.set(n - 1, m);
            assert(out@ =~= before.drop_last().push(m));
        } else {
            out.push(
                Candle {
                    start,
                    open: c.open,
                    high: c.high,
                    low: c.low,
                    close: c.close,
                    volume: c.volume,
                    value: c.value,
                },
            );
        }
        i += 1;
    }
    Some(out)
}

/// Every candle starts where a bucket does, and no two neighbours share a bucket.
pub open spec fn bucketed(s: Seq<Candle>, interval: Interval) -> bool {
    &&& forall|i: int|
        0 <= i < s.len() ==> exists|t: Timestamp| interval.bucket_of(t) == Some((#[trigger] s[i]).start)
    &&& forall|i: int, j: int|
        0 <= i && j == i + 1 && j < s.len() ==> (#[trigger] s[i]).start != (#[trigger] s[j]).start
}

/// Resampling aligns candles to buckets, across gaps too, and makes at most one candle of each run
/// in a bucket.
pub proof fn law_resampling_aligns_buckets(candles: Seq<Candle>, interval: Interval, i: int, out: Seq<Candle>)
    requires
        bucketed(out, interval),
        resampled(candles, interval, i, out) is Some,
    ensures
        bucketed(resampled(candles, interval, i, out)->0, interval),
    decreases candles.len() - i,
{
    if i < candles.len() {
        let more = appended(out, candles[i], interval)->0;
        let start = interval.bucket_of(candles[i].start)->0;
        assert(bucketed(more, interval)) by {
            assert forall|k: int| 0 <= k < more.len() implies exists|t: Timestamp|
                interval.bucket_of(t) == Some((#[trigger] more[k]).start) by {
                if k < more.len() - 1 {
                    assert(more[k] == out[k]);
                    let t = choose|t: Timestamp| interval.bucket_of(t) == Some(out[k].start);
                    assert(interval.bucket_of(t) == Some(more[k].start));
                } else {
                    assert(interval.bucket_of(candles[i].start) == Some(more[k].start));
                }
            }
            assert forall|a: int, b: int| 0 <= a && b == a + 1 && b < more.len() implies (#[trigger] more[a]).start != (
            #[trigger] more[b]).start by {
                assert(more[a] == out[a]);
                if b < out.len() {
                    assert(out[a].start != out[b].start);
                }
            }
        }
        law_resampling_aligns_buckets(candles, interval, i + 1, more);
    }
}

/// Whether candles come oldest first.
pub open spec fn oldest_first(candles: Seq<Candle>) -> bool {
    forall|i: int, j: int|
        0 <= i <= j < candles.len() ==> (#[trigger] candles[i]).start.at() <= (#[trigger] candles[j]).start.at()
}

/// The volumes of the candles from index `a` to below `b`, added up.
pub open spec fn volume_of(candles: Seq<Candle>, a: int, b: int) -> Option<Decimal>
    decreases b - a,
{
    if b <= a + 1 {
        Some(candles[a].volume)
    } else {
        opt_plus(volume_of(candles, a, b - 1), Some(candles[b - 1].volume))
    }
}

/// The values of the candles from index `a` to below `b`, added up.
pub open spec fn value_of(candles: Seq<Candle>, a: int, b: int) -> Option<Decimal>
    decreases b - a,
{
    if b <= a + 1 {
        Some(candles[a].value)
    } else {
        opt_plus(value_of(candles, a, b - 1), Some(candles[b - 1].value))
    }
}

/// Whether `c` sums up the candles from index `a` to below `b`: it opens as the first and closes as
/// the last, is as high as the highest and as low as the lowest, and adds up what they traded.
pub open spec fn sums_up(c: Candle, candles: Seq<Candle>, a: int, b: int) -> bool {
    &&& 0 <= a < b <= candles.len()
    &&& c.open == candles[a].open
    &&& c.close == candles[b - 1].close
    &&& forall|j: int| a <= j < b ==> (#[trigger] candles[j]).high.value() <= c.high.value()
    &&& exists|j: int| a <= j < b && (#[trigger] candles[j]).high == c.high
    &&& forall|j: int| a <= j < b ==> c.low.value() <= (#[trigger] candles[j]).low.value()
    &&& exists|j: int| a <= j < b && (#[trigger] candles[j]).low == c.low
    &&& volume_of(candles, a, b) == Some(c.volume)
    &&& value_of(candles, a, b) == Some(c.value)
}

/// Whether `c` sums up the candles of its bucket among the first `n`, which are those from index `a`
/// to below `b`.
pub open spec fn is_bucket(c: Candle, candles: Seq<Candle>, interval: Interval, n: int, a: int, b: int) -> bool {
    &&& b <= n
    &&& sums_up(c, candles, a, b)
    &&& forall|j: int|
        0 <= j < n ==> (a <= j < b <==> interval.bucket_of((#[trigger] candles[j]).start) == Some(c.start))
}

/// Whether `c` sums up the candles of its bucket among the first `n`.
pub open spec fn some_bucket(c: Candle, candles: Seq<Candle>, interval: Interval, n: int) -> bool {
    exists|a: int, b: int| #[trigger] is_bucket(c, candles, interval, n, a, b)
}

/// Whether candles start later and later.
pub open spec fn later_and_later(s: Seq<Candle>) -> bool {
    forall|i: int, j: int| 0 <= i < j < s.len() ==> (#[trigger] s[i]).start.at() < (#[trigger] s[j]).start.at()
}

/// Whether `out` holds the buckets of the first `n` candles, the last of them that of the last candle.
spec fn holds_buckets(candles: Seq<Candle>, interval: Interval, n: int, out: Seq<Candle>) -> bool {
    &&& later_and_later(out)
    &&& forall|k: int| 0 <= k < out.len() ==> some_bucket(#[trigger] out[k], candles, interval, n)
    &&& n == 0 <==> out.len() == 0
    &&& n > 0 ==> interval.bucket_of(candles[n - 1].start) == Some(out.last().start)
    &&& forall|j: int| 0 <= j < n ==> interval.bucket_of((#[trigger] candles[j]).start) is Some
}

/// Later instants are in no earlier bucket.
proof fn lemma_buckets_in_order(interval: Interval, s: Timestamp, t: Timestamp)
    requires
        s.at() <= t.at(),
        interval.bucket_of(s) is Some,
        interval.bucket_of(t) is Some,
    ensures
        interval.bucket_of(s)->0.at() <= interval.bucket_of(t)->0.at(),
        interval.bucket_of(s)->0.at() == interval.bucket_of(t)->0.at() ==> interval.bucket_of(s) == interval.bucket_of(
            t,
        ),
{
    let b = interval.secs() as int;
    let x = s.second() + interval.shift();
    let y = t.second() + interval.shift();
    lemma_instant(interval.bucket_start(s.second()) * NANOS_PER_SEC);
    lemma_instant(interval.bucket_start(t.second()) * NANOS_PER_SEC);
    vstd::arithmetic::div_mod::lemma_fundamental_div_mod(x, b);
    vstd::arithmetic::div_mod::lemma_fundamental_div_mod(y, b);
    vstd::arithmetic::div_mod::lemma_div_is_ordered(x, y, b);
    assert(b * (x / b) <= b * (y / b)) by (nonlinear_arith)
        requires
            b > 0,
            x / b <= y / b,
    ;
}

/// A candle merged into one that sums up those before it.
proof fn lemma_one_more(c: Candle, candles: Seq<Candle>, a: int, b: int)
    requires
        sums_up(c, candles, a, b),
        b < candles.len(),
        merged(c, candles[b]) is Some,
    ensures
        sums_up(merged(c, candles[b])->0, candles, a, b + 1),
{
    let m = merged(c, candles[b])->0;
    let h = choose|j: int| a <= j < b && (#[trigger] candles[j]).high == c.high;
    let l = choose|j: int| a <= j < b && (#[trigger] candles[j]).low == c.low;
    assert(m.high == candles[h].high || m.high == candles[b].high);
    assert(m.low == candles[l].low || m.low == candles[b].low);
    assert(exists|j: int| a <= j < b + 1 && (#[trigger] candles[j]).high == m.high);
    assert(exists|j: int| a <= j < b + 1 && (#[trigger] candles[j]).low == m.low);
}

/// A bucket that one more candle is not in.
proof fn lemma_kept_bucket(c: Candle, candles: Seq<Candle>, interval: Interval, n: int)
    requires
        0 <= n < candles.len(),
        some_bucket(c, candles, interval, n),
        interval.bucket_of(candles[n].start) != Some(c.start),
    ensures
        some_bucket(c, candles, interval, n + 1),
{
    let (a, b) = choose|a: int, b: int| is_bucket(c, candles, interval, n, a, b);
    assert(is_bucket(c, candles, interval, n + 1, a, b));
}

/// The last bucket, with one more candle.
proof fn lemma_joined_bucket(c: Candle, candles: Seq<Candle>, interval: Interval, n: int)
    requires
        0 < n < candles.len(),
        some_bucket(c, candles, interval, n),
        interval.bucket_of(candles[n - 1].start) == Some(c.start),
        interval.bucket_of(candles[n].start) == Some(c.start),
        merged(c, candles[n]) is Some,
    ensures
        some_bucket(merged(c, candles[n])->0, candles, interval, n + 1),
{
    let (a, b) = choose|a: int, b: int| is_bucket(c, candles, interval, n, a, b);
    assert(b == n);
    lemma_one_more(c, candles, a, b);
    assert(is_bucket(merged(c, candles[n])->0, candles, interval, n + 1, a, n + 1));
}

/// A bucket of one candle.
proof fn lemma_fresh_bucket(candles: Seq<Candle>, interval: Interval, n: int)
    requires
        0 <= n < candles.len(),
        interval.bucket_of(candles[n].start) is Some,
        forall|j: int| 0 <= j < n ==> interval.bucket_of((#[trigger] candles[j]).start) != interval.bucket_of(candles[n].start),
    ensures
        some_bucket(
            Candle { start: interval.bucket_of(candles[n].start)->0, ..candles[n] },
            candles,
            interval,
            n + 1,
        ),
{
    let c = Candle { start: interval.bucket_of(candles[n].start)->0, ..candles[n] };
    assert(candles[n].high == c.high && candles[n].low == c.low);
    assert(sums_up(c, candles, n, n + 1));
    assert(is_bucket(c, candles, interval, n + 1, n, n + 1));
}

/// One more candle.
proof fn lemma_bucket_step(candles: Seq<Candle>, interval: Interval, i: int, out: Seq<Candle>)
    requires
        0 <= i < candles.len(),
        oldest_first(candles),
        holds_buckets(candles, interval, i, out),
        appended(out, candles[i], interval) is Some,
    ensures
        holds_buckets(candles, interval, i + 1, appended(out, candles[i], interval)->0),
{
    let c = candles[i];
    let more = appended(out, c, interval)->0;
    let start = interval.bucket_of(c.start)->0;
    let joins = out.len() > 0 && out.last().start == start;
    if i > 0 {
        lemma_buckets_in_order(interval, candles[i - 1].start, c.start);
    }
    let kept = if joins {
        out.len() - 1
    } else {
        out.len() as int
    };
    assert(more.len() == kept + 1 && more.last().start == start);
    assert forall|k: int| 0 <= k < kept implies #[trigger] more[k] == out[k] && more[k].start.at() < start.at() by {
        if k < out.len() - 1 {
            assert(out[k].start.at() < out[out.len() - 1].start.at());
        }
    }
    assert forall|k: int| 0 <= k < more.len() implies some_bucket(#[trigger] more[k], candles, interval, i + 1) by {
        if k < kept {
            assert(some_bucket(out[k], candles, interval, i));
            lemma_kept_bucket(out[k], candles, interval, i);
        } else if joins {
            assert(some_bucket(out[out.len() - 1], candles, interval, i));
            lemma_joined_bucket(out.last(), candles, interval, i);
        } else {
            assert forall|j: int| 0 <= j < i implies interval.bucket_of((#[trigger] candles[j]).start) != Some(start) by {
                lemma_buckets_in_order(interval, candles[j].start, candles[i - 1].start);
            }
            lemma_fresh_bucket(candles, interval, i);
        }
    }
    assert forall|a: int, b: int| 0 <= a < b < more.len() implies (#[trigger] more[a]).start.at() < (
    #[trigger] more[b]).start.at() by {
        if b < kept {
            assert(out[a].start.at() < out[b].start.at());
        }
    }
}

proof fn lemma_resampling(candles: Seq<Candle>, interval: Interval, i: int, out: Seq<Candle>)
    requires
        0 <= i <= candles.len(),
        oldest_first(candles),
        holds_buckets(candles, interval, i, out),
        resampled(candles, interval, i, out) is Some,
    ensures
        holds_buckets(candles, interval, candles.len() as int, resampled(candles, interval, i, out)->0),
    decreases candles.len() - i,
{
    if i < candles.len() {
        lemma_bucket_step(candles, interval, i, out);
        lemma_resampling(candles, interval, i + 1, appended(out, candles[i], interval)->0);
    }
}

/// Whether one of these candles starts there.
pub open spec fn starts_one(out: Seq<Candle>, start: Option<Timestamp>) -> bool {
    exists|k: int| 0 <= k < out.len() && start == Some((#[trigger] out[k]).start)
}

/// Every candle is in a bucket.
proof fn lemma_every_candle_lands(candles: Seq<Candle>, interval: Interval, i: int, out: Seq<Candle>)
    requires
        0 <= i <= candles.len(),
        resampled(candles, interval, i, out) is Some,
        forall|j: int| 0 <= j < i ==> starts_one(out, interval.bucket_of((#[trigger] candles[j]).start)),
    ensures
        forall|j: int|
            0 <= j < candles.len() ==> starts_one(
                resampled(candles, interval, i, out)->0,
                interval.bucket_of((#[trigger] candles[j]).start),
            ),
    decreases candles.len() - i,
{
    if i < candles.len() {
        let more = appended(out, candles[i], interval)->0;
        assert forall|j: int| 0 <= j < i + 1 implies starts_one(
            more,
            interval.bucket_of((#[trigger] candles[j]).start),
        ) by {
            let start = interval.bucket_of(candles[j].start);
            if j < i {
                let k = choose|k: int| 0 <= k < out.len() && start == Some((#[trigger] out[k]).start);
                assert(more[k].start == out[k].start);
            } else {
                assert(start == Some(more[more.len() - 1].start));
            }
        }
        lemma_every_candle_lands(candles, interval, i + 1, more);
    }
}

/// Of candles that come oldest first, resampling makes one candle of each bucket that has any, later
/// and later ones, each of which sums up the candles of its bucket; and every candle is in one.
pub proof fn law_resampling_sums_up_buckets(candles: Seq<Candle>, interval: Interval)
    requires
        oldest_first(candles),
        resampled(candles, interval, 0, Seq::empty()) is Some,
    ensures
        ({
            let out = resampled(candles, interval, 0, Seq::empty())->0;
            &&& later_and_later(out)
            &&& forall|k: int| 0 <= k < out.len() ==> some_bucket(#[trigger] out[k], candles, interval, candles.len() as int)
            &&& forall|j: int|
                0 <= j < candles.len() ==> starts_one(out, interval.bucket_of((#[trigger] candles[j]).start))
        }),
{
    lemma_resampling(candles, interval, 0, Seq::empty());
    lemma_every_candle_lands(candles, interval, 0, Seq::empty());
}

/// The bar of a single print.
pub open spec fn print_bar(t: TradeView, start: Timestamp) -> Option<Candle> {
    match t.price.times(t.qty) {
        Some(value) => Some(
            Candle { start, open: t.price, high: t.price, low: t.price, close: t.price, volume: t.qty, value },
        ),
        None => None,
    }
}

/// What a print does to the open bars: they, and the bar that it closed if it began a new minute.
/// A late print for a minute that is already closed is dropped.
pub open spec fn bar_printed(open: Map<(Venue, Seq<char>), Candle>, t: TradeView) -> Result<
    (Map<(Venue, Seq<char>), Candle>, Option<Candle>),
    Overflow,
> {
    match Interval::M1.bucket_of(t.at) {
        None => Err(Overflow),
        Some(start) => match print_bar(t, start) {
            None => Err(Overflow),
            Some(fresh) => if !open.contains_key(t.instrument) {
                Ok((open.insert(t.instrument, fresh), None))
            } else {
                let bar = open[t.instrument];
                if bar.start == start {
                    match merged(bar, fresh) {
                        Some(m) => Ok((open.insert(t.instrument, m), None)),
                        None => Err(Overflow),
                    }
                } else if bar.start.at() < start.at() {
                    Ok((open.insert(t.instrument, fresh), Some(bar)))
                } else {
                    Ok((open, None))
                }
            },
        },
    }
}

/// Rolls trade prints into 1-minute bars per instrument.
pub struct BarBuilder {
    pub open: Table<InstrumentId, Candle>,
}

impl BarBuilder {
    pub open spec fn wf(&self) -> bool {
        self.open.wf()
    }

    pub fn new() -> (r: BarBuilder)
        ensures
            r.wf(),
            r.open@ == Map::<(Venue, Seq<char>), Candle>::empty(),
    {
        BarBuilder { open: Table::new() }
    }

    /// Adds a print; returns the previous bar of this instrument if the print started a new
    /// minute. On an overflow nothing changes.
    pub fn on_trade(&mut self, t: &Trade) -> (r: Result<Option<(InstrumentId, Candle)>, Overflow>)
        requires
            old(self).wf(),
        ensures
            final(self).wf(),
            match bar_printed(old(self).open@, t@) {
                Err(e) => r is Err && final(self).open@ == old(self).open@,
                Ok((open, closed)) => r is Ok && final(self).open@ == open && match closed {
                    Some(c) => r->Ok_0 matches Some(done) && done.0@ == t.instrument@ && done.1 == c,
                    None => r->Ok_0 is None,
                },
            },
    {
        let start = match Interval::M1.bucket(t.at) {
            Some(s) => s,
            None => return Err(Overflow),
        };
        let value = match t.price.checked_mul(t.qty) {
            Some(v) => v,
            None => return Err(Overflow),
        };
        let fresh = Candle {
            start,
            open: t.price,
            high: t.price,
            low: t.price,
            close: t.price,
            volume: t.qty,
            value,
        };
        let bar = match self.open.get(&t.instrument) {
            Some(b) => *b,
            None => {
                self.open.insert(t.instrument.clone(), fresh);
                return Ok(None);
            },
        };
        if bar.start == start {
            match merge(bar, fresh) {
                Some(m) => {
                    self.open.insert(t.instrument.clone(), m);
                    Ok(None)
                },
                None => Err(Overflow),
            }
        } else if start.after(bar.start) {
            self.open.insert(t.instrument.clone(), fresh);
            Ok(Some((t.instrument.clone(), bar)))
        } else {
            Ok(None)
        }
    }

    /// Closes and returns every open bar whose minute started before `cutoff`.
    pub fn flush_before(&mut self, cutoff: Timestamp) -> (r: Vec<(InstrumentId, Candle)>)
        requires
            old(self).wf(),
        ensures
            final(self).wf(),
            bar_views(r@).no_duplicates(),
            forall|x: ((Venue, Seq<char>), Candle)| #[trigger]
                bar_views(r@).contains(x) <==> old(self).open@.contains_key(x.0) && old(self).open@[x.0] == x.1
                    && x.1.start.at() < cutoff.at(),
            final(self).open@ == still_open(old(self).open@, cutoff),
    {
        let ghost before = self.open@;
        let ghost rows = self.open.rows();
        let mut kept: Table<InstrumentId, Candle> = Table::new();
        let mut out: Vec<(InstrumentId, Candle)> = Vec::new();
        let mut i: usize = 0;
        while i < self.open.len()
            invariant
                i <= rows.len(),
                self.wf(),
                rows == self.open.rows(),
                before == self.open@,
                before == old(self).open@,
                kept.wf(),
                bar_views(out@).no_duplicates(),
                forall|x: ((Venue, Seq<char>), Candle)| #[trigger]
                    bar_views(out@).contains(x) <==> x.1.start.at() < cutoff.at() && exists|j: int|
                        0 <= j < i && #[trigger] rows[j] == x,
                forall|k: (Venue, Seq<char>)| #[trigger]
                    kept@.contains_key(k) <==> exists|j: int|
                        0 <= j < i && (#[trigger] rows[j]).0 == k && rows[j].1.start.at() >= cutoff.at(),
                forall|k: (Venue, Seq<char>)| #[trigger]
                    kept@.contains_key(k) ==> before.contains_key(k) && kept@[k] == before[k],
            decreases rows.len() - i,
        {
            proof {
                lemma_row(rows, i as int);
            }
            let id = self.open.key_at(i).clone();
            let c = *self.open.value_at(i);
            let ghost out0 = bar_views(out@);
            let ghost kept0 = kept@;
            let ghost row = rows[i as int];
            if cutoff.after(c.start) {
                out.push((id, c));
                proof {
                    assert(bar_views(out@) =~= out0.push(row));
                    if out0.contains(row) {
                        let j = choose|j: int| 0 <= j < i && #[trigger] rows[j] == row;
                        assert(rows[j].0 == rows[i as int].0);
                    }
                }
            } else {
                kept.insert(id, c);
            }
            proof {
                assert forall|x: ((Venue, Seq<char>), Candle)| #[trigger]
                    bar_views(out@).contains(x) <==> x.1.start.at() < cutoff.at() && exists|j: int|
                        0 <= j < i + 1 && #[trigger] rows[j] == x by {
                    if bar_views(out@).contains(x) {
                        let k = choose|k: int| 0 <= k < bar_views(out@).len() && bar_views(out@)[k] == x;
                        if k < out0.len() {
                            assert(out0[k] == x);
                            assert(out0.contains(x));
                            let j = choose|j: int| 0 <= j < i && #[trigger] rows[j] == x;
                            assert(rows[j] == x);
                        } else {
                            assert(rows[i as int] == x);
                        }
                    }
                    if x.1.start.at() < cutoff.at() && exists|j: int| 0 <= j < i + 1 && #[trigger] rows[j] == x {
                        let j = choose|j: int| 0 <= j < i + 1 && #[trigger] rows[j] == x;
                        if j < i {
                            assert(out0.contains(x));
                            let k = choose|k: int| 0 <= k < out0.len() && out0[k] == x;
                            assert(bar_views(out@)[k] == x);
                        } else {
                            assert(bar_views(out@)[out0.len() as int] == x);
                        }
                    }
                }
                assert forall|k: (Venue, Seq<char>)| #[trigger]
                    kept@.contains_key(k) <==> exists|j: int|
                        0 <= j < i + 1 && (#[trigger] rows[j]).0 == k && rows[j].1.start.at() >= cutoff.at() by {
                    assert(rows[i as int] == row);
                    if kept0.contains_key(k) {
                        let j = choose|j: int|
                            0 <= j < i && (#[trigger] rows[j]).0 == k && rows[j].1.start.at() >= cutoff.at();
                        assert(rows[j].0 == k);
                    }
                }
            }
            i += 1;
        }
        proof {
            assert forall|x: ((Venue, Seq<char>), Candle)| #[trigger]
                bar_views(out@).contains(x) <==> before.contains_key(x.0) && before[x.0] == x.1 && x.1.start.at()
                    < cutoff.at() by {
                if before.contains_key(x.0) && before[x.0] == x.1 {
                    let j = lemma_row_of(rows, x.0);
                    assert(rows[j] == x);
                }
                if exists|j: int| 0 <= j < rows.len() && #[trigger] rows[j] == x {
                    let j = choose|j: int| 0 <= j < rows.len() && #[trigger] rows[j] == x;
                    lemma_row(rows, j);
                }
            }
            assert forall|k: (Venue, Seq<char>)| #[trigger] kept@.contains_key(k) <==> still_open(
                before,
                cutoff,
            ).contains_key(k) by {
                if before.contains_key(k) {
                    let j = lemma_row_of(rows, k);
                    assert(rows[j].0 == k);
                }
                if kept@.contains_key(k) {
                    let j = choose|j: int|
                        0 <= j < rows.len() && (#[trigger] rows[j]).0 == k && rows[j].1.start.at() >= cutoff.at();
                    lemma_row(rows, j);
                }
            }
            assert(kept@ =~= still_open(before, cutoff));
        }
        self.open = kept;
        out
    }
}

/// Bars with their instruments.
pub open spec fn bar_views(s: Seq<(InstrumentId, Candle)>) -> Seq<((Venue, Seq<char>), Candle)> {
    s.map_values(|e: (InstrumentId, Candle)| (e.0@, e.1))
}

/// The bars that started at `cutoff` or later.
pub open spec fn still_open(open: Map<(Venue, Seq<char>), Candle>, cutoff: Timestamp) -> Map<
    (Venue, Seq<char>),
    Candle,
> {
    Map::new(
        |k: (Venue, Seq<char>)| open.contains_key(k) && open[k].start.at() >= cutoff.at(),
        |k: (Venue, Seq<char>)| open[k],
    )
}

/// Buckets start on the clock: those of minutes, of an hour and of a day where so many seconds of a day are
/// over, those of a week with a Monday.
pub proof fn law_buckets_start_on_the_clock(i: Interval, second: int)
    ensures
        i == Interval::M1 ==> i.bucket_start(second) % 60 == 0 && second - i.bucket_start(second) < 60,
        i == Interval::M5 ==> i.bucket_start(second) % 300 == 0 && second - i.bucket_start(second) < 5 * 60,
        i == Interval::M15 ==> i.bucket_start(second) % 900 == 0 && second - i.bucket_start(second) < 15 * 60,
        i == Interval::H1 ==> i.bucket_start(second) % 3600 == 0 && second - i.bucket_start(second) < 3600,
        i == Interval::D1 ==> i.bucket_start(second) % 86_400 == 0 && second - i.bucket_start(second) < 86_400,
        i == Interval::W1 ==> i.bucket_start(second) % 86_400 == 0 && weekday(i.bucket_start(second) / 86_400) == 0
            && second - i.bucket_start(second) < 7 * 86_400,
        i.bucket_start(second) <= second,
{
    let b = i.secs() as int;
    let a = second + i.shift();
    vstd::arithmetic::div_mod::lemma_fundamental_div_mod(a, b);
    let n = a / b;
    if i == Interval::W1 {
        let s = i.bucket_start(second);
        assert(s == 604_800 * n - 259_200);
        vstd::arithmetic::div_mod::lemma_fundamental_div_mod_converse(s, 86_400, 7 * n - 3, 0);
        vstd::arithmetic::div_mod::lemma_fundamental_div_mod_converse(7 * n, 7, n, 0);
    } else {
        vstd::arithmetic::div_mod::lemma_fundamental_div_mod_converse(a - a % b, b, n, 0);
    }
}

proof fn lemma_minute(t: Timestamp)
    requires
        Interval::M1.bucket_of(t) is Some,
    ensures
        Interval::M1.bucket_of(t)->0.at() == t.at() / 60_000_000_000 * 60_000_000_000,
{
    let s = Interval::M1.bucket_start(t.second());
    lemma_instant(s * NANOS_PER_SEC);
    let a = t.at();
    vstd::arithmetic::div_mod::lemma_fundamental_div_mod(a, 1_000_000_000);
    let sec = a / 1_000_000_000;
    vstd::arithmetic::div_mod::lemma_fundamental_div_mod(sec, 60);
    let n = sec / 60;
    vstd::arithmetic::div_mod::lemma_fundamental_div_mod_converse(
        a,
        60_000_000_000,
        n,
        sec % 60 * 1_000_000_000 + a % 1_000_000_000,
    );
}

/// What a print does to the bars: the bar of its minute opens at its first price and closes at its last,
/// is as high and as low as they went, and holds what was traded. A print of a later minute closes the bar
/// before; one of an earlier minute changes nothing, and so does none to the bars of others. Decimals hold
/// the value of the print and the sums.
pub proof fn law_prints_make_up_bars(open: Map<(Venue, Seq<char>), Candle>, t: TradeView)
    requires
        product_held(t.price, t.qty),
        open.contains_key(t.instrument) ==> representable(open[t.instrument].volume.value() + t.qty.value())
            && representable(open[t.instrument].value.value() + t.price.value() * t.qty.value() / unit()),
    ensures
        bar_printed(open, t) matches Ok((after, closed)) ==> {
            let minute = t.at.at() / 60_000_000_000 * 60_000_000_000;
            let known = open.contains_key(t.instrument);
            let old = open[t.instrument];
            let new = after[t.instrument];
            let worth = t.price.value() * t.qty.value() / unit();
            &&& after.contains_key(t.instrument)
            &&& forall|k: (Venue, Seq<char>)|
                k != t.instrument ==> #[trigger] after.contains_key(k) == open.contains_key(k) && after[k] == open[k]
            &&& (!known || old.start.at() < minute) ==> {
                &&& new.start.at() == minute
                &&& new.open == t.price && new.high == t.price && new.low == t.price && new.close == t.price
                &&& new.volume == t.qty
                &&& new.value.value() == worth
                &&& closed == if known {
                    Some(old)
                } else {
                    None
                }
            }
            &&& known && old.start.at() == minute ==> {
                &&& new.start == old.start && new.open == old.open && new.close == t.price
                &&& new.high.value() == max_int(old.high.value(), t.price.value())
                &&& new.low.value() == -max_int(-old.low.value(), -t.price.value())
                &&& new.volume.value() == old.volume.value() + t.qty.value()
                &&& new.value.value() == old.value.value() + worth
                &&& closed is None
            }
            &&& known && old.start.at() > minute ==> after == open && closed is None
        },
{
    lemma_unit();
    lemma_product(t.price, t.qty);
    if let Ok((after, closed)) = bar_printed(open, t) {
        let start = Interval::M1.bucket_of(t.at)->0;
        lemma_minute(t.at);
        let fresh = print_bar(t, start)->0;
        if open.contains_key(t.instrument) {
            let old = open[t.instrument];
            if old.start.at() == start.at() {
                lemma_same_instant(old.start, start);
            }
            lemma_sums(old.volume, fresh.volume);
            lemma_sums(old.value, fresh.value);
        }
    }
}

/// A bar stays open from its start until the cutoff has passed it, as it is; bars that started before the cutoff
/// are over.
pub proof fn law_bars_are_over_once_the_cutoff_passes(
    open: Map<(Venue, Seq<char>), Candle>,
    cutoff: Timestamp,
    k: (Venue, Seq<char>),
)
    ensures
        open.contains_key(k) && open[k].start.at() < cutoff.at() ==> !still_open(open, cutoff).contains_key(k),
        open.contains_key(k) && open[k].start.at() >= cutoff.at() ==> still_open(open, cutoff).contains_key(k),
        still_open(open, cutoff).contains_key(k) ==> open.contains_key(k) && still_open(open, cutoff)[k] == open[k],
{
}

} // verus!

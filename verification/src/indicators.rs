//! Technical indicators: how they are asked for and how their lines are called.
use crate::decimal::padded_digits;
use crate::domain::{quote, quoted};
use crate::text::{
    chars_of, lowercase, lowered, parse_uint, pieces, same_text, split_at, texts, trim, trimmed, uint_of, uint_text,
};
use vstd::prelude::*;

verus! {

/// The longest period.
pub const MAX_PERIOD: usize = 500;

/// The bits of the double two.
pub const TWO_BITS: u64 = 0x4000_0000_0000_0000;

/// The bits of the double ten. Doubles that are not negative are in the order of their bits.
pub const TEN_BITS: u64 = 0x4024_0000_0000_0000;

#[derive(Debug, Clone, Copy, PartialEq)]
pub enum IndicatorSpec {
    Sma(usize),
    Ema(usize),
    Rsi(usize),
    Macd(usize, usize, usize),
    /// Period, and width in standard deviations as the bits of a double.
    Bollinger(usize, u64),
    Atr(usize),
    Volatility(usize),
}

/// `s`, a colon and a message.
pub open spec fn complaint(s: Seq<char>, m: Seq<char>) -> Seq<char> {
    s + ": "@ + m
}

/// The period at index `i` of the parameters.
pub open spec fn period_at(
    s: Seq<char>,
    name: Seq<char>,
    params: Seq<Seq<char>>,
    i: int,
    default: Option<usize>,
) -> Result<usize, Seq<char>> {
    let v = if i < params.len() {
        match uint_of(params[i]) {
            Some(n) => if n <= u64::MAX {
                Ok(n)
            } else {
                Err(complaint(s, params[i] + " is not a whole number"@))
            },
            None => Err(complaint(s, params[i] + " is not a whole number"@)),
        }
    } else {
        match default {
            Some(n) => Ok(n as nat),
            None => Err(complaint(s, "needs a period, e.g. "@ + name + ":20"@)),
        }
    };
    match v {
        Err(e) => Err(e),
        Ok(n) => if n == 0 || n > MAX_PERIOD {
            Err(complaint(s, "period must be 1..=500"@))
        } else {
            Ok(n as usize)
        },
    }
}

/// The width of a Bollinger band; `read` is what its text reads as, if it is a double.
pub open spec fn width_in(s: Seq<char>, params: Seq<Seq<char>>, read: Option<u64>) -> Result<u64, Seq<char>> {
    let k = if params.len() > 1 {
        match read {
            Some(k) => Ok(k),
            None => Err(complaint(s, params[1] + " is not a number"@)),
        }
    } else {
        Ok(TWO_BITS)
    };
    match k {
        Err(e) => Err(e),
        Ok(k) => if 0 < k <= TEN_BITS {
            Ok(k)
        } else {
            Err(complaint(s, "width must be in (0, 10]"@))
        },
    }
}

/// A period as an indicator.
pub open spec fn with_period(p: Result<usize, Seq<char>>, f: spec_fn(usize) -> IndicatorSpec) -> Result<
    IndicatorSpec,
    Seq<char>,
> {
    match p {
        Ok(n) => Ok(f(n)),
        Err(e) => Err(e),
    }
}

/// The text of the width that a Bollinger band is asked for with.
pub open spec fn width_asked(s: Seq<char>) -> Option<Seq<char>> {
    let parts = pieces(trimmed(s), ':');
    if (lowered(parts[0]) == "bb"@ || lowered(parts[0]) == "bollinger"@) && parts.len() > 2 {
        Some(parts[2])
    } else {
        None
    }
}

/// The indicator that a text asks for: `name[:param[:param]]`. `read` is what the text of a width
/// reads as, if it is a double.
pub open spec fn asked(s: Seq<char>, read: Option<u64>) -> Result<IndicatorSpec, Seq<char>> {
    let parts = pieces(trimmed(s), ':');
    let name = lowered(parts[0]);
    let params = parts.skip(1);
    if name == "sma"@ {
        with_period(period_at(s, name, params, 0, None), |n: usize| IndicatorSpec::Sma(n))
    } else if name == "ema"@ {
        with_period(period_at(s, name, params, 0, None), |n: usize| IndicatorSpec::Ema(n))
    } else if name == "rsi"@ {
        with_period(period_at(s, name, params, 0, Some(14)), |n: usize| IndicatorSpec::Rsi(n))
    } else if name == "macd"@ {
        match (
            period_at(s, name, params, 0, Some(12)),
            period_at(s, name, params, 1, Some(26)),
            period_at(s, name, params, 2, Some(9)),
        ) {
            (Err(e), _, _) => Err(e),
            (_, Err(e), _) => Err(e),
            (_, _, Err(e)) => Err(e),
            (Ok(a), Ok(b), Ok(c)) => Ok(IndicatorSpec::Macd(a, b, c)),
        }
    } else if name == "bb"@ || name == "bollinger"@ {
        match width_in(s, params, read) {
            Err(e) => Err(e),
            Ok(k) => with_period(
                period_at(s, name, params, 0, Some(20)),
                |n: usize| IndicatorSpec::Bollinger(n, k),
            ),
        }
    } else if name == "atr"@ {
        with_period(period_at(s, name, params, 0, Some(14)), |n: usize| IndicatorSpec::Atr(n))
    } else if name == "vol"@ || name == "volatility"@ {
        with_period(period_at(s, name, params, 0, Some(20)), |n: usize| IndicatorSpec::Volatility(n))
    } else {
        Err("unknown indicator "@ + quoted(name) + "; use sma, ema, rsi, macd, bb, atr or vol"@)
    }
}

fn complain(s: &str, m: &str) -> (r: String)
    ensures
        r@ == complaint(s@, m@),
{
    let mut t = s.to_owned();
    t.append(": ");
    t.append(m);
    t
}

fn complain_of(s: &str, p: &str, m: &str) -> (r: String)
    ensures
        r@ == complaint(s@, p@ + m@),
{
    let mut t = s.to_owned();
    t.append(": ");
    t.append(p);
    t.append(m);
    assert(t@ =~= complaint(s@, p@ + m@));
    t
}

fn period(s: &str, name: &str, parts: &Vec<String>, i: usize, default: Option<usize>) -> (r: Result<usize, String>)
    requires
        parts@.len() > 0,
        i < 3,
    ensures
        match period_at(s@, name@, texts(parts@).skip(1), i as int, default) {
            Ok(n) => r == Ok::<usize, String>(n),
            Err(e) => r matches Err(m) && m@ == e,
        },
{
    let ghost params = texts(parts@).skip(1);
    let n: u64 = if i < parts.len() - 1 {
        let p = parts[i + 1].as_str();
        assert(params[i as int] == p@);
        match parse_uint(&chars_of(p)) {
            Some(n) => n,
            None => return Err(complain_of(s, p, " is not a whole number")),
        }
    } else {
        match default {
            Some(n) => n as u64,
            None => {
                let mut m = s.to_owned();
                m.append(": ");
                m.append("needs a period, e.g. ");
                m.append(name);
                m.append(":20");
                assert(m@ =~= complaint(s@, "needs a period, e.g. "@ + name@ + ":20"@));
                return Err(m);
            },
        }
    };
    if n == 0 || n > MAX_PERIOD as u64 {
        return Err(complain(s, "period must be 1..=500"));
    }
    Ok(n as usize)
}

fn width(s: &str, parts: &Vec<String>, read: Option<u64>) -> (r: Result<u64, String>)
    requires
        parts@.len() > 0,
    ensures
        match width_in(s@, texts(parts@).skip(1), read) {
            Ok(k) => r == Ok::<u64, String>(k),
            Err(e) => r matches Err(m) && m@ == e,
        },
{
    let ghost params = texts(parts@).skip(1);
    let k: u64 = if parts.len() > 2 {
        let p = parts[2].as_str();
        assert(params[1] == p@);
        match read {
            Some(k) => k,
            None => return Err(complain_of(s, p, " is not a number")),
        }
    } else {
        TWO_BITS
    };
    if 0 < k && k <= TEN_BITS {
        Ok(k)
    } else {
        Err(complain(s, "width must be in (0, 10]"))
    }
}

impl IndicatorSpec {
    /// The text of the width that a Bollinger band is asked for with, which is to be read as a
    /// double.
    pub fn width_text(s: &str) -> (r: Option<String>)
        ensures
            match width_asked(s@) {
                Some(w) => r matches Some(x) && x@ == w,
                None => r is None,
            },
    {
        let t = trim(s);
        let parts = split_at(&chars_of(t.as_str()), ':');
        assert(texts(parts@)[0] == parts@[0]@);
        let name = lowercase(parts[0].as_str());
        if (same_text(name.as_str(), "bb") || same_text(name.as_str(), "bollinger")) && parts.len() > 2 {
            assert(texts(parts@)[2] == parts@[2]@);
            Some(parts[2].clone())
        } else {
            None
        }
    }

    /// `name[:param[:param]]`, e.g. `sma:20`, `rsi`, `macd:12:26:9`, `bb:20:2`. `read` holds the
    /// bits of the double that `width_text` reads as, or nothing where it is none.
    pub fn parse(s: &str, read: Option<u64>) -> (r: Result<IndicatorSpec, String>)
        ensures
            match asked(s@, read) {
                Ok(i) => r == Ok::<IndicatorSpec, String>(i),
                Err(e) => r matches Err(m) && m@ == e,
            },
    {
        let t = trim(s);
        let parts = split_at(&chars_of(t.as_str()), ':');
        assert(texts(parts@)[0] == parts@[0]@);
        let name = lowercase(parts[0].as_str());
        let name = name.as_str();
        if same_text(name, "sma") {
            match period(s, name, &parts, 0, None) {
                Ok(n) => Ok(IndicatorSpec::Sma(n)),
                Err(e) => Err(e),
            }
        } else if same_text(name, "ema") {
            match period(s, name, &parts, 0, None) {
                Ok(n) => Ok(IndicatorSpec::Ema(n)),
                Err(e) => Err(e),
            }
        } else if same_text(name, "rsi") {
            match period(s, name, &parts, 0, Some(14)) {
                Ok(n) => Ok(IndicatorSpec::Rsi(n)),
                Err(e) => Err(e),
            }
        } else if same_text(name, "macd") {
            let a = match period(s, name, &parts, 0, Some(12)) {
                Ok(n) => n,
                Err(e) => return Err(e),
            };
            let b = match period(s, name, &parts, 1, Some(26)) {
                Ok(n) => n,
                Err(e) => return Err(e),
            };
            match period(s, name, &parts, 2, Some(9)) {
                Ok(c) => Ok(IndicatorSpec::Macd(a, b, c)),
                Err(e) => Err(e),
            }
        } else if same_text(name, "bb") || same_text(name, "bollinger") {
            let k = match width(s, &parts, read) {
                Ok(k) => k,
                Err(e) => return Err(e),
            };
            match period(s, name, &parts, 0, Some(20)) {
                Ok(n) => Ok(IndicatorSpec::Bollinger(n, k)),
                Err(e) => Err(e),
            }
        } else if same_text(name, "atr") {
            match period(s, name, &parts, 0, Some(14)) {
                Ok(n) => Ok(IndicatorSpec::Atr(n)),
                Err(e) => Err(e),
            }
        } else if same_text(name, "vol") || same_text(name, "volatility") {
            match period(s, name, &parts, 0, Some(20)) {
                Ok(n) => Ok(IndicatorSpec::Volatility(n)),
                Err(e) => Err(e),
            }
        } else {
            let mut m = "unknown indicator ".to_owned();
            m.append(quote(name).as_str());
            m.append("; use sma, ema, rsi, macd, bb, atr or vol");
            Err(m)
        }
    }

    /// The names of the output lines.
    pub open spec fn lines(self) -> Seq<Seq<char>> {
        match self {
            IndicatorSpec::Sma(n) => seq!["sma_"@ + padded_digits(n as nat, 1)],
            IndicatorSpec::Ema(n) => seq!["ema_"@ + padded_digits(n as nat, 1)],
            IndicatorSpec::Rsi(n) => seq!["rsi_"@ + padded_digits(n as nat, 1)],
            IndicatorSpec::Macd(_, _, _) => seq!["macd"@, "macd_signal"@, "macd_hist"@],
            IndicatorSpec::Bollinger(_, _) => seq!["bb_upper"@, "bb_middle"@, "bb_lower"@],
            IndicatorSpec::Atr(n) => seq!["atr_"@ + padded_digits(n as nat, 1)],
            IndicatorSpec::Volatility(n) => seq!["vol_"@ + padded_digits(n as nat, 1)],
        }
    }

    fn one_line(prefix: &str, n: usize) -> (r: Vec<String>)
        ensures
            texts(r@) == seq![prefix@ + padded_digits(n as nat, 1)],
    {
        let mut s = prefix.to_owned();
        s.append(uint_text(n as u64).as_str());
        let mut v: Vec<String> = Vec::new();
        v.push(s);
        assert(texts(v@) =~= seq![prefix@ + padded_digits(n as nat, 1)]);
        v
    }

    fn three_lines(a: &str, b: &str, c: &str) -> (r: Vec<String>)
        ensures
            texts(r@) == seq![a@, b@, c@],
    {
        let mut v: Vec<String> = Vec::new();
        v.push(a.to_owned());
        v.push(b.to_owned());
        v.push(c.to_owned());
        assert(texts(v@) =~= seq![a@, b@, c@]);
        v
    }

    /// The names of the output lines.
    pub fn line_names(&self) -> (r: Vec<String>)
        ensures
            texts(r@) == self.lines(),
    {
        match *self {
            IndicatorSpec::Sma(n) => Self::one_line("sma_", n),
            IndicatorSpec::Ema(n) => Self::one_line("ema_", n),
            IndicatorSpec::Rsi(n) => Self::one_line("rsi_", n),
            IndicatorSpec::Macd(_, _, _) => Self::three_lines("macd", "macd_signal", "macd_hist"),
            IndicatorSpec::Bollinger(_, _) => Self::three_lines("bb_upper", "bb_middle", "bb_lower"),
            IndicatorSpec::Atr(n) => Self::one_line("atr_", n),
            IndicatorSpec::Volatility(n) => Self::one_line("vol_", n),
        }
    }
}

/// No indicator that was asked for has a period or a width outside the limits.
pub proof fn law_periods_are_limited(s: Seq<char>, read: Option<u64>)
    ensures
        asked(s, read) matches Ok(i) ==> match i {
            IndicatorSpec::Sma(n) => 1 <= n <= MAX_PERIOD,
            IndicatorSpec::Ema(n) => 1 <= n <= MAX_PERIOD,
            IndicatorSpec::Rsi(n) => 1 <= n <= MAX_PERIOD,
            IndicatorSpec::Macd(a, b, c) => 1 <= a <= MAX_PERIOD && 1 <= b <= MAX_PERIOD && 1 <= c <= MAX_PERIOD,
            IndicatorSpec::Bollinger(n, k) => 1 <= n <= MAX_PERIOD && 0 < k <= TEN_BITS,
            IndicatorSpec::Atr(n) => 1 <= n <= MAX_PERIOD,
            IndicatorSpec::Volatility(n) => 1 <= n <= MAX_PERIOD,
        },
{
}

} // verus!

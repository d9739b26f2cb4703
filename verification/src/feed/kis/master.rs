//! KIS instrument master files: KRX (fixed width) and US (tab separated), both cp949.
use crate::archive::{decode_euc_kr, euc_kr_text};
use crate::domain::{InstrumentId, Venue};
use crate::feed::upbit::instrument_views;
use crate::table::Table;
use crate::text::{
    ascii_alnum, chars_of, is_ascii_alnum, pieces, same_text, split_at, texts, trim, trimmed,
};
use crate::venue::{whole_shares, Instrument, InstrumentView, LotRule, TickRule};
use vstd::prelude::*;
use vstd::utf8::{decode_utf8, valid_utf8};

pub use crate::archive::unzip_first;

verus! {

pub const MASTER_BASE: &'static str = "https://new.real.download.dws.co.kr/common/master";

/// Where a master file is.
pub fn master_url(file: &str) -> (r: String)
    ensures
        r@ == MASTER_BASE@ + "/"@ + file@ + ".zip"@,
{
    let mut s = MASTER_BASE.to_owned();
    s.append("/");
    s.append(file);
    s.append(".zip");
    s
}

/// The text that bytes encode in UTF-8, if they do.
pub open spec fn utf8_text(bytes: Seq<u8>) -> Option<Seq<char>> {
    if valid_utf8(bytes) {
        Some(decode_utf8(bytes))
    } else {
        None
    }
}

/// Calls `std::str::from_utf8`. Claimed: there is a text exactly if the bytes are valid UTF-8, and
/// it is the one that they encode.
#[verifier::external_body]
fn read_utf8(bytes: &[u8]) -> (r: Option<String>)
    ensures
        match utf8_text(bytes@) {
            Some(s) => r is Some && (r->0)@ == s,
            None => r is None,
        },
{
    std::str::from_utf8(bytes).ok().map(|s| s.to_owned())
}

/// The lines of bytes from index `i` on; `from` is where the line begins that `i` is in.
pub open spec fn lines_from(s: Seq<u8>, from: int, i: int) -> Seq<Seq<u8>>
    decreases s.len() - i,
{
    if i >= s.len() {
        seq![s.subrange(from, s.len() as int)]
    } else if s[i] == 10 {
        seq![s.subrange(from, i)] + lines_from(s, i + 1, i + 1)
    } else {
        lines_from(s, from, i + 1)
    }
}

/// Whether a short code is one of a stock: six ASCII letters and digits.
pub open spec fn is_stock_code(s: Seq<char>) -> bool {
    s.len() == 6 && forall|i: int| 0 <= i < s.len() ==> is_ascii_alnum(#[trigger] s[i])
}

/// A line without a carriage return at its end.
pub open spec fn without_return(line: Seq<u8>) -> Seq<u8> {
    if line.len() > 0 && line.last() == 13 {
        line.drop_last()
    } else {
        line
    }
}

/// The instrument that a line of the KRX master tells of.
pub open spec fn krx_line(raw: Seq<u8>) -> Option<InstrumentView> {
    let line = without_return(raw);
    if line.len() < 61 {
        None
    } else {
        match utf8_text(line.subrange(0, 9)) {
            Some(s) => if is_stock_code(trimmed(s)) {
                Some(
                    InstrumentView {
                        id: (Venue::Krx, trimmed(s)),
                        name: trimmed(euc_kr_text(line.subrange(21, 61))),
                        tick: TickRule::Krx,
                        lot: LotRule {
                            step: crate::decimal::one(),
                            min_qty: crate::decimal::one(),
                            min_notional: crate::decimal::zero(),
                        },
                        tradable: true,
                    },
                )
            } else {
                None
            },
            None => None,
        }
    }
}

/// The instruments that lines from index `i` on tell of.
pub open spec fn krx_lines(lines: Seq<Seq<u8>>, i: int) -> Seq<InstrumentView>
    decreases lines.len() - i,
{
    if i >= lines.len() {
        Seq::empty()
    } else {
        match krx_line(lines[i]) {
            Some(x) => seq![x] + krx_lines(lines, i + 1),
            None => krx_lines(lines, i + 1),
        }
    }
}

fn part(bytes: &[u8], from: usize, to: usize) -> (r: Vec<u8>)
    requires
        from <= to <= bytes@.len(),
    ensures
        r@ == bytes@.subrange(from as int, to as int),
{
    let mut out: Vec<u8> = Vec::new();
    let mut i: usize = from;
    while i < to
        invariant
            from <= i <= to <= bytes@.len(),
            out@ == bytes@.subrange(from as int, i as int),
        decreases to - i,
    {
        out.push(bytes[i]);
        i += 1;
        assert(bytes@.subrange(from as int, i as int) =~= bytes@.subrange(from as int, i - 1).push(bytes@[i - 1]));
    }
    out
}

fn stock_code(s: &str) -> (r: bool)
    ensures
        r == is_stock_code(s@),
{
    let v = chars_of(s);
    if v.len() != 6 {
        return false;
    }
    let mut i: usize = 0;
    while i < v.len()
        invariant
            i <= v@.len(),
            v@ == s@,
            forall|j: int| 0 <= j < i ==> is_ascii_alnum(#[trigger] v@[j]),
        decreases v@.len() - i,
    {
        if !ascii_alnum(v[i]) {
            assert(!is_ascii_alnum(s@[i as int]));
            return false;
        }
        i += 1;
    }
    true
}

fn read_krx_line(raw: &Vec<u8>) -> (r: Option<Instrument>)
    ensures
        match krx_line(raw@) {
            Some(x) => r matches Some(y) && y@ == x,
            None => r is None,
        },
{
    let n: usize = raw.len();
    let end: usize = if n > 0 && raw[n - 1] == 13 {
        n - 1
    } else {
        n
    };
    let ghost line = without_return(raw@);
    assert(line =~= raw@.subrange(0, end as int));
    if end < 61 {
        return None;
    }
    let code = part(raw, 0, 9);
    assert(code@ =~= line.subrange(0, 9));
    let code = match read_utf8(&code) {
        Some(s) => trim(s.as_str()),
        None => return None,
    };
    if !stock_code(code.as_str()) {
        return None;
    }
    let name = part(raw, 21, 61);
    assert(name@ =~= line.subrange(21, 61));
    Some(
        Instrument {
            id: InstrumentId { venue: Venue::Krx, symbol: code },
            name: trim(decode_euc_kr(&name).as_str()),
            tick: TickRule::Krx,
            lot: whole_shares(),
            tradable: true,
        },
    )
}

/// Byte lines as what they hold.
pub open spec fn line_views(v: Seq<Vec<u8>>) -> Seq<Seq<u8>> {
    v.map_values(|l: Vec<u8>| l@)
}

fn split_lines(bytes: &[u8]) -> (r: Vec<Vec<u8>>)
    ensures
        line_views(r@) == lines_from(bytes@, 0, 0),
{
    let mut out: Vec<Vec<u8>> = Vec::new();
    let mut from: usize = 0;
    let mut i: usize = 0;
    assert(line_views(out@) + lines_from(bytes@, 0, 0) =~= lines_from(bytes@, 0, 0));
    while i < bytes.len()
        invariant
            from <= i <= bytes@.len(),
            lines_from(bytes@, 0, 0) == line_views(out@) + lines_from(bytes@, from as int, i as int),
        decreases bytes@.len() - i,
    {
        if bytes[i] == 10 {
            let ghost before = line_views(out@);
            let p = part(bytes, from, i);
            let ghost pv = p@;
            out.push(p);
            proof {
                let more = lines_from(bytes@, i + 1, i + 1);
                assert(line_views(out@) =~= before.push(pv));
                assert(before + (seq![pv] + more) =~= before.push(pv) + more);
            }
            from = i + 1;
        }
        i += 1;
    }
    let ghost before = line_views(out@);
    let p = part(bytes, from, bytes.len());
    let ghost pv = p@;
    out.push(p);
    assert(line_views(out@) =~= before + seq![pv]);
    out
}

/// KOSPI/KOSDAQ master lines: short code in bytes 0..9, name in bytes 21..61. Funds and other
/// non-6-character codes are dropped.
pub fn parse_krx_master(bytes: &[u8]) -> (r: Vec<Instrument>)
    ensures
        instrument_views(r@) == krx_lines(lines_from(bytes@, 0, 0), 0),
{
    let lines = split_lines(bytes);
    let ghost views = line_views(lines@);
    let mut out: Vec<Instrument> = Vec::new();
    let mut i: usize = 0;
    let ghost whole = krx_lines(views, 0);
    assert(instrument_views(out@) + whole =~= whole);
    while i < lines.len()
        invariant
            i <= lines@.len(),
            views == line_views(lines@),
            instrument_views(out@) + krx_lines(views, i as int) == whole,
        decreases lines@.len() - i,
    {
        assert(views[i as int] == lines@[i as int]@);
        let ghost before = instrument_views(out@);
        if let Some(x) = read_krx_line(&lines[i]) {
            let ghost xv = x@;
            out.push(x);
            proof {
                let more = krx_lines(views, i + 1);
                assert(instrument_views(out@) =~= before.push(xv));
                assert(before + (seq![xv] + more) =~= before.push(xv) + more);
            }
        }
        i += 1;
    }
    assert(instrument_views(out@) + krx_lines(views, i as int) =~= instrument_views(out@));
    out
}

/// The name of a US instrument: the Korean one with the English one behind it, unless there is
/// none or they are the same.
pub open spec fn us_name(ko: Seq<char>, en: Seq<char>) -> Seq<char> {
    if ko.len() > 0 && ko != en {
        ko + " ("@ + en + ")"@
    } else {
        en
    }
}

/// The instrument and the exchange that the columns of a row of a US master tell of: USD stocks
/// (type 2) and ETPs (type 3).
pub open spec fn us_row(c: Seq<Seq<char>>) -> Option<(InstrumentView, Seq<char>)> {
    if c.len() < 10 || !(trimmed(c[8]) == "2"@ || trimmed(c[8]) == "3"@) || trimmed(c[9]) != "USD"@ || trimmed(
        c[4],
    ).len() == 0 {
        None
    } else {
        Some(
            (
                InstrumentView {
                    id: (Venue::Us, trimmed(c[4])),
                    name: us_name(trimmed(c[6]), trimmed(c[7])),
                    tick: TickRule::Us,
                    lot: LotRule {
                        step: crate::decimal::one(),
                        min_qty: crate::decimal::one(),
                        min_notional: crate::decimal::zero(),
                    },
                    tradable: true,
                },
                trimmed(c[2]),
            ),
        )
    }
}

/// The instruments and exchanges of lines from index `i` on.
pub open spec fn us_rows(lines: Seq<Seq<char>>, i: int) -> Seq<(InstrumentView, Seq<char>)>
    decreases lines.len() - i,
{
    if i >= lines.len() {
        Seq::empty()
    } else {
        match us_row(pieces(lines[i], '\t')) {
            Some(x) => seq![x] + us_rows(lines, i + 1),
            None => us_rows(lines, i + 1),
        }
    }
}

/// Instruments with exchanges as what is known of them.
pub open spec fn listing_views(v: Seq<(Instrument, String)>) -> Seq<(InstrumentView, Seq<char>)> {
    v.map_values(|p: (Instrument, String)| (p.0@, p.1@))
}

fn read_us_row(c: &Vec<String>) -> (r: Option<(Instrument, String)>)
    ensures
        match us_row(texts(c@)) {
            Some(x) => r matches Some(y) && (y.0@, y.1@) == x,
            None => r is None,
        },
{
    let ghost t = texts(c@);
    if c.len() < 10 {
        return None;
    }
    assert(t[8] == c@[8]@ && t[9] == c@[9]@ && t[4] == c@[4]@ && t[6] == c@[6]@ && t[7] == c@[7]@ && t[2] == c@[2]@);
    let kind = trim(c[8].as_str());
    let currency = trim(c[9].as_str());
    let symbol = trim(c[4].as_str());
    if !(same_text(kind.as_str(), "2") || same_text(kind.as_str(), "3")) || !same_text(currency.as_str(), "USD")
        || chars_of(symbol.as_str()).len() == 0 {
        return None;
    }
    let ko = trim(c[6].as_str());
    let en = trim(c[7].as_str());
    let name = if chars_of(ko.as_str()).len() > 0 && !same_text(ko.as_str(), en.as_str()) {
        let mut n = ko;
        n.append(" (");
        n.append(en.as_str());
        n.append(")");
        n
    } else {
        en
    };
    let inst = Instrument {
        id: InstrumentId { venue: Venue::Us, symbol },
        name,
        tick: TickRule::Us,
        lot: whole_shares(),
        tradable: true,
    };
    Some((inst, trim(c[2].as_str())))
}

/// US master rows (NAS/NYS/AMS): keeps USD stocks (type 2) and ETPs (type 3), with the
/// exchange code KIS wants in requests.
pub fn parse_us_master(bytes: &[u8]) -> (r: Vec<(Instrument, String)>)
    ensures
        listing_views(r@) == us_rows(pieces(euc_kr_text(bytes@), '\n'), 0),
{
    let text = decode_euc_kr(bytes);
    let lines = split_at(&chars_of(text.as_str()), '\n');
    let ghost views = texts(lines@);
    let mut out: Vec<(Instrument, String)> = Vec::new();
    let mut i: usize = 0;
    let ghost whole = us_rows(views, 0);
    assert(listing_views(out@) + whole =~= whole);
    while i < lines.len()
        invariant
            i <= lines@.len(),
            views == texts(lines@),
            listing_views(out@) + us_rows(views, i as int) == whole,
        decreases lines@.len() - i,
    {
        assert(views[i as int] == lines@[i as int]@);
        let columns = split_at(&chars_of(lines[i].as_str()), '\t');
        let ghost before = listing_views(out@);
        if let Some(x) = read_us_row(&columns) {
            let ghost xv = (x.0@, x.1@);
            out.push(x);
            proof {
                let more = us_rows(views, i + 1);
                assert(listing_views(out@) =~= before.push(xv));
                assert(before + (seq![xv] + more) =~= before.push(xv) + more);
            }
        }
        i += 1;
    }
    assert(listing_views(out@) + us_rows(views, i as int) =~= listing_views(out@));
    out
}

/// The exchanges by symbol of the first `n` listings; the last one counts.
pub open spec fn exchanges_of(v: Seq<(InstrumentView, Seq<char>)>, n: int) -> Map<Seq<char>, Seq<char>>
    decreases n,
{
    if n <= 0 {
        Map::empty()
    } else {
        exchanges_of(v, n - 1).insert(v[n - 1].0.id.1, v[n - 1].1)
    }
}

/// The instruments of the first `n` listings; of those with one symbol the first one.
pub open spec fn first_listed(v: Seq<(InstrumentView, Seq<char>)>, n: int) -> Seq<InstrumentView>
    decreases n,
{
    if n <= 0 {
        Seq::empty()
    } else if exchanges_of(v, n - 1).contains_key(v[n - 1].0.id.1) {
        first_listed(v, n - 1)
    } else {
        first_listed(v, n - 1).push(v[n - 1].0)
    }
}

/// The instruments of the US masters, each symbol once, and the exchange of each symbol.
pub fn merge_listings(v: Vec<(Instrument, String)>) -> (r: (Vec<Instrument>, Table<String, String>))
    ensures
        instrument_views(r.0@) == first_listed(listing_views(v@), v@.len() as int),
        r.1.wf(),
        r.1@ == exchanges_of(listing_views(v@), v@.len() as int),
{
    let ghost views = listing_views(v@);
    let mut out: Vec<Instrument> = Vec::new();
    let mut map: Table<String, String> = Table::new();
    assert(instrument_views(out@) =~= Seq::empty());
    let mut i: usize = 0;
    while i < v.len()
        invariant
            i <= v@.len(),
            views == listing_views(v@),
            map.wf(),
            map@ == exchanges_of(views, i as int),
            instrument_views(out@) == first_listed(views, i as int),
        decreases v@.len() - i,
    {
        assert(views[i as int] == (v@[i as int].0@, v@[i as int].1@));
        let symbol = v[i].0.id.symbol.clone();
        if !map.contains(&symbol) {
            let ghost before = instrument_views(out@);
            let x = v[i].0.clone();
            let ghost xv = x@;
            out.push(x);
            assert(instrument_views(out@) =~= before.push(xv));
        }
        map.insert(symbol, v[i].1.clone());
        i += 1;
    }
    (out, map)
}

} // verus!

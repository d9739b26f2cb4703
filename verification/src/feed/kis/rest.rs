//! KIS REST response parsing.
use crate::candles::Candle;
use crate::dates::{calendar_day, date_read, read_date};
use crate::decimal::{padded_digits, zero, Decimal};
use crate::domain::{Book, BookView, InstrumentId, Level, Venue};
use crate::json::{lemma_list_view, list_in, list_view, member, text_in, Json, JsonView};
use crate::screen::{row_views, text_view, ScreenRow, ScreenRowView};
use crate::stats::History;
use crate::text::{trim, trimmed, uint_text};
use crate::time::{instant, instant_at, zone_instant, Timestamp, Zone, NANOS_PER_SEC, SECS_PER_DAY};
use vstd::prelude::*;

verus! {

/// The number in a text, white space around it aside.
pub open spec fn dec_in(v: JsonView) -> Option<Decimal> {
    match text_in(v) {
        Some(s) => Decimal::parsed(trimmed(s)),
        None => None,
    }
}

fn dec_member(v: Option<&Json>, name: &str) -> (r: Option<Decimal>)
    ensures
        r == dec_in(match v {
            Some(j) => member(j.view(), name@),
            None => JsonView::Null,
        }),
{
    match v {
        Some(j) => match j.text_member(name) {
            Some(s) => Decimal::parse(trim(s.as_str()).as_str()),
            None => None,
        },
        None => None,
    }
}

/// A price level, if there is something at a price.
pub open spec fn level_of(price: Option<Decimal>, qty: Option<Decimal>) -> Option<Level> {
    match (price, qty) {
        (Some(price), Some(qty)) => if price.value() > 0 && qty.value() > 0 {
            Some(Level { price, qty })
        } else {
            None
        },
        _ => None,
    }
}

pub fn make_level(price: Option<Decimal>, qty: Option<Decimal>) -> (r: Option<Level>)
    ensures
        r == level_of(price, qty),
{
    match (price, qty) {
        (Some(price), Some(qty)) => if price.is_positive() && qty.is_positive() {
            Some(Level { price, qty })
        } else {
            None
        },
        _ => None,
    }
}

/// A value, or nothing where it is absent.
pub open spec fn or_null(v: Option<&Json>) -> JsonView {
    match v {
        Some(j) => j.view(),
        None => JsonView::Null,
    }
}

/// The name of a numbered field.
pub open spec fn numbered(name: Seq<char>, i: int) -> Seq<char> {
    name + padded_digits(i as nat, 1)
}

/// The levels of one side of a book, numbered from `i` to ten.
pub open spec fn numbered_levels(o: JsonView, p: Seq<char>, q: Seq<char>, i: int) -> Seq<Level>
    decreases 11 - i,
{
    if i > 10 {
        Seq::empty()
    } else {
        match level_of(dec_in(member(o, numbered(p, i))), dec_in(member(o, numbered(q, i)))) {
            Some(l) => seq![l] + numbered_levels(o, p, q, i + 1),
            None => numbered_levels(o, p, q, i + 1),
        }
    }
}

fn numbered_name(name: &str, i: u64) -> (r: String)
    ensures
        r@ == numbered(name@, i as int),
{
    let mut s = name.to_owned();
    s.append(uint_text(i).as_str());
    s
}

fn side(o: Option<&Json>, p: &str, q: &str) -> (r: Vec<Level>)
    ensures
        r@ == numbered_levels(or_null(o), p@, q@, 1),
{
    let mut out: Vec<Level> = Vec::new();
    let mut i: u64 = 1;
    let ghost whole = numbered_levels(or_null(o), p@, q@, 1);
    assert(out@ + whole =~= whole);
    while i <= 10
        invariant
            1 <= i <= 11,
            out@ + numbered_levels(or_null(o), p@, q@, i as int) == whole,
        decreases 11 - i,
    {
        let price = dec_member(o, numbered_name(p, i).as_str());
        let qty = dec_member(o, numbered_name(q, i).as_str());
        let ghost before = out@;
        if let Some(l) = make_level(price, qty) {
            out.push(l);
            proof {
                let more = numbered_levels(or_null(o), p@, q@, i + 1);
                assert(before + (seq![l] + more) =~= before.push(l) + more);
            }
        }
        i += 1;
    }
    assert(out@ + numbered_levels(or_null(o), p@, q@, i as int) =~= out@);
    out
}

/// `FHKST01010200` (inquire-asking-price-exp-ccn): 10 levels in `output1`.
pub fn krx_book(symbol: &str, body: &Json, now: Timestamp) -> (b: Book)
    ensures
        b@ == (BookView {
            instrument: (Venue::Krx, symbol@),
            asks: numbered_levels(member(body.view(), "output1"@), "askp"@, "askp_rsqn"@, 1),
            bids: numbered_levels(member(body.view(), "output1"@), "bidp"@, "bidp_rsqn"@, 1),
            prev_close: None,
            received_at: now,
        }),
{
    let o = body.get("output1");
    Book {
        instrument: InstrumentId { venue: Venue::Krx, symbol: symbol.to_owned() },
        asks: side(o, "askp", "askp_rsqn"),
        bids: side(o, "bidp", "bidp_rsqn"),
        prev_close: None,
        received_at: now,
    }
}

/// `FHKST01010100` (inquire-price): `stck_sdpr`, the reference (previous close) price.
pub fn krx_prev_close(body: &Json) -> (r: Result<Decimal, String>)
    ensures
        match dec_in(member(member(body.view(), "output"@), "stck_sdpr"@)) {
            Some(d) => r == Ok::<Decimal, String>(d),
            None => r matches Err(m) && m@ == "no stck_sdpr in inquire-price"@,
        },
{
    match dec_member(body.get("output"), "stck_sdpr") {
        Some(d) => Ok(d),
        None => Err("no stck_sdpr in inquire-price".to_owned()),
    }
}

/// The numbers in one field of the rows from index `i` on, last row first; rows without one are
/// skipped.
pub open spec fn column_reversed(rows: Seq<JsonView>, name: Seq<char>, i: int) -> Seq<Decimal>
    decreases rows.len() - i,
{
    if i >= rows.len() {
        Seq::empty()
    } else {
        match dec_in(member(rows[i], name)) {
            Some(d) => column_reversed(rows, name, i + 1).push(d),
            None => column_reversed(rows, name, i + 1),
        }
    }
}

fn read_column(rows: &Vec<Json>, name: &str) -> (r: Vec<Decimal>)
    ensures
        r@ == column_reversed(list_view(rows@), name@, 0),
{
    proof {
        lemma_list_view(rows@);
    }
    let ghost views = list_view(rows@);
    let mut out: Vec<Decimal> = Vec::new();
    let mut i: usize = rows.len();
    while i > 0
        invariant
            i <= rows@.len(),
            views == list_view(rows@),
            views.len() == rows@.len(),
            forall|j: int| 0 <= j < rows@.len() ==> #[trigger] views[j] == rows@[j].view(),
            out@ == column_reversed(views, name@, i as int),
        decreases i,
    {
        i -= 1;
        assert(views[i as int] == rows@[i as int].view());
        if let Some(d) = dec_member(Some(&rows[i]), name) {
            out.push(d);
        }
    }
    out
}

fn history_from(rows: Option<&Json>, close: &str, value: &str) -> (r: Result<History, String>)
    ensures
        match list_in(or_null(rows)) {
            Some(s) => r matches Ok(h) && h.closes@ == column_reversed(s, close@, 0) && h.values@ == column_reversed(
                s,
                value@,
                0,
            ),
            None => r matches Err(m) && m@ == "no daily rows"@,
        },
{
    let list = match rows {
        Some(j) => j.as_list(),
        None => None,
    };
    match list {
        // KIS returns newest first.
        Some(l) => Ok(History { closes: read_column(l, close), values: read_column(l, value) }),
        None => Err("no daily rows".to_owned()),
    }
}

/// `FHKST03010100` daily chart: closes and traded values, oldest first.
pub fn krx_daily_history(body: &Json) -> (r: Result<History, String>)
    ensures
        match list_in(member(body.view(), "output2"@)) {
            Some(s) => r matches Ok(h) && h.closes@ == column_reversed(s, "stck_clpr"@, 0) && h.values@
                == column_reversed(s, "acml_tr_pbmn"@, 0),
            None => r matches Err(m) && m@ == "no daily rows"@,
        },
{
    history_from(body.get("output2"), "stck_clpr", "acml_tr_pbmn")
}

/// A level as a side of a book.
pub open spec fn one_level(l: Option<Level>) -> Seq<Level> {
    match l {
        Some(l) => seq![l],
        None => Seq::empty(),
    }
}

fn one(l: Option<Level>) -> (r: Vec<Level>)
    ensures
        r@ == one_level(l),
{
    let mut v: Vec<Level> = Vec::new();
    if let Some(l) = l {
        v.push(l);
    }
    assert(v@ =~= one_level(l));
    v
}

/// `HHDFS76200100` (US inquire-asking-price): one level in `output2`.
pub fn us_book(symbol: &str, body: &Json, now: Timestamp) -> (b: Book)
    ensures
        ({
            let o = member(body.view(), "output2"@);
            b@ == (BookView {
                instrument: (Venue::Us, symbol@),
                bids: one_level(level_of(dec_in(member(o, "pbid1"@)), dec_in(member(o, "vbid1"@)))),
                asks: one_level(level_of(dec_in(member(o, "pask1"@)), dec_in(member(o, "vask1"@)))),
                prev_close: dec_in(member(member(body.view(), "output1"@), "base"@)),
                received_at: now,
            })
        }),
{
    let o = body.get("output2");
    Book {
        instrument: InstrumentId { venue: Venue::Us, symbol: symbol.to_owned() },
        bids: one(make_level(dec_member(o, "pbid1"), dec_member(o, "vbid1"))),
        asks: one(make_level(dec_member(o, "pask1"), dec_member(o, "vask1"))),
        prev_close: dec_member(body.get("output1"), "base"),
        received_at: now,
    }
}

/// `HHDFS76240000` (US dailyprice): closes and traded values, oldest first.
pub fn us_daily_history(body: &Json) -> (r: Result<History, String>)
    ensures
        match list_in(member(body.view(), "output2"@)) {
            Some(s) => r matches Ok(h) && h.closes@ == column_reversed(s, "clos"@, 0) && h.values@
                == column_reversed(s, "tamt"@, 0),
            None => r matches Err(m) && m@ == "no daily rows"@,
        },
{
    history_from(body.get("output2"), "clos", "tamt")
}

/// The instant at which a day begins in a zone.
pub open spec fn day_begins(zone: Zone, ymd: Seq<char>) -> Option<Timestamp> {
    match date_read(ymd, "%Y%m%d"@) {
        Some(d) => match zone_instant(zone, d * SECS_PER_DAY) {
            Some(t) => Some(instant(t * NANOS_PER_SEC)),
            None => None,
        },
        None => None,
    }
}

fn day_start(zone: Zone, ymd: &str) -> (r: Option<Timestamp>)
    ensures
        r == day_begins(zone, ymd@),
{
    match read_date(ymd, "%Y%m%d") {
        Some(d) => {
            assert(calendar_day(d as int));
            match instant_at(zone, d * SECS_PER_DAY) {
                Some(t) => Timestamp::from_secs(t),
                None => None,
            }
        },
        None => None,
    }
}

/// The names of the fields of a candle: date, open, high, low, close, volume, value.
pub ghost struct CandleNames {
    pub date: Seq<char>,
    pub open: Seq<char>,
    pub high: Seq<char>,
    pub low: Seq<char>,
    pub close: Seq<char>,
    pub volume: Seq<char>,
    pub value: Seq<char>,
}

/// The candle in a row.
pub open spec fn candle_of(r: JsonView, zone: Zone, n: CandleNames) -> Option<Candle> {
    match text_in(member(r, n.date)) {
        Some(ymd) => match (
            day_begins(zone, ymd),
            dec_in(member(r, n.open)),
            dec_in(member(r, n.high)),
            dec_in(member(r, n.low)),
            dec_in(member(r, n.close)),
            dec_in(member(r, n.volume)),
            dec_in(member(r, n.value)),
        ) {
            (Some(start), Some(open), Some(high), Some(low), Some(close), Some(volume), Some(value)) => Some(
                Candle { start, open, high, low, close, volume, value },
            ),
            _ => None,
        },
        None => None,
    }
}

/// The candles in the rows from index `i` on, last row first; rows without one are skipped.
pub open spec fn candles_reversed(rows: Seq<JsonView>, zone: Zone, n: CandleNames, i: int) -> Seq<Candle>
    decreases rows.len() - i,
{
    if i >= rows.len() {
        Seq::empty()
    } else {
        match candle_of(rows[i], zone, n) {
            Some(c) => candles_reversed(rows, zone, n, i + 1).push(c),
            None => candles_reversed(rows, zone, n, i + 1),
        }
    }
}

struct Names<'a> {
    date: &'a str,
    open: &'a str,
    high: &'a str,
    low: &'a str,
    close: &'a str,
    volume: &'a str,
    value: &'a str,
}

impl<'a> Names<'a> {
    spec fn names(&self) -> CandleNames {
        CandleNames {
            date: self.date@,
            open: self.open@,
            high: self.high@,
            low: self.low@,
            close: self.close@,
            volume: self.volume@,
            value: self.value@,
        }
    }
}

fn read_candle(r: &Json, zone: Zone, n: &Names) -> (c: Option<Candle>)
    ensures
        c == candle_of(r.view(), zone, n.names()),
{
    let start = match r.text_member(n.date) {
        Some(ymd) => day_start(zone, ymd.as_str()),
        None => return None,
    };
    let row = Some(r);
    match (
        start,
        dec_member(row, n.open),
        dec_member(row, n.high),
        dec_member(row, n.low),
        dec_member(row, n.close),
        dec_member(row, n.volume),
        dec_member(row, n.value),
    ) {
        (Some(start), Some(open), Some(high), Some(low), Some(close), Some(volume), Some(value)) => Some(
            Candle { start, open, high, low, close, volume, value },
        ),
        _ => None,
    }
}

fn candles_from(rows: Option<&Json>, zone: Zone, n: &Names) -> (r: Result<Vec<Candle>, String>)
    ensures
        match list_in(or_null(rows)) {
            Some(s) => r matches Ok(v) && v@ == candles_reversed(s, zone, n.names(), 0),
            None => r matches Err(m) && m@ == "no chart rows"@,
        },
{
    let list = match rows {
        Some(j) => match j.as_list() {
            Some(l) => l,
            None => return Err("no chart rows".to_owned()),
        },
        None => return Err("no chart rows".to_owned()),
    };
    proof {
        lemma_list_view(list@);
    }
    let ghost views = list_view(list@);
    let mut out: Vec<Candle> = Vec::new();
    let mut i: usize = list.len();
    while i > 0
        invariant
            i <= list@.len(),
            views == list_view(list@),
            views.len() == list@.len(),
            forall|j: int| 0 <= j < list@.len() ==> #[trigger] views[j] == list@[j].view(),
            out@ == candles_reversed(views, zone, n.names(), i as int),
        decreases i,
    {
        i -= 1;
        assert(views[i as int] == list@[i as int].view());
        if let Some(c) = read_candle(&list[i], zone, n) {
            out.push(c);
        }
    }
    Ok(out)
}

/// The names of the fields of a KRX candle.
pub open spec fn krx_names() -> CandleNames {
    CandleNames {
        date: "stck_bsop_date"@,
        open: "stck_oprc"@,
        high: "stck_hgpr"@,
        low: "stck_lwpr"@,
        close: "stck_clpr"@,
        volume: "acml_vol"@,
        value: "acml_tr_pbmn"@,
    }
}

/// The names of the fields of a US candle.
pub open spec fn us_names() -> CandleNames {
    CandleNames {
        date: "xymd"@,
        open: "open"@,
        high: "high"@,
        low: "low"@,
        close: "clos"@,
        volume: "tvol"@,
        value: "tamt"@,
    }
}

/// `FHKST03010100` rows (newest first) as candles starting 00:00 KST.
pub fn krx_candles(body: &Json) -> (r: Result<Vec<Candle>, String>)
    ensures
        match list_in(member(body.view(), "output2"@)) {
            Some(s) => r matches Ok(v) && v@ == candles_reversed(s, Zone::Seoul, krx_names(), 0),
            None => r matches Err(m) && m@ == "no chart rows"@,
        },
{
    let n = Names {
        date: "stck_bsop_date",
        open: "stck_oprc",
        high: "stck_hgpr",
        low: "stck_lwpr",
        close: "stck_clpr",
        volume: "acml_vol",
        value: "acml_tr_pbmn",
    };
    candles_from(body.get("output2"), Zone::Seoul, &n)
}

/// `HHDFS76240000` rows (newest first) as candles starting 00:00 New York time.
pub fn us_candles(body: &Json) -> (r: Result<Vec<Candle>, String>)
    ensures
        match list_in(member(body.view(), "output2"@)) {
            Some(s) => r matches Ok(v) && v@ == candles_reversed(s, Zone::NewYork, us_names(), 0),
            None => r matches Err(m) && m@ == "no chart rows"@,
        },
{
    let n = Names {
        date: "xymd",
        open: "open",
        high: "high",
        low: "low",
        close: "clos",
        volume: "tvol",
        value: "tamt",
    };
    candles_from(body.get("output2"), Zone::NewYork, &n)
}

/// A number, or zero where there is none.
pub open spec fn or_zero(d: Option<Decimal>) -> Decimal {
    match d {
        Some(d) => d,
        None => zero(),
    }
}

fn zero_if_none(d: Option<Decimal>) -> (r: Decimal)
    ensures
        r == or_zero(d),
{
    match d {
        Some(d) => d,
        None => Decimal::zero(),
    }
}

/// A text without white space at its ends, if there is one.
pub open spec fn trimmed_in(v: JsonView) -> Option<Seq<char>> {
    match text_in(v) {
        Some(s) => Some(trimmed(s)),
        None => None,
    }
}

fn trimmed_member(v: &Json, name: &str) -> (r: Option<String>)
    ensures
        text_view(r) == trimmed_in(member(v.view(), name@)),
{
    match v.text_member(name) {
        Some(s) => Some(trim(s.as_str())),
        None => None,
    }
}

/// The row of a KRX ranking.
pub open spec fn krx_rank_row(r: JsonView) -> Option<ScreenRowView> {
    let code = match trimmed_in(member(r, "stck_shrn_iscd"@)) {
        Some(c) => Some(c),
        None => trimmed_in(member(r, "mksc_shrn_iscd"@)),
    };
    match (code, dec_in(member(r, "stck_prpr"@))) {
        (Some(code), Some(price)) => Some(
            ScreenRowView {
                id: (Venue::Krx, code),
                name: trimmed_in(member(r, "hts_kor_isnm"@)),
                price,
                change_pct: or_zero(dec_in(member(r, "prdy_ctrt"@))),
                volume: or_zero(dec_in(member(r, "acml_vol"@))),
                value: or_zero(dec_in(member(r, "acml_tr_pbmn"@))),
            },
        ),
        _ => None,
    }
}

/// The row of a US ranking.
pub open spec fn us_rank_row(r: JsonView) -> Option<ScreenRowView> {
    match (trimmed_in(member(r, "symb"@)), dec_in(member(r, "last"@))) {
        (Some(code), Some(price)) => Some(
            ScreenRowView {
                id: (Venue::Us, code),
                name: trimmed_in(member(r, "name"@)),
                price,
                change_pct: or_zero(dec_in(member(r, "rate"@))),
                volume: or_zero(dec_in(member(r, "tvol"@))),
                value: or_zero(dec_in(member(r, "tamt"@))),
            },
        ),
        _ => None,
    }
}

/// The row of a ranking of a venue.
pub open spec fn rank_row(r: JsonView, krx: bool) -> Option<ScreenRowView> {
    if krx {
        krx_rank_row(r)
    } else {
        us_rank_row(r)
    }
}

/// The rows of a ranking from index `i` on; what is no row is skipped.
pub open spec fn rank_rows(rows: Seq<JsonView>, krx: bool, i: int) -> Seq<ScreenRowView>
    decreases rows.len() - i,
{
    if i >= rows.len() {
        Seq::empty()
    } else {
        match rank_row(rows[i], krx) {
            Some(r) => seq![r] + rank_rows(rows, krx, i + 1),
            None => rank_rows(rows, krx, i + 1),
        }
    }
}

/// The rows of a list, none where it is no list.
pub open spec fn listed(v: JsonView) -> Seq<JsonView> {
    match list_in(v) {
        Some(s) => s,
        None => Seq::empty(),
    }
}

fn read_rank_row(r: &Json, krx: bool) -> (out: Option<ScreenRow>)
    ensures
        match rank_row(r.view(), krx) {
            Some(x) => out matches Some(y) && y@ == x,
            None => out is None,
        },
{
    let row = Some(r);
    if krx {
        let code = match trimmed_member(r, "stck_shrn_iscd") {
            Some(c) => Some(c),
            None => trimmed_member(r, "mksc_shrn_iscd"),
        };
        match (code, dec_member(row, "stck_prpr")) {
            (Some(symbol), Some(price)) => Some(
                ScreenRow {
                    id: InstrumentId { venue: Venue::Krx, symbol },
                    name: trimmed_member(r, "hts_kor_isnm"),
                    price,
                    change_pct: zero_if_none(dec_member(row, "prdy_ctrt")),
                    volume: zero_if_none(dec_member(row, "acml_vol")),
                    value: zero_if_none(dec_member(row, "acml_tr_pbmn")),
                },
            ),
            _ => None,
        }
    } else {
        match (trimmed_member(r, "symb"), dec_member(row, "last")) {
            (Some(symbol), Some(price)) => Some(
                ScreenRow {
                    id: InstrumentId { venue: Venue::Us, symbol },
                    name: trimmed_member(r, "name"),
                    price,
                    change_pct: zero_if_none(dec_member(row, "rate")),
                    volume: zero_if_none(dec_member(row, "tvol")),
                    value: zero_if_none(dec_member(row, "tamt")),
                },
            ),
            _ => None,
        }
    }
}

fn read_rank_rows(v: Option<&Json>, krx: bool) -> (r: Vec<ScreenRow>)
    ensures
        row_views(r@) == rank_rows(listed(or_null(v)), krx, 0),
{
    let mut out: Vec<ScreenRow> = Vec::new();
    assert(row_views(out@) =~= Seq::empty());
    let list = match v {
        Some(j) => match j.as_list() {
            Some(l) => l,
            None => return out,
        },
        None => return out,
    };
    proof {
        lemma_list_view(list@);
    }
    let ghost views = list_view(list@);
    let mut i: usize = 0;
    let ghost whole = rank_rows(views, krx, 0);
    assert(row_views(out@) + whole =~= whole);
    while i < list.len()
        invariant
            i <= list@.len(),
            views == list_view(list@),
            views.len() == list@.len(),
            forall|j: int| 0 <= j < list@.len() ==> #[trigger] views[j] == list@[j].view(),
            row_views(out@) + rank_rows(views, krx, i as int) == whole,
        decreases list@.len() - i,
    {
        assert(views[i as int] == list@[i as int].view());
        let ghost before = row_views(out@);
        if let Some(row) = read_rank_row(&list[i], krx) {
            let ghost rv = row@;
            out.push(row);
            proof {
                let more = rank_rows(views, krx, i + 1);
                assert(row_views(out@) =~= before.push(rv));
                assert(before + (seq![rv] + more) =~= before.push(rv) + more);
            }
        }
        i += 1;
    }
    assert(row_views(out@) + rank_rows(views, krx, i as int) =~= row_views(out@));
    out
}

/// Rows of `FHPST01700000` (fluctuation) or `FHPST01710000` (volume rank).
pub fn krx_rank_rows(body: &Json) -> (r: Vec<ScreenRow>)
    ensures
        row_views(r@) == rank_rows(listed(member(body.view(), "output"@)), true, 0),
{
    read_rank_rows(body.get("output"), true)
}

/// Rows of the US ranking APIs (`output2`).
pub fn us_rank_rows(body: &Json) -> (r: Vec<ScreenRow>)
    ensures
        row_views(r@) == rank_rows(listed(member(body.view(), "output2"@)), false, 0),
{
    read_rank_rows(body.get("output2"), false)
}

} // verus!

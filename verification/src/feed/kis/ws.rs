//! KIS real-time WebSocket frames: `flag|tr_id|count|f^f^…` data and JSON control messages.
use crate::decimal::{padded_digits, Decimal};
use crate::domain::{Book, BookView, InstrumentId, Level, Trade, TradeView, Venue};
use crate::feed::kis::rest::{level_of, make_level};
use crate::feed::{event_view, EventView, MarketEvent};
use crate::json::{json_quote, json_quoted, json_read, member, parse_json, text_in, Json, JsonView};
use crate::text::{
    chars_of, contains_text, cut, cut_at, has_text, parse_uint, pieces, same_text, split_at, stands_at, text_at, texts,
    trim, trimmed, uint_of, uint_text,
};
use crate::time::Timestamp;
use vstd::prelude::*;
use vstd::utf8::encode_utf8;

verus! {

pub const KRX_BOOK: &'static str = "H0STASP0";

pub const KRX_TRADE: &'static str = "H0STCNT0";

pub const US_BOOK: &'static str = "HDFSASP0";

pub const US_TRADE: &'static str = "HDFSCNT0";

#[derive(Debug)]
pub enum Frame {
    Data { tr_id: String, records: Vec<Vec<String>> },
    /// Must be echoed back.
    Ping(String),
    Ack { tr_id: String, ok: bool, msg: String },
    /// Encrypted execution notices: not market data.
    Ignored,
}

/// What a frame says.
pub ghost enum FrameView {
    Data(Seq<char>, Seq<Seq<Seq<char>>>),
    Ping(Seq<char>),
    Ack(Seq<char>, bool, Seq<char>),
    Ignored,
}

/// Records as what they say.
pub open spec fn record_views(v: Seq<Vec<String>>) -> Seq<Seq<Seq<char>>> {
    v.map_values(|r: Vec<String>| texts(r@))
}

impl View for Frame {
    type V = FrameView;

    open spec fn view(&self) -> FrameView {
        match self {
            Frame::Data { tr_id, records } => FrameView::Data(tr_id@, record_views(records@)),
            Frame::Ping(s) => FrameView::Ping(s@),
            Frame::Ack { tr_id, ok, msg } => FrameView::Ack(tr_id@, *ok, msg@),
            Frame::Ignored => FrameView::Ignored,
        }
    }
}

/// The records of fields: `count` of them, each with `per` fields.
pub open spec fn chunks(fields: Seq<Seq<char>>, per: int, count: nat) -> Seq<Seq<Seq<char>>> {
    Seq::new(count, |k: int| fields.subrange(k * per, k * per + per))
}

/// A text, or an empty one.
pub open spec fn or_empty(t: Option<Seq<char>>) -> Seq<char> {
    match t {
        Some(s) => s,
        None => Seq::empty(),
    }
}

/// What `str::parse` prints of a text that is no count.
pub uninterp spec fn count_fault(s: Seq<char>) -> Seq<char>;

/// Calls `str::parse` for a `u64`, and prints its error. Claimed: what is printed depends on the text
/// alone.
#[verifier::external_body]
fn say_fault(s: &str) -> (r: String)
    ensures
        r@ == count_fault(s@),
{
    match s.parse::<u64>() {
        Ok(_) => String::new(),
        Err(e) => e.to_string(),
    }
}

/// The data of a frame, behind flag, id and count.
pub open spec fn data_frame(tr_id: Seq<char>, count: Seq<char>, data: Seq<char>) -> Result<FrameView, Seq<char>> {
    let fields = pieces(data, '^');
    match uint_of(count) {
        Some(n) => if n > u64::MAX {
            Err(count_fault(count))
        } else if n == 0 || fields.len() as int % n as int != 0 {
            Err(
                padded_digits(n, 1) + " records do not divide "@ + padded_digits(fields.len(), 1) + " fields"@,
            )
        } else {
            Ok(FrameView::Data(tr_id, chunks(fields, fields.len() as int / n as int, n)))
        },
        None => Err(count_fault(count)),
    }
}

/// The control message in a frame.
pub open spec fn control_frame(text: Seq<char>, v: JsonView) -> FrameView {
    let tr_id = or_empty(text_in(member(member(v, "header"@), "tr_id"@)));
    if tr_id == "PINGPONG"@ {
        FrameView::Ping(text)
    } else {
        let msg = or_empty(text_in(member(member(v, "body"@), "msg1"@)));
        FrameView::Ack(
            tr_id,
            text_in(member(member(v, "body"@), "rt_cd"@)) == Some("0"@) || has_text(msg, "ALREADY IN SUBSCRIBE"@),
            msg,
        )
    }
}

/// Whether a frame carries data.
pub open spec fn carries_data(text: Seq<char>) -> bool {
    text.len() > 0 && (text[0] == '0' || text[0] == '1')
}

/// What a frame with data says.
pub open spec fn data_of(text: Seq<char>) -> Result<FrameView, Seq<char>> {
    match cut(text, '|') {
        None => Err("short data frame"@),
        Some((flag, a)) => match cut(a, '|') {
            None => Err("short data frame"@),
            Some((tr_id, b)) => match cut(b, '|') {
                None => Err("short data frame"@),
                Some((count, data)) => if flag == "1"@ {
                    Ok(FrameView::Ignored)
                } else {
                    data_frame(tr_id, count, data)
                },
            },
        },
    }
}

fn split_records(fields: &Vec<String>, per: usize, count: usize) -> (r: Vec<Vec<String>>)
    requires
        per * count == fields@.len(),
    ensures
        record_views(r@) == chunks(texts(fields@), per as int, count as nat),
{
    let mut out: Vec<Vec<String>> = Vec::new();
    let mut k: usize = 0;
    let mut at: usize = 0;
    while k < count
        invariant
            k <= count,
            at == k * per,
            per * count == fields@.len(),
            record_views(out@) == chunks(texts(fields@), per as int, k as nat),
        decreases count - k,
    {
        let ghost from = at as int;
        proof {
            assert(k * per + per == (k + 1) * per) by (nonlinear_arith);
            assert((k + 1) * per <= count * per) by (nonlinear_arith)
                requires
                    k + 1 <= count,
            ;
            assert(per * count == count * per) by (nonlinear_arith);
        }
        let n: usize = fields.len();
        let mut rec: Vec<String> = Vec::new();
        let mut j: usize = 0;
        while j < per
            invariant
                j <= per,
                0 <= from,
                at == from + j,
                from + per <= n,
                n == fields@.len(),
                texts(rec@) == texts(fields@).subrange(from, at as int),
            decreases per - j,
        {
            let s = fields[at].clone();
            let ghost sv = s@;
            let ghost before = texts(rec@);
            rec.push(s);
            assert(texts(rec@) =~= before.push(sv));
            at += 1;
            j += 1;
            assert(texts(fields@).subrange(from, at as int) =~= texts(fields@).subrange(from, at - 1).push(
                texts(fields@)[at - 1],
            ));
        }
        let ghost rv = texts(rec@);
        let ghost before = record_views(out@);
        out.push(rec);
        assert(record_views(out@) =~= before.push(rv));
        assert(chunks(texts(fields@), per as int, (k + 1) as nat) =~= chunks(texts(fields@), per as int, k as nat).push(
            rv,
        ));
        k += 1;
    }
    out
}

fn read_data(tr_id: String, count: &str, data: &str) -> (r: Result<Frame, String>)
    ensures
        match data_frame(tr_id@, count@, data@) {
            Ok(f) => r matches Ok(x) && x@ == f,
            Err(m) => r matches Err(e) && e@ == m,
        },
{
    let n = match parse_uint(&chars_of(count)) {
        Some(n) => n,
        None => return Err(say_fault(count)),
    };
    let fields = split_at(&chars_of(data), '^');
    let len: usize = fields.len();
    assert(texts(fields@).len() == len);
    if n == 0 || (len as u64) % n != 0 {
        let mut m = uint_text(n);
        m.append(" records do not divide ");
        m.append(uint_text(len as u64).as_str());
        m.append(" fields");
        return Err(m);
    }
    proof {
        vstd::arithmetic::div_mod::lemma_fundamental_div_mod(len as int, n as int);
        assert(n <= len) by (nonlinear_arith)
            requires
                len as int == n as int * (len as int / n as int) + 0,
                len > 0,
                n > 0,
        ;
    }
    let per = len / (n as usize);
    let records = split_records(&fields, per, n as usize);
    Ok(Frame::Data { tr_id, records })
}

fn text_at_path<'a>(v: &'a Json, a: &str, b: &str) -> (r: Option<&'a String>)
    ensures
        match text_in(member(member(v.view(), a@), b@)) {
            Some(s) => r is Some && (r->0)@ == s,
            None => r is None,
        },
{
    match v.get(a) {
        Some(j) => j.text_member(b),
        None => None,
    }
}

fn copy_or_empty(s: Option<&String>) -> (r: String)
    ensures
        r@ == or_empty(match s {
            Some(t) => Some(t@),
            None => None,
        }),
{
    match s {
        Some(t) => t.clone(),
        None => String::new(),
    }
}

/// The control message in a frame.
pub fn read_control(text: &str, v: &Json) -> (f: Frame)
    ensures
        f@ == control_frame(text@, v.view()),
{
    let tr_id = copy_or_empty(text_at_path(v, "header", "tr_id"));
    if same_text(tr_id.as_str(), "PINGPONG") {
        return Frame::Ping(text.to_owned());
    }
    let msg = copy_or_empty(text_at_path(v, "body", "msg1"));
    let zero = match text_at_path(v, "body", "rt_cd") {
        Some(s) => same_text(s.as_str(), "0"),
        None => false,
    };
    let ok = zero || contains_text(msg.as_str(), "ALREADY IN SUBSCRIBE");
    Frame::Ack { tr_id, ok, msg }
}

/// The frame that a text is: records of fields, or a control message.
pub open spec fn frame_of(text: Seq<char>) -> Result<FrameView, Seq<char>> {
    if carries_data(text) {
        data_of(text)
    } else {
        match json_read(encode_utf8(text)) {
            Ok(v) => Ok(control_frame(text, v)),
            Err(m) => Err(m),
        }
    }
}

/// Reads a frame: records of fields, or a control message.
pub fn parse_frame(text: &str) -> (r: Result<Frame, String>)
    ensures
        match frame_of(text@) {
            Ok(f) => r matches Ok(x) && x@ == f,
            Err(m) => r matches Err(e) && e@ == m,
        },
{
    let v = chars_of(text);
    if v.len() > 0 && (v[0] == '0' || v[0] == '1') {
        let (flag, a) = match cut_at(text, '|') {
            Some(p) => p,
            None => return Err("short data frame".to_owned()),
        };
        let (tr_id, b) = match cut_at(a.as_str(), '|') {
            Some(p) => p,
            None => return Err("short data frame".to_owned()),
        };
        let (count, data) = match cut_at(b.as_str(), '|') {
            Some(p) => p,
            None => return Err("short data frame".to_owned()),
        };
        if same_text(flag.as_str(), "1") {
            return Ok(Frame::Ignored);
        }
        return read_data(tr_id, count.as_str(), data.as_str());
    }
    match parse_json(text.as_bytes()) {
        Ok(v) => Ok(read_control(text, &v)),
        Err(e) => Err(e),
    }
}

/// The number in a field.
pub open spec fn num_in(s: Seq<char>) -> Option<Decimal> {
    Decimal::parsed(trimmed(s))
}

fn num(s: &str) -> (r: Option<Decimal>)
    ensures
        r == num_in(s@),
{
    Decimal::parse(trim(s).as_str())
}

/// The levels of `n` fields of prices from `p` on and of quantities from `q` on: those with
/// something at a price. Nothing where a field is no number.
pub open spec fn levels_at(rec: Seq<Seq<char>>, p: int, q: int, n: int) -> Option<Seq<Level>>
    decreases n,
{
    if n <= 0 {
        Some(Seq::empty())
    } else {
        match (levels_at(rec, p, q, n - 1), num_in(rec[p + n - 1]), num_in(rec[q + n - 1])) {
            (Some(v), Some(price), Some(qty)) => match level_of(Some(price), Some(qty)) {
                Some(l) => Some(v.push(l)),
                None => Some(v),
            },
            _ => None,
        }
    }
}

proof fn lemma_levels_error(rec: Seq<Seq<char>>, p: int, q: int, i: int, n: int)
    requires
        0 <= i <= n,
        levels_at(rec, p, q, i) is None,
    ensures
        levels_at(rec, p, q, n) is None,
    decreases n,
{
    if i < n {
        lemma_levels_error(rec, p, q, i, n - 1);
    }
}

fn levels(rec: &[String], p: usize, q: usize, n: usize) -> (r: Option<Vec<Level>>)
    requires
        p + n <= rec@.len(),
        q + n <= rec@.len(),
    ensures
        match levels_at(texts(rec@), p as int, q as int, n as int) {
            Some(s) => r matches Some(v) && v@ == s,
            None => r is None,
        },
{
    let ghost t = texts(rec@);
    let len: usize = rec.len();
    let mut out: Vec<Level> = Vec::new();
    let mut i: usize = 0;
    while i < n
        invariant
            i <= n,
            len == rec@.len(),
            p + n <= len,
            q + n <= len,
            t == texts(rec@),
            levels_at(t, p as int, q as int, i as int) == Some(out@),
        decreases n - i,
    {
        assert(t[p + i] == rec@[p + i]@ && t[q + i] == rec@[q + i]@);
        let price = num(rec[p + i].as_str());
        let qty = num(rec[q + i].as_str());
        if price.is_none() || qty.is_none() {
            proof {
                lemma_levels_error(t, p as int, q as int, i + 1, n as int);
            }
            return None;
        }
        if let Some(l) = make_level(price, qty) {
            out.push(l);
        }
        i += 1;
    }
    Some(out)
}

/// Whether a record starts with the key of the stream before the symbol.
pub open spec fn has_key(rec: Seq<Seq<char>>) -> bool {
    rec.len() >= 2 && rec[0].len() > rec[1].len() && stands_at(rec[0], rec[1], rec[0].len() - rec[1].len())
}

/// Where the symbol stands: US records may or may not start with RSYM (`DNASAAPL`) before SYMB
/// (`AAPL`).
pub open spec fn symbol_at(rec: Seq<Seq<char>>) -> int {
    if has_key(rec) {
        1
    } else {
        0
    }
}

fn symb_at(rec: &[String]) -> (r: usize)
    ensures
        r == symbol_at(texts(rec@)),
        r <= rec@.len(),
{
    if rec.len() < 2 {
        return 0;
    }
    assert(texts(rec@)[0] == rec@[0]@ && texts(rec@)[1] == rec@[1]@);
    let a = chars_of(rec[0].as_str());
    let b = chars_of(rec[1].as_str());
    if a.len() > b.len() && text_at(&a, &b, a.len() - b.len()) {
        1
    } else {
        0
    }
}

/// The book of the fields of a record: prices and quantities of `n` levels at four places.
pub open spec fn book_at(
    rec: Seq<Seq<char>>,
    venue: Venue,
    symbol: Seq<char>,
    asks: (int, int),
    bids: (int, int),
    n: int,
    now: Timestamp,
) -> Option<EventView> {
    match (levels_at(rec, asks.0, asks.1, n), levels_at(rec, bids.0, bids.1, n)) {
        (Some(asks), Some(bids)) => Some(
            EventView::Book(
                BookView { instrument: (venue, trimmed(symbol)), bids, asks, prev_close: None, received_at: now },
            ),
        ),
        _ => None,
    }
}

/// The trade of the fields of a record.
pub open spec fn trade_at(
    rec: Seq<Seq<char>>,
    venue: Venue,
    symbol: Seq<char>,
    price: int,
    qty: int,
    now: Timestamp,
) -> Option<EventView> {
    match (num_in(rec[price]), num_in(rec[qty])) {
        (Some(price), Some(qty)) => Some(
            EventView::Trade(TradeView { instrument: (venue, trimmed(symbol)), price, qty, at: now }),
        ),
        _ => None,
    }
}

/// The event that a record tells of. Field 2 of a KRX book and field 43 of a KRX trade are the hour
/// class: "0" is the regular session; others are auction or after-hours expected books, which never
/// trade at the prices they show.
pub open spec fn event_of(tr_id: Seq<char>, rec: Seq<Seq<char>>, now: Timestamp) -> Option<EventView> {
    let k = symbol_at(rec);
    if tr_id == KRX_BOOK@ && rec.len() >= 43 && trimmed(rec[2]) == "0"@ {
        book_at(rec, Venue::Krx, rec[0], (3, 23), (13, 33), 10, now)
    } else if tr_id == KRX_TRADE@ && rec.len() >= 13 && (rec.len() <= 43 || trimmed(rec[43]) == "0"@) {
        trade_at(rec, Venue::Krx, rec[0], 2, 12, now)
    } else if tr_id == US_BOOK@ && rec.len() >= k + 14 {
        book_at(rec, Venue::Us, rec[k], (k + 11, k + 13), (k + 10, k + 12), 1, now)
    } else if tr_id == US_TRADE@ && rec.len() >= k + 19 {
        trade_at(rec, Venue::Us, rec[k], k + 10, k + 18, now)
    } else {
        None
    }
}

fn make_id(venue: Venue, symbol: &str) -> (r: InstrumentId)
    ensures
        r@ == (venue, trimmed(symbol@)),
{
    InstrumentId { venue, symbol: trim(symbol) }
}

fn make_book(
    venue: Venue,
    symbol: &str,
    asks: Option<Vec<Level>>,
    bids: Option<Vec<Level>>,
    now: Timestamp,
) -> (r: Option<MarketEvent>)
    ensures
        event_view(r) == (match (asks, bids) {
            (Some(a), Some(b)) => Some(
                EventView::Book(
                    BookView {
                        instrument: (venue, trimmed(symbol@)),
                        bids: b@,
                        asks: a@,
                        prev_close: None,
                        received_at: now,
                    },
                ),
            ),
            _ => None,
        }),
{
    match (asks, bids) {
        (Some(asks), Some(bids)) => Some(
            MarketEvent::Book(
                Book { instrument: make_id(venue, symbol), bids, asks, prev_close: None, received_at: now },
            ),
        ),
        _ => None,
    }
}

fn make_trade(
    venue: Venue,
    symbol: &str,
    price: Option<Decimal>,
    qty: Option<Decimal>,
    now: Timestamp,
) -> (r: Option<MarketEvent>)
    ensures
        event_view(r) == (match (price, qty) {
            (Some(price), Some(qty)) => Some(
                EventView::Trade(TradeView { instrument: (venue, trimmed(symbol@)), price, qty, at: now }),
            ),
            _ => None,
        }),
{
    match (price, qty) {
        (Some(price), Some(qty)) => Some(
            MarketEvent::Trade(Trade { instrument: make_id(venue, symbol), price, qty, at: now }),
        ),
        _ => None,
    }
}

/// One data record as a market event; `None` for unknown tr_ids and malformed records.
pub fn record_event(tr_id: &str, rec: &[String], now: Timestamp) -> (r: Option<MarketEvent>)
    ensures
        event_view(r) == event_of(tr_id@, texts(rec@), now),
{
    let ghost t = texts(rec@);
    assert(t.len() == rec@.len());
    assert(forall|i: int| 0 <= i < rec@.len() ==> #[trigger] t[i] == rec@[i]@);
    let n: usize = rec.len();
    proof {
        reveal_strlit("H0STASP0");
        reveal_strlit("H0STCNT0");
        reveal_strlit("HDFSASP0");
        reveal_strlit("HDFSCNT0");
        assert(KRX_BOOK@[4] == 'A' && US_BOOK@[4] == 'A' && KRX_TRADE@[4] == 'C');
        assert(US_TRADE@[4] == 'C' && KRX_BOOK@[1] == '0' && US_BOOK@[1] == 'D');
        assert(KRX_TRADE@[1] == '0' && US_TRADE@[1] == 'D');
    }
    if same_text(tr_id, KRX_BOOK) {
        if n >= 43 && same_text(trim(rec[2].as_str()).as_str(), "0") {
            let asks = levels(rec, 3, 23, 10);
            let bids = levels(rec, 13, 33, 10);
            return make_book(Venue::Krx, rec[0].as_str(), asks, bids, now);
        }
        return None;
    }
    if same_text(tr_id, KRX_TRADE) {
        if n >= 13 && (n <= 43 || same_text(trim(rec[43].as_str()).as_str(), "0")) {
            return make_trade(Venue::Krx, rec[0].as_str(), num(rec[2].as_str()), num(rec[12].as_str()), now);
        }
        return None;
    }
    let k = symb_at(rec);
    if same_text(tr_id, US_BOOK) {
        if n - k >= 14 {
            let asks = levels(rec, k + 11, k + 13, 1);
            let bids = levels(rec, k + 10, k + 12, 1);
            return make_book(Venue::Us, rec[k].as_str(), asks, bids, now);
        }
        return None;
    }
    if same_text(tr_id, US_TRADE) {
        if n - k >= 19 {
            return make_trade(Venue::Us, rec[k].as_str(), num(rec[k + 10].as_str()), num(rec[k + 18].as_str()), now);
        }
    }
    None
}

/// The message that subscribes to a stream.
pub fn subscribe_message(approval_key: &str, tr_id: &str, tr_key: &str) -> (r: String)
    ensures
        r@ == "{\"body\":{\"input\":{\"tr_id\":"@ + json_quoted(tr_id@) + ",\"tr_key\":"@ + json_quoted(tr_key@)
            + "}},\"header\":{\"approval_key\":"@ + json_quoted(approval_key@)
            + ",\"content-type\":\"utf-8\",\"custtype\":\"P\",\"tr_type\":\"1\"}}"@,
{
    let mut m = "{\"body\":{\"input\":{\"tr_id\":".to_owned();
    m.append(json_quote(tr_id).as_str());
    m.append(",\"tr_key\":");
    m.append(json_quote(tr_key).as_str());
    m.append("}},\"header\":{\"approval_key\":");
    m.append(json_quote(approval_key).as_str());
    m.append(",\"content-type\":\"utf-8\",\"custtype\":\"P\",\"tr_type\":\"1\"}}");
    m
}

/// The key of a US stream.
pub open spec fn us_key(excd: Seq<char>, symbol: Seq<char>) -> Seq<char> {
    "D"@ + excd + symbol
}

/// The key of a US stream.
pub fn us_tr_key(excd: &str, symbol: &str) -> (r: String)
    ensures
        r@ == us_key(excd@, symbol@),
{
    let mut s = "D".to_owned();
    s.append(excd);
    s.append(symbol);
    s
}

} // verus!

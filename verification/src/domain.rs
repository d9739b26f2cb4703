//! Venues, currencies, instruments and the market data that arrives for them.
use crate::decimal::Decimal;
use crate::table::{Key, Stored};
use crate::text::{chars_of, find_char, join_text, lemma_first_at, same_text, text_of, first_at};
use crate::time::{Timestamp, FIRST_SECOND, LAST_SECOND};
use vstd::prelude::*;

verus! {

#[derive(Debug, Clone, Copy, PartialEq, Eq, Hash, Structural)]
pub enum Venue {
    Krx,
    Us,
    Upbit,
    Binance,
}

impl View for Venue {
    type V = Venue;

    open spec fn view(&self) -> Venue {
        *self
    }
}

impl Venue {
    pub open spec fn tag_text(self) -> Seq<char> {
        match self {
            Venue::Krx => "KRX"@,
            Venue::Us => "US"@,
            Venue::Upbit => "UPBIT"@,
            Venue::Binance => "BINANCE"@,
        }
    }

    /// The venue with a given tag.
    pub open spec fn tagged(s: Seq<char>) -> Option<Venue> {
        if s == "KRX"@ {
            Some(Venue::Krx)
        } else if s == "US"@ {
            Some(Venue::Us)
        } else if s == "UPBIT"@ {
            Some(Venue::Upbit)
        } else if s == "BINANCE"@ {
            Some(Venue::Binance)
        } else {
            None
        }
    }

    pub fn tag(self) -> (r: &'static str)
        ensures
            r@ == self.tag_text(),
    {
        match self {
            Venue::Krx => "KRX",
            Venue::Us => "US",
            Venue::Upbit => "UPBIT",
            Venue::Binance => "BINANCE",
        }
    }

    pub fn from_tag(s: &str) -> (r: Option<Venue>)
        ensures
            r == Venue::tagged(s@),
    {
        if same_text(s, "KRX") {
            Some(Venue::Krx)
        } else if same_text(s, "US") {
            Some(Venue::Us)
        } else if same_text(s, "UPBIT") {
            Some(Venue::Upbit)
        } else if same_text(s, "BINANCE") {
            Some(Venue::Binance)
        } else {
            None
        }
    }

    pub open spec fn spec_currency(self) -> Currency {
        match self {
            Venue::Krx => Currency::Krw,
            Venue::Upbit => Currency::Krw,
            Venue::Us => Currency::Usd,
            Venue::Binance => Currency::Usdt,
        }
    }

    #[verifier::when_used_as_spec(spec_currency)]
    pub fn currency(self) -> (r: Currency)
        ensures
            r == self.spec_currency(),
    {
        match self {
            Venue::Krx | Venue::Upbit => Currency::Krw,
            Venue::Us => Currency::Usd,
            Venue::Binance => Currency::Usdt,
        }
    }

    pub open spec fn spec_has_session(self) -> bool {
        self == Venue::Krx || self == Venue::Us
    }

    /// Stock venues trade in sessions; crypto venues trade around the clock.
    #[verifier::when_used_as_spec(spec_has_session)]
    pub fn has_session(self) -> (r: bool)
        ensures
            r == self.spec_has_session(),
    {
        match self {
            Venue::Krx | Venue::Us => true,
            Venue::Upbit | Venue::Binance => false,
        }
    }
}

/// The tag of a venue names it and no other venue.
pub proof fn law_venue_tags(v: Venue, s: Seq<char>)
    ensures
        Venue::tagged(v.tag_text()) == Some(v),
        Venue::tagged(s) is Some ==> (Venue::tagged(s)->0).tag_text() == s,
{
    reveal_strlit("KRX");
    reveal_strlit("US");
    reveal_strlit("UPBIT");
    reveal_strlit("BINANCE");
    assert("KRX"@[0] == 'K' && "US"@[1] == 'S' && "UPBIT"@[1] == 'P' && "BINANCE"@[0] == 'B');
}

#[derive(Debug, Clone, Copy, PartialEq, Eq, Hash, Structural)]
pub enum Currency {
    Krw,
    Usd,
    Usdt,
}

impl View for Currency {
    type V = Currency;

    open spec fn view(&self) -> Currency {
        *self
    }
}

impl Key for Currency {
    fn same_key(&self, o: &Currency) -> (r: bool) {
        *self == *o
    }
}

impl Currency {
    pub open spec fn code_text(self) -> Seq<char> {
        match self {
            Currency::Krw => "KRW"@,
            Currency::Usd => "USD"@,
            Currency::Usdt => "USDT"@,
        }
    }

    /// The currency with a given code.
    pub open spec fn coded(s: Seq<char>) -> Option<Currency> {
        if s == "KRW"@ {
            Some(Currency::Krw)
        } else if s == "USD"@ {
            Some(Currency::Usd)
        } else if s == "USDT"@ {
            Some(Currency::Usdt)
        } else {
            None
        }
    }

    pub fn code(self) -> (r: &'static str)
        ensures
            r@ == self.code_text(),
    {
        match self {
            Currency::Krw => "KRW",
            Currency::Usd => "USD",
            Currency::Usdt => "USDT",
        }
    }

    pub fn from_code(s: &str) -> (r: Option<Currency>)
        ensures
            r == Currency::coded(s@),
    {
        if same_text(s, "KRW") {
            Some(Currency::Krw)
        } else if same_text(s, "USD") {
            Some(Currency::Usd)
        } else if same_text(s, "USDT") {
            Some(Currency::Usdt)
        } else {
            None
        }
    }

    pub open spec fn spec_decimals(self) -> u32 {
        match self {
            Currency::Krw => 0,
            Currency::Usd => 2,
            Currency::Usdt => 8,
        }
    }

    /// Decimal places of the currency's minor unit.
    #[verifier::when_used_as_spec(spec_decimals)]
    pub fn decimals(self) -> (r: u32)
        ensures
            r == self.spec_decimals(),
    {
        match self {
            Currency::Krw => 0,
            Currency::Usd => 2,
            Currency::Usdt => 8,
        }
    }
}

/// The code of a currency names it and no other currency.
pub proof fn law_currency_codes(c: Currency, s: Seq<char>)
    ensures
        Currency::coded(c.code_text()) == Some(c),
        Currency::coded(s) is Some ==> (Currency::coded(s)->0).code_text() == s,
{
    reveal_strlit("KRW");
    reveal_strlit("USD");
    reveal_strlit("USDT");
    assert("KRW"@[0] == 'K' && "USD"@[0] == 'U' && "USDT"@[0] == 'U');
    assert("USD"@.len() == 3 && "USDT"@.len() == 4);
}

/// An instrument: a venue and the venue's symbol for it.
#[derive(Debug, Hash)]
pub struct InstrumentId {
    pub venue: Venue,
    pub symbol: String,
}

impl View for InstrumentId {
    type V = (Venue, Seq<char>);

    open spec fn view(&self) -> (Venue, Seq<char>) {
        (self.venue, self.symbol@)
    }
}

impl Key for InstrumentId {
    fn same_key(&self, o: &InstrumentId) -> (r: bool) {
        self.venue == o.venue && self.symbol == o.symbol
    }
}

impl Clone for InstrumentId {
    fn clone(&self) -> (r: InstrumentId)
        ensures
            r@ == self@,
    {
        InstrumentId { venue: self.venue, symbol: self.symbol.clone() }
    }
}

impl PartialEq for InstrumentId {
    fn eq(&self, other: &InstrumentId) -> (r: bool) {
        self.same_key(other)
    }
}

impl vstd::std_specs::cmp::PartialEqSpecImpl for InstrumentId {
    open spec fn obeys_eq_spec() -> bool {
        true
    }

    open spec fn eq_spec(&self, other: &InstrumentId) -> bool {
        self@ == other@
    }
}

/// What `{:?}` prints for a `str`: the text in double quotes, with its escapes.
pub uninterp spec fn quoted(s: Seq<char>) -> Seq<char>;

/// Formats a `str` with `{:?}`. Claimed: the outcome depends on the text alone.
#[verifier::external_body]
pub(crate) fn quote(s: &str) -> (r: String)
    ensures
        r@ == quoted(s@),
{
    format!("{s:?}")
}

/// `VENUE:SYMBOL`.
pub open spec fn id_text(id: (Venue, Seq<char>)) -> Seq<char> {
    id.0.tag_text().push(':') + id.1
}

/// The instrument that a text names, or what is wrong with the text.
pub open spec fn id_parsed(s: Seq<char>) -> Result<(Venue, Seq<char>), Seq<char>> {
    match first_at(s, ':', 0) {
        None => Err("expected VENUE:SYMBOL, got "@ + quoted(s)),
        Some(i) => match Venue::tagged(s.take(i)) {
            None => Err("unknown venue "@ + quoted(s.take(i))),
            Some(venue) => if i + 1 == s.len() {
                Err("empty symbol"@)
            } else {
                Ok((venue, s.skip(i + 1)))
            },
        },
    }
}

impl InstrumentId {
    /// Reads `VENUE:SYMBOL`.
    pub fn parse(s: &str) -> (r: Result<InstrumentId, String>)
        ensures
            match id_parsed(s@) {
                Ok(id) => r is Ok && (r->Ok_0)@ == id,
                Err(m) => r is Err && (r->Err_0)@ == m,
            },
    {
        let v = chars_of(s);
        match find_char(&v, ':', 0) {
            None => Err(join_text("expected VENUE:SYMBOL, got ", quote(s).as_str())),
            Some(i) => {
                let tag = text_of(&v, 0, i);
                assert(tag@ =~= s@.take(i as int));
                match Venue::from_tag(tag.as_str()) {
                    None => Err(join_text("unknown venue ", quote(tag.as_str()).as_str())),
                    Some(venue) => if i == v.len() - 1 {
                        Err("empty symbol".to_owned())
                    } else {
                        let symbol = text_of(&v, i + 1, v.len());
                        assert(symbol@ =~= s@.skip(i + 1));
                        Ok(InstrumentId { venue, symbol })
                    },
                }
            },
        }
    }

    /// Writes `VENUE:SYMBOL`.
    pub fn to_text(&self) -> (r: String)
        ensures
            r@ == id_text(self@),
    {
        let mut s = self.venue.tag().to_owned();
        s.push(':');
        s.append(self.symbol.as_str());
        s
    }
}

/// Writing an instrument that has a symbol and reading it back gives the instrument.
pub proof fn law_id_reads_back(id: (Venue, Seq<char>))
    requires
        id.1.len() > 0,
    ensures
        id_parsed(id_text(id)) == Ok::<(Venue, Seq<char>), Seq<char>>(id),
{
    let tag = id.0.tag_text();
    let s = id_text(id);
    reveal_strlit("KRX");
    reveal_strlit("US");
    reveal_strlit("UPBIT");
    reveal_strlit("BINANCE");
    assert(forall|j: int| 0 <= j < tag.len() ==> s[j] != ':') by {
        assert(forall|j: int| 0 <= j < tag.len() ==> s[j] == tag[j]);
    }
    assert(s[tag.len() as int] == ':');
    lemma_first_at(s, ':', 0);
    assert(s.take(tag.len() as int) =~= tag);
    assert(s.skip(tag.len() as int + 1) =~= id.1);
    law_venue_tags(id.0, tag);
}

/// Reading an instrument and writing it back gives the text.
pub proof fn law_id_writes_back(s: Seq<char>)
    ensures
        id_parsed(s) matches Ok(id) ==> id_text(id) == s,
{
    lemma_first_at(s, ':', 0);
    if let Some(i) = first_at(s, ':', 0) {
        law_venue_tags(Venue::Krx, s.take(i));
        assert(s.take(i).push(':') + s.skip(i + 1) =~= s);
    }
}

#[derive(Debug, Clone, Copy, PartialEq, Eq, Hash, Structural)]
pub enum Side {
    Buy,
    Sell,
}

impl View for Side {
    type V = Side;

    open spec fn view(&self) -> Side {
        *self
    }
}

impl Side {
    pub open spec fn spec_opposite(self) -> Side {
        match self {
            Side::Buy => Side::Sell,
            Side::Sell => Side::Buy,
        }
    }

    #[verifier::when_used_as_spec(spec_opposite)]
    pub fn opposite(self) -> (r: Side)
        ensures
            r == self.spec_opposite(),
    {
        match self {
            Side::Buy => Side::Sell,
            Side::Sell => Side::Buy,
        }
    }

    pub open spec fn code_text(self) -> Seq<char> {
        match self {
            Side::Buy => "buy"@,
            Side::Sell => "sell"@,
        }
    }

    /// The side with a given code.
    pub open spec fn coded(s: Seq<char>) -> Option<Side> {
        if s == "buy"@ {
            Some(Side::Buy)
        } else if s == "sell"@ {
            Some(Side::Sell)
        } else {
            None
        }
    }

    pub fn code(self) -> (r: &'static str)
        ensures
            r@ == self.code_text(),
    {
        match self {
            Side::Buy => "buy",
            Side::Sell => "sell",
        }
    }

    pub fn from_code(s: &str) -> (r: Option<Side>)
        ensures
            r == Side::coded(s@),
    {
        if same_text(s, "buy") {
            Some(Side::Buy)
        } else if same_text(s, "sell") {
            Some(Side::Sell)
        } else {
            None
        }
    }
}

/// The code of a side names it and no other side; the opposite of the opposite is the side.
pub proof fn law_sides(side: Side, s: Seq<char>)
    ensures
        Side::coded(side.code_text()) == Some(side),
        Side::coded(s) is Some ==> (Side::coded(s)->0).code_text() == s,
        side.opposite() != side,
        side.opposite().opposite() == side,
{
    reveal_strlit("buy");
    reveal_strlit("sell");
    assert("buy"@[0] == 'b' && "sell"@[0] == 's');
}

/// One price level of an order book.
#[derive(Debug, Clone, Copy, PartialEq)]
pub struct Level {
    pub price: Decimal,
    pub qty: Decimal,
}

/// A real order book snapshot. Bids best (highest) first, asks best (lowest) first.
#[derive(Debug)]
pub struct Book {
    pub instrument: InstrumentId,
    pub bids: Vec<Level>,
    pub asks: Vec<Level>,
    pub prev_close: Option<Decimal>,
    pub received_at: Timestamp,
}

/// What an order book says.
pub ghost struct BookView {
    pub instrument: (Venue, Seq<char>),
    pub bids: Seq<Level>,
    pub asks: Seq<Level>,
    pub prev_close: Option<Decimal>,
    pub received_at: Timestamp,
}

impl View for Book {
    type V = BookView;

    open spec fn view(&self) -> BookView {
        BookView {
            instrument: self.instrument@,
            bids: self.bids@,
            asks: self.asks@,
            prev_close: self.prev_close,
            received_at: self.received_at,
        }
    }
}

impl Stored for Book {
    open spec fn sound(&self) -> bool {
        true
    }
}

/// The same price levels.
pub fn copy_levels(levels: &[Level]) -> (r: Vec<Level>)
    ensures
        r@ == levels@,
{
    let mut r: Vec<Level> = Vec::new();
    let mut i: usize = 0;
    while i < levels.len()
        invariant
            i <= levels@.len(),
            r@ == levels@.take(i as int),
        decreases levels@.len() - i,
    {
        r.push(levels[i]);
        i += 1;
    }
    assert(levels@.take(i as int) =~= levels@);
    r
}

impl Clone for Book {
    fn clone(&self) -> (r: Book)
        ensures
            r@ == self@,
    {
        Book {
            instrument: self.instrument.clone(),
            bids: copy_levels(&self.bids),
            asks: copy_levels(&self.asks),
            prev_close: self.prev_close,
            received_at: self.received_at,
        }
    }
}

/// One real trade print.
#[derive(Debug)]
pub struct Trade {
    pub instrument: InstrumentId,
    pub price: Decimal,
    pub qty: Decimal,
    pub at: Timestamp,
}

/// What a trade print says.
pub ghost struct TradeView {
    pub instrument: (Venue, Seq<char>),
    pub price: Decimal,
    pub qty: Decimal,
    pub at: Timestamp,
}

impl View for Trade {
    type V = TradeView;

    open spec fn view(&self) -> TradeView {
        TradeView { instrument: self.instrument@, price: self.price, qty: self.qty, at: self.at }
    }
}

/// Where the time comes from.
pub trait Clock {
    fn now(&self) -> Timestamp;
}

/// The clock of the machine.
pub struct SystemClock;

/// Calls `chrono::Utc::now`. Claimed: it tells a second of the calendar and a nanosecond within it;
/// which ones is left open.
#[verifier::external_body]
fn utc_now() -> (r: (i64, u32))
    ensures
        FIRST_SECOND <= r.0 <= LAST_SECOND,
        r.1 < 1_000_000_000,
{
    let t = chrono::Utc::now();
    (t.timestamp(), t.timestamp_subsec_nanos())
}

impl Clock for SystemClock {
    fn now(&self) -> Timestamp {
        let (secs, nanos) = utc_now();
        Timestamp::from_parts(secs, nanos)
    }
}

/// A clock that is moved by hand.
#[derive(Debug, Clone, Copy)]
pub struct ManualClock {
    pub at: Timestamp,
}

impl ManualClock {
    pub fn new(t: Timestamp) -> (r: ManualClock)
        ensures
            r.at == t,
    {
        ManualClock { at: t }
    }

    pub fn set(&mut self, t: Timestamp)
        ensures
            final(self).at == t,
    {
        self.at = t;
    }

    /// Moves the clock on by `nanos`; past the end of the calendar it stays where it is.
    pub fn advance(&mut self, nanos: i64)
        ensures
            crate::time::instant_in_range(old(self).at.at() + nanos) ==> final(self).at.at() == old(self).at.at() + nanos,
            !crate::time::instant_in_range(old(self).at.at() + nanos) ==> *final(self) == *old(self),
    {
        if let Some(t) = self.at.checked_add(nanos) {
            self.at = t;
        }
    }
}

impl Clock for ManualClock {
    fn now(&self) -> (r: Timestamp)
        ensures
            r == self.at,
    {
        self.at
    }
}

} // verus!

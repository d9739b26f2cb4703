//! Korea Investment & Securities (KIS) Open API: KRX and US stock market data.
use crate::candles::{Candle, Interval};
use crate::dates::{calendar_day, date_shown, local_read, read_local, show_date};
use crate::decimal::Decimal;
use crate::domain::{id_text, quote, quoted, Book, BookView, InstrumentId, Venue};
use crate::feed::{EventView, MarketEvent};
use crate::json::{member, text_in, Json, JsonView};
use crate::screen::{text_view, Ranking};
use crate::settings::{below_dir, cleaned, stored_value};
use crate::table::{Stored, Table};
use crate::text::{ascii_small, chars_of, hex_digits, hex_text, same_text, smalls, text_of};
use crate::time::{
    day_of, instant, instant_at, offset_at, second_of_day, split_second, zone_instant, zone_offset, Timestamp, Zone,
    FIRST_SECOND, LAST_SECOND, NANOS_PER_SEC, SECS_PER_DAY,
};
use crate::venue::{opening_after, Calendar};
use vstd::prelude::*;
use vstd::utf8::encode_utf8;

pub mod master;
pub mod rest;
pub mod ws;

verus! {

/// How KIS is reached.
pub struct KisConfig {
    pub app_key: String,
    pub app_secret: String,
    /// Mock (모의투자) hosts instead of real ones.
    pub mock: bool,
    /// Where the access token is cached between runs.
    pub state_dir: String,
}

/// What a configuration says.
pub ghost struct ConfigView {
    pub app_key: Seq<char>,
    pub app_secret: Seq<char>,
    pub mock: bool,
    pub state_dir: Seq<char>,
}

impl View for KisConfig {
    type V = ConfigView;

    open spec fn view(&self) -> ConfigView {
        ConfigView {
            app_key: self.app_key@,
            app_secret: self.app_secret@,
            mock: self.mock,
            state_dir: self.state_dir@,
        }
    }
}

/// The configuration that the environment gives: both keys are required; blank counts as unset.
pub open spec fn configured(
    app_key: Option<Seq<char>>,
    app_secret: Option<Seq<char>>,
    env: Option<Seq<char>>,
    state_dir: Seq<char>,
) -> Option<ConfigView> {
    match (cleaned(app_key), cleaned(app_secret)) {
        (Some(app_key), Some(app_secret)) => Some(
            ConfigView {
                app_key,
                app_secret,
                mock: env is Some && smalls(env->0) == "mock"@,
                state_dir,
            },
        ),
        _ => None,
    }
}

impl KisConfig {
    /// From what the environment has as `KIS_APP_KEY` and `KIS_APP_SECRET` (both required) and as
    /// `KIS_ENV` (`mock` for mock hosts), and the directory for the token cache.
    pub fn from_env(
        app_key: Option<String>,
        app_secret: Option<String>,
        env: Option<String>,
        state_dir: String,
    ) -> (r: Option<KisConfig>)
        ensures
            match configured(text_view(app_key), text_view(app_secret), text_view(env), state_dir@) {
                Some(c) => r matches Some(x) && x@ == c,
                None => r is None,
            },
    {
        let key = match app_key {
            Some(k) => stored_value(k.as_str()),
            None => None,
        };
        let secret = match app_secret {
            Some(k) => stored_value(k.as_str()),
            None => None,
        };
        let mock = match env {
            Some(v) => {
                let small = ascii_small(&chars_of(v.as_str()));
                let n: usize = small.len();
                let small = text_of(&small, 0, n);
                assert(small@ =~= smalls(v@));
                same_text(small.as_str(), "mock")
            },
            None => false,
        };
        match (key, secret) {
            (Some(app_key), Some(app_secret)) => Some(KisConfig { app_key, app_secret, mock, state_dir }),
            _ => None,
        }
    }

    /// Where REST requests go.
    pub fn rest_base(&self) -> (r: &'static str)
        ensures
            r@ == (if self.mock {
                "https://openapivts.koreainvestment.com:29443"@
            } else {
                "https://openapi.koreainvestment.com:9443"@
            }),
    {
        if self.mock {
            "https://openapivts.koreainvestment.com:29443"
        } else {
            "https://openapi.koreainvestment.com:9443"
        }
    }

    /// Where the stream is.
    pub fn ws_url(&self) -> (r: &'static str)
        ensures
            r@ == (if self.mock {
                "ws://ops.koreainvestment.com:31000"@
            } else {
                "ws://ops.koreainvestment.com:21000"@
            }),
    {
        if self.mock {
            "ws://ops.koreainvestment.com:31000"
        } else {
            "ws://ops.koreainvestment.com:21000"
        }
    }

    /// The least time between two requests, in milliseconds.
    pub open spec fn spacing(self) -> u64 {
        if self.mock {
            550
        } else {
            60
        }
    }

    /// How many milliseconds to wait before a request when the last one was `elapsed` ago.
    pub fn pace(&self, elapsed: u64) -> (r: u64)
        ensures
            r == (if elapsed < self.spacing() {
                self.spacing() - elapsed
            } else {
                0
            }),
    {
        let least: u64 = if self.mock {
            550
        } else {
            60
        };
        if elapsed < least {
            least - elapsed
        } else {
            0
        }
    }

    /// The file that the token is cached in.
    pub fn token_path(&self) -> (r: String)
        ensures
            r@ == below_dir(
                self.state_dir@,
                if self.mock {
                    "kis_token_mock.json"@
                } else {
                    "kis_token.json"@
                },
            ),
    {
        crate::settings::join_path(
            self.state_dir.as_str(),
            if self.mock {
                "kis_token_mock.json"
            } else {
                "kis_token.json"
            },
        )
    }

    /// What may be shown of the configuration: no key.
    pub fn describe(&self) -> (r: String)
        ensures
            r@ == shown_of(self@),
    {
        let mut s = "KisConfig { mock: ".to_owned();
        s.append(
            if self.mock {
                "true"
            } else {
                "false"
            },
        );
        s.append(", state_dir: ");
        s.append(quote(self.state_dir.as_str()).as_str());
        s.append(", .. }");
        s
    }
}

/// What may be shown of a configuration is the same whatever the keys are.
pub proof fn law_keys_do_not_show(a: ConfigView, b: ConfigView)
    requires
        a.mock == b.mock,
        a.state_dir == b.state_dir,
    ensures
        shown_of(a) == shown_of(b),
{
}

/// What may be shown of a configuration.
pub open spec fn shown_of(c: ConfigView) -> Seq<char> {
    "KisConfig { mock: "@ + (if c.mock {
        "true"@
    } else {
        "false"@
    }) + ", state_dir: "@ + quoted(c.state_dir) + ", .. }"@
}

/// The bytes from index `i` on mixed into a hash (FNV-1a 64).
pub open spec fn mixed(bytes: Seq<u8>, i: int, h: u64) -> u64
    decreases bytes.len() - i,
{
    if i >= bytes.len() {
        h
    } else {
        mixed(bytes, i + 1, (h ^ (bytes[i] as u64)).wrapping_mul(0x100000001b3))
    }
}

/// The tag of an appkey.
pub open spec fn fingerprint_of(app_key: Seq<char>) -> Seq<char> {
    hex_digits(mixed(encode_utf8(app_key), 0, 0xcbf29ce484222325) as nat, 16)
}

/// A stable, non-reversible tag for an appkey (FNV-1a 64).
pub fn fingerprint(app_key: &str) -> (r: String)
    ensures
        r@ == fingerprint_of(app_key@),
{
    let bytes = app_key.as_bytes();
    let mut h: u64 = 0xcbf29ce484222325;
    let mut i: usize = 0;
    while i < bytes.len()
        invariant
            i <= bytes@.len(),
            mixed(bytes@, 0, 0xcbf29ce484222325) == mixed(bytes@, i as int, h),
        decreases bytes@.len() - i,
    {
        h = (h ^ (bytes[i] as u64)).wrapping_mul(0x100000001b3);
        i += 1;
    }
    hex_text(h, 16)
}

/// An access token.
#[derive(Debug)]
pub struct CachedToken {
    pub token: String,
    pub expires_at: Timestamp,
    /// `fingerprint` of the appkey that issued it, so a rotated key never reuses it.
    pub key: String,
}

/// What is known of an access token.
pub ghost struct TokenView {
    pub token: Seq<char>,
    pub expires_at: Timestamp,
    pub key: Seq<char>,
}

impl View for CachedToken {
    type V = TokenView;

    open spec fn view(&self) -> TokenView {
        TokenView { token: self.token@, expires_at: self.expires_at, key: self.key@ }
    }
}

/// How long a token must still be good to be used: ten minutes. One on disk may be good for just as
/// long, one in memory must be good for longer.
pub const TOKEN_MARGIN_NANOS: i128 = 600_000_000_000;

/// Whether a token is good for at least ten more minutes.
pub open spec fn lasts(t: TokenView, now: Timestamp) -> bool {
    t.expires_at.at() - now.at() >= TOKEN_MARGIN_NANOS
}

/// Where the access token comes from.
#[derive(Debug, Clone, Copy, PartialEq, Eq, Structural)]
pub enum TokenSource {
    Memory,
    Disk,
    /// A new one is issued: limited to one a minute, and each one notifies the user.
    Issue,
}

/// Where the access token comes from, given the token in memory and the one on disk.
pub open spec fn token_source(
    memory: Option<TokenView>,
    disk: Option<TokenView>,
    now: Timestamp,
    key: Seq<char>,
) -> TokenSource {
    if memory is Some && memory->0.expires_at.at() - now.at() > TOKEN_MARGIN_NANOS {
        TokenSource::Memory
    } else if disk is Some && disk->0.key == key && lasts(disk->0, now) {
        TokenSource::Disk
    } else {
        TokenSource::Issue
    }
}

/// An optional token as what is known of it.
pub open spec fn token_view(t: Option<&CachedToken>) -> Option<TokenView> {
    match t {
        Some(t) => Some(t@),
        None => None,
    }
}

impl CachedToken {
    /// Whether a token from disk can be used: it is for this appkey and still good for at least 10
    /// minutes.
    pub fn usable(&self, now: Timestamp, key: &str) -> (r: bool)
        ensures
            r == (self.key@ == key@ && lasts(self@, now)),
    {
        same_text(self.key.as_str(), key) && self.expires_at.since(now) >= TOKEN_MARGIN_NANOS
    }

    /// Where the access token comes from: memory, then the disk cache, and only then a new one.
    pub fn source(memory: Option<&CachedToken>, disk: Option<&CachedToken>, now: Timestamp, key: &str) -> (r: TokenSource)
        ensures
            r == token_source(token_view(memory), token_view(disk), now, key@),
    {
        if let Some(t) = memory {
            if t.expires_at.since(now) > TOKEN_MARGIN_NANOS {
                return TokenSource::Memory;
            }
        }
        if let Some(t) = disk {
            if t.usable(now, key) {
                return TokenSource::Disk;
            }
        }
        TokenSource::Issue
    }
}

/// A token of another appkey, or one that is about to expire, is never taken from disk; and no token
/// is issued while the one on disk is this appkey's and good for at least ten minutes.
pub proof fn law_rotated_keys_are_not_reused(
    memory: Option<TokenView>,
    disk: Option<TokenView>,
    now: Timestamp,
    key: Seq<char>,
)
    ensures
        token_source(memory, disk, now, key) == TokenSource::Disk ==> disk is Some && disk->0.key == key
            && disk->0.expires_at.at() - now.at() >= TOKEN_MARGIN_NANOS,
        disk is Some && disk->0.key == key && disk->0.expires_at.at() - now.at() >= TOKEN_MARGIN_NANOS ==> token_source(
            memory,
            disk,
            now,
            key,
        ) != TokenSource::Issue,
{
}

/// The token in a response. `access_token_token_expired` is KST wall time.
pub open spec fn token_in(v: JsonView, app_key: Seq<char>) -> Result<TokenView, Seq<char>> {
    match text_in(member(v, "access_token"@)) {
        None => Err("token response without access_token"@),
        Some(token) => match text_in(member(v, "access_token_token_expired"@)) {
            None => Err("token response without expiry"@),
            Some(expiry) => match local_read(expiry, "%Y-%m-%d %H:%M:%S"@) {
                Err(m) => Err(m),
                Ok(local) => match zone_instant(Zone::Seoul, local as int) {
                    None => Err("ambiguous expiry "@ + expiry),
                    Some(t) => Ok(
                        TokenView { token, expires_at: instant(t * NANOS_PER_SEC), key: fingerprint_of(app_key) },
                    ),
                },
            },
        },
    }
}

/// Reads the token in a response.
pub fn parse_token_response(body: &Json, app_key: &str) -> (r: Result<CachedToken, String>)
    ensures
        match token_in(body.view(), app_key@) {
            Ok(t) => r matches Ok(x) && x@ == t,
            Err(m) => r matches Err(e) && e@ == m,
        },
{
    let token = match body.text_member("access_token") {
        Some(t) => t,
        None => return Err("token response without access_token".to_owned()),
    };
    let expiry = match body.text_member("access_token_token_expired") {
        Some(t) => t,
        None => return Err("token response without expiry".to_owned()),
    };
    let local = match read_local(expiry.as_str(), "%Y-%m-%d %H:%M:%S") {
        Ok(t) => t,
        Err(e) => return Err(e),
    };
    let at = match instant_at(Zone::Seoul, local) {
        Some(t) => Timestamp::from_secs(t),
        None => None,
    };
    match at {
        Some(expires_at) => Ok(CachedToken { token: token.clone(), expires_at, key: fingerprint(app_key) }),
        None => {
            let mut m = "ambiguous expiry ".to_owned();
            m.append(expiry.as_str());
            Err(m)
        },
    }
}

/// What is said when no token could be issued.
pub fn issuance_error(error: &str, body: &Json) -> (r: String)
    ensures
        r@ == "KIS token issuance failed: "@ + error@ + " ("@ + (match text_in(
            member(body.view(), "error_description"@),
        ) {
            Some(d) => d,
            None => ""@,
        }) + ")"@,
{
    let mut m = "KIS token issuance failed: ".to_owned();
    m.append(error);
    m.append(" (");
    match body.text_member("error_description") {
        Some(d) => m.append(d.as_str()),
        None => m.append(""),
    }
    m.append(")");
    m
}

/// How long an approval key is reused, in seconds: 12 h.
pub const APPROVAL_SECS: u64 = 43_200;

/// Whether an approval key of some age, in seconds, is used again.
pub fn approval_reusable(age: u64) -> (r: bool)
    ensures
        r == (age < APPROVAL_SECS),
{
    age < APPROVAL_SECS
}

/// The approval key in a response.
pub fn parse_approval(body: &Json) -> (r: Result<String, String>)
    ensures
        match text_in(member(body.view(), "approval_key"@)) {
            Some(k) => r matches Ok(x) && x@ == k,
            None => r matches Err(e) && e@ == "KIS approval failed"@,
        },
{
    match body.text_member("approval_key") {
        Some(k) => Ok(k.clone()),
        None => Err("KIS approval failed".to_owned()),
    }
}

/// The token was revoked or expired early (e.g. re-issued elsewhere).
pub fn is_token_error(body: &Json) -> (r: bool)
    ensures
        r == (text_in(member(body.view(), "msg_cd"@)) == Some("EGW00121"@) || text_in(member(body.view(), "msg_cd"@))
            == Some("EGW00123"@)),
{
    match body.text_member("msg_cd") {
        Some(s) => same_text(s.as_str(), "EGW00121") || same_text(s.as_str(), "EGW00123"),
        None => false,
    }
}

/// A text, or another one where there is none.
pub open spec fn text_or(t: Option<Seq<char>>, or: Seq<char>) -> Seq<char> {
    match t {
        Some(s) => s,
        None => or,
    }
}

/// KIS reports failures in the body: `rt_cd != "0"` with `msg_cd`/`msg1`.
pub fn check_rt(body: &Json, tr_id: &str) -> (r: Result<(), String>)
    ensures
        if text_in(member(body.view(), "rt_cd"@)) == Some("0"@) {
            r is Ok
        } else {
            r matches Err(e) && e@ == "KIS "@ + tr_id@ + " failed: "@ + text_or(
                text_in(member(body.view(), "msg_cd"@)),
                "?"@,
            ) + " "@ + text_or(text_in(member(body.view(), "msg1"@)), ""@)
        },
{
    if let Some(s) = body.text_member("rt_cd") {
        if same_text(s.as_str(), "0") {
            return Ok(());
        }
    }
    let mut m = "KIS ".to_owned();
    m.append(tr_id);
    m.append(" failed: ");
    match body.text_member("msg_cd") {
        Some(s) => m.append(s.as_str()),
        None => m.append("?"),
    }
    m.append(" ");
    match body.text_member("msg1") {
        Some(s) => m.append(s.as_str()),
        None => m.append(""),
    }
    Err(m)
}

/// The second of local time in Seoul.
pub open spec fn seoul_second(now: Timestamp) -> int {
    now.second() + zone_offset(Zone::Seoul, now.second())
}

fn seoul(now: Timestamp) -> (r: (i64, i64))
    ensures
        r.0 == day_of(seoul_second(now)),
        r.1 == second_of_day(seoul_second(now)),
        -100_000_000 <= r.0 <= 100_000_000,
{
    let s = now.secs();
    proof {
        use_type_invariant(now);
    }
    split_second(s + offset_at(Zone::Seoul, s))
}

/// The second of the day at which the reference price has rolled over: 08:30.
pub const ROLLOVER_SECOND: i64 = 30_600;

/// KIS rolls the reference (previous close) price over before the session; values fetched
/// earlier in the KST morning may still be yesterday's.
pub fn prev_close_cacheable(now: Timestamp) -> (r: bool)
    ensures
        r == (second_of_day(seoul_second(now)) >= ROLLOVER_SECOND),
{
    seoul(now).1 >= ROLLOVER_SECOND
}

/// The previous close of a day.
#[derive(Debug, Clone, Copy)]
pub struct PrevClose {
    pub day: i64,
    pub price: Decimal,
}

impl View for PrevClose {
    type V = PrevClose;

    open spec fn view(&self) -> PrevClose {
        *self
    }
}

impl Stored for PrevClose {
    open spec fn sound(&self) -> bool {
        true
    }
}

/// The previous closes that were fetched, each once per KST day.
pub struct PrevCloses {
    pub closes: Table<InstrumentId, PrevClose>,
}

impl View for PrevCloses {
    type V = Map<(Venue, Seq<char>), PrevClose>;

    open spec fn view(&self) -> Map<(Venue, Seq<char>), PrevClose> {
        self.closes@
    }
}

/// The previous close that is known today.
pub open spec fn close_today(m: Map<(Venue, Seq<char>), PrevClose>, id: (Venue, Seq<char>), now: Timestamp) -> Option<
    Decimal,
> {
    if m.contains_key(id) && m[id].day == day_of(seoul_second(now)) {
        Some(m[id].price)
    } else {
        None
    }
}

impl PrevCloses {
    pub open spec fn wf(&self) -> bool {
        self.closes.wf()
    }

    pub fn new() -> (r: PrevCloses)
        ensures
            r.wf(),
            r@ == Map::<(Venue, Seq<char>), PrevClose>::empty(),
    {
        PrevCloses { closes: Table::new() }
    }

    /// Keeps a price as today's previous close.
    pub fn remember_prev_close(&mut self, id: &InstrumentId, price: Decimal, now: Timestamp)
        requires
            old(self).wf(),
        ensures
            final(self).wf(),
            final(self)@ == old(self)@.insert(id@, PrevClose { day: day_of(seoul_second(now)) as i64, price }),
    {
        self.closes.insert(id.clone(), PrevClose { day: seoul(now).0, price });
    }

    fn known(&self, id: &InstrumentId, now: Timestamp) -> (r: Option<Decimal>)
        requires
            self.wf(),
        ensures
            r == close_today(self@, id@, now),
    {
        match self.closes.get(id) {
            Some(c) => if c.day == seoul(now).0 {
                Some(c.price)
            } else {
                None
            },
            None => None,
        }
    }

    /// Sets a book's previous close, if today's is known.
    pub fn attach_prev_close(&self, book: &mut Book, now: Timestamp)
        requires
            self.wf(),
        ensures
            final(book)@ == (match close_today(self@, old(book)@.instrument, now) {
                Some(p) => BookView { prev_close: Some(p), ..old(book)@ },
                None => old(book)@,
            }),
    {
        if let Some(p) = self.known(&book.instrument, now) {
            book.prev_close = Some(p);
        }
    }

    /// Whether the previous close has to be fetched: always when `force`, else once per KST day.
    pub fn has_to_fetch(&self, id: &InstrumentId, force: bool, now: Timestamp) -> (r: bool)
        requires
            self.wf(),
        ensures
            r == (force || close_today(self@, id@, now) is None),
    {
        force || self.known(id, now).is_none()
    }

    /// Takes a fetched price. Values fetched before the morning rollover are not kept.
    pub fn fetched(&mut self, id: &InstrumentId, price: Decimal, now: Timestamp)
        requires
            old(self).wf(),
        ensures
            final(self).wf(),
            final(self)@ == (if second_of_day(seoul_second(now)) >= ROLLOVER_SECOND {
                old(self)@.insert(id@, PrevClose { day: day_of(seoul_second(now)) as i64, price })
            } else {
                old(self)@
            }),
    {
        if prev_close_cacheable(now) {
            self.remember_prev_close(id, price, now);
        }
    }
}

/// What was remembered is known for the rest of the day, and of no other instrument.
pub proof fn law_a_close_holds_for_its_day(
    m: Map<(Venue, Seq<char>), PrevClose>,
    id: (Venue, Seq<char>),
    other: (Venue, Seq<char>),
    price: Decimal,
    then: Timestamp,
    now: Timestamp,
)
    requires
        then.valid(),
    ensures
        ({
            let after = m.insert(id, PrevClose { day: day_of(seoul_second(then)) as i64, price });
            &&& day_of(seoul_second(now)) == day_of(seoul_second(then)) ==> close_today(after, id, now) == Some(price)
            &&& day_of(seoul_second(now)) != day_of(seoul_second(then)) ==> close_today(after, id, now) is None
            &&& other != id ==> close_today(after, other, now) == close_today(m, other, now)
        }),
{
}

/// How long a stream waits before the session of its venue: not at all in a session, else until the
/// next one opens, in nanoseconds.
pub fn session_wait(calendar: &Calendar, venue: Venue, now: Timestamp) -> (r: Option<i128>)
    ensures
        r == (if crate::venue::open_at(calendar@, venue, now) {
            None
        } else {
            match opening_after(calendar@, venue, now) {
                Some(open) => Some((open.at() - now.at()) as i128),
                None => None,
            }
        }),
{
    if calendar.is_open(venue, now) {
        return None;
    }
    match calendar.next_open(venue, now) {
        Some(open) => Some(open.since(now)),
        None => None,
    }
}

/// The exchange of a US instrument.
pub fn exchange_of(exchanges: &Table<String, String>, id: &InstrumentId) -> (r: Result<String, String>)
    requires
        exchanges.wf(),
    ensures
        if exchanges@.contains_key(id@.1) {
            r matches Ok(x) && x@ == exchanges@[id@.1]
        } else {
            r matches Err(e) && e@ == "no exchange known for "@ + id_text(id@)
        },
{
    match exchanges.get(&id.symbol) {
        Some(x) => Ok(x.clone()),
        None => {
            let mut m = "no exchange known for ".to_owned();
            m.append(id.to_text().as_str());
            Err(m)
        },
    }
}

/// The calendar days that a chart of KRX candles covers: weeks of them, or enough for that many
/// trading days.
pub open spec fn chart_days(interval: Interval, limit: int) -> Option<int> {
    match interval {
        Interval::W1 => Some(7 * limit),
        Interval::D1 => Some((limit * 7) / 5 + 10),
        _ => None,
    }
}

/// The first and the last day of a span that ends today, as KIS writes them.
pub open spec fn span_of(now: Timestamp, days: int) -> Option<(Seq<char>, Seq<char>)> {
    let today = day_of(seoul_second(now));
    if calendar_day(today) && calendar_day(today - days) {
        Some((date_shown((today - days) as i64, "%Y%m%d"@), date_shown(today as i64, "%Y%m%d"@)))
    } else {
        None
    }
}

/// The first and the last day of a span of `days` that ends today; `None` where the calendar does
/// not have one of them.
pub fn span(now: Timestamp, days: u128) -> (r: Option<(String, String)>)
    ensures
        match span_of(now, days as int) {
            Some((a, b)) => r matches Some(p) && p.0@ == a && p.1@ == b,
            None => r is None,
        },
{
    let today = seoul(now).0;
    if days > 400_000_000 {
        assert(!calendar_day(today - days));
        return None;
    }
    let first = today - days as i64;
    if FIRST_SECOND <= today * SECS_PER_DAY && today * SECS_PER_DAY <= LAST_SECOND && FIRST_SECOND <= first
        * SECS_PER_DAY && first * SECS_PER_DAY <= LAST_SECOND {
        Some((show_date(first, "%Y%m%d"), show_date(today, "%Y%m%d")))
    } else {
        None
    }
}

/// The period code of a KRX chart and the days that it covers.
pub fn krx_chart(interval: Interval, limit: usize) -> (r: Result<(&'static str, u128), String>)
    ensures
        match chart_days(interval, limit as int) {
            Some(days) => r matches Ok(p) && p.1 == days && p.0@ == (if interval == Interval::W1 {
                "W"@
            } else {
                "D"@
            }),
            None => r matches Err(e) && e@ == "unsupported: KRX "@ + interval.code_text()
                + " candles come from stored bars"@,
        },
{
    match interval {
        Interval::D1 => Ok(("D", (limit as u128 * 7) / 5 + 10)),
        Interval::W1 => Ok(("W", 7 * limit as u128)),
        other => {
            let mut m = "unsupported: KRX ".to_owned();
            m.append(other.code());
            m.append(" candles come from stored bars");
            Err(m)
        },
    }
}

/// The period code of a US chart.
pub fn us_chart(interval: Interval) -> (r: Result<&'static str, String>)
    ensures
        match interval {
            Interval::D1 => r matches Ok(c) && c@ == "0"@,
            Interval::W1 => r matches Ok(c) && c@ == "1"@,
            _ => r matches Err(e) && e@ == "unsupported: US "@ + interval.code_text()
                + " candles come from stored bars"@,
        },
{
    match interval {
        Interval::D1 => Ok("0"),
        Interval::W1 => Ok("1"),
        other => {
            let mut m = "unsupported: US ".to_owned();
            m.append(other.code());
            m.append(" candles come from stored bars");
            Err(m)
        },
    }
}

/// The last `limit` candles.
pub fn last_candles(v: &Vec<Candle>, limit: usize) -> (r: Vec<Candle>)
    ensures
        r@ == v@.skip(
            if v@.len() > limit {
                v@.len() - limit
            } else {
                0
            },
        ),
{
    let n: usize = v.len();
    let from: usize = if n > limit {
        n - limit
    } else {
        0
    };
    let mut out: Vec<Candle> = Vec::new();
    let mut i: usize = from;
    while i < n
        invariant
            from <= i <= n,
            n == v@.len(),
            out@ == v@.subrange(from as int, i as int),
        decreases n - i,
    {
        out.push(v[i]);
        i += 1;
        assert(v@.subrange(from as int, i as int) =~= v@.subrange(from as int, i - 1).push(v@[i - 1]));
    }
    assert(v@.subrange(from as int, n as int) =~= v@.skip(from as int));
    out
}

/// A request: path, transaction and parameters.
#[derive(Debug)]
pub struct RestQuery {
    pub path: &'static str,
    pub tr_id: &'static str,
    pub params: Vec<(&'static str, &'static str)>,
}

/// What a request says.
pub ghost struct QueryView {
    pub path: Seq<char>,
    pub tr_id: Seq<char>,
    pub params: Seq<(Seq<char>, Seq<char>)>,
}

impl View for RestQuery {
    type V = QueryView;

    open spec fn view(&self) -> QueryView {
        QueryView {
            path: self.path@,
            tr_id: self.tr_id@,
            params: self.params@.map_values(|p: (&'static str, &'static str)| (p.0@, p.1@)),
        }
    }
}

/// The request for a KRX ranking.
pub open spec fn krx_rank_query(ranking: Ranking) -> QueryView {
    match ranking {
        Ranking::Gainers | Ranking::Losers => QueryView {
            path: "/uapi/domestic-stock/v1/ranking/fluctuation"@,
            tr_id: "FHPST01700000"@,
            params: seq![
                ("fid_cond_mrkt_div_code"@, "J"@),
                ("fid_cond_scr_div_code"@, "20170"@),
                ("fid_input_iscd"@, "0000"@),
                ("fid_rank_sort_cls_code"@, if ranking == Ranking::Gainers { "0000"@ } else { "0001"@ }),
                ("fid_input_cnt_1"@, "0"@),
                ("fid_prc_cls_code"@, "0"@),
                ("fid_input_price_1"@, ""@),
                ("fid_input_price_2"@, ""@),
                ("fid_vol_cnt"@, ""@),
                ("fid_trgt_cls_code"@, "0"@),
                ("fid_trgt_exls_cls_code"@, "0"@),
                ("fid_div_cls_code"@, "0"@),
                ("fid_rsfl_rate1"@, ""@),
                ("fid_rsfl_rate2"@, ""@),
            ],
        },
        Ranking::Volume | Ranking::Value => QueryView {
            path: "/uapi/domestic-stock/v1/quotations/volume-rank"@,
            tr_id: "FHPST01710000"@,
            params: seq![
                ("FID_COND_MRKT_DIV_CODE"@, "J"@),
                ("FID_COND_SCR_DIV_CODE"@, "20171"@),
                ("FID_INPUT_ISCD"@, "0000"@),
                ("FID_DIV_CLS_CODE"@, "0"@),
                ("FID_BLNG_CLS_CODE"@, if ranking == Ranking::Volume { "0"@ } else { "3"@ }),
                ("FID_TRGT_CLS_CODE"@, "111111111"@),
                ("FID_TRGT_EXLS_CLS_CODE"@, "0000000000"@),
                ("FID_INPUT_PRICE_1"@, ""@),
                ("FID_INPUT_PRICE_2"@, ""@),
                ("FID_VOL_CNT"@, ""@),
                ("FID_INPUT_DATE_1"@, ""@),
            ],
        },
    }
}

/// The request for a KRX ranking.
pub fn krx_ranking(ranking: Ranking) -> (q: RestQuery)
    ensures
        q@ == krx_rank_query(ranking),
{
    let mut p: Vec<(&'static str, &'static str)> = Vec::new();
    match ranking {
        Ranking::Gainers | Ranking::Losers => {
            let sort = match ranking {
                Ranking::Gainers => "0000",
                _ => "0001",
            };
            p.push(("fid_cond_mrkt_div_code", "J"));
            p.push(("fid_cond_scr_div_code", "20170"));
            p.push(("fid_input_iscd", "0000"));
            p.push(("fid_rank_sort_cls_code", sort));
            p.push(("fid_input_cnt_1", "0"));
            p.push(("fid_prc_cls_code", "0"));
            p.push(("fid_input_price_1", ""));
            p.push(("fid_input_price_2", ""));
            p.push(("fid_vol_cnt", ""));
            p.push(("fid_trgt_cls_code", "0"));
            p.push(("fid_trgt_exls_cls_code", "0"));
            p.push(("fid_div_cls_code", "0"));
            p.push(("fid_rsfl_rate1", ""));
            p.push(("fid_rsfl_rate2", ""));
            let q = RestQuery {
                path: "/uapi/domestic-stock/v1/ranking/fluctuation",
                tr_id: "FHPST01700000",
                params: p,
            };
            assert(q@.params =~= krx_rank_query(ranking).params);
            q
        },
        Ranking::Volume | Ranking::Value => {
            let by = match ranking {
                Ranking::Volume => "0",
                _ => "3",
            };
            p.push(("FID_COND_MRKT_DIV_CODE", "J"));
            p.push(("FID_COND_SCR_DIV_CODE", "20171"));
            p.push(("FID_INPUT_ISCD", "0000"));
            p.push(("FID_DIV_CLS_CODE", "0"));
            p.push(("FID_BLNG_CLS_CODE", by));
            p.push(("FID_TRGT_CLS_CODE", "111111111"));
            p.push(("FID_TRGT_EXLS_CLS_CODE", "0000000000"));
            p.push(("FID_INPUT_PRICE_1", ""));
            p.push(("FID_INPUT_PRICE_2", ""));
            p.push(("FID_VOL_CNT", ""));
            p.push(("FID_INPUT_DATE_1", ""));
            let q = RestQuery {
                path: "/uapi/domestic-stock/v1/quotations/volume-rank",
                tr_id: "FHPST01710000",
                params: p,
            };
            assert(q@.params =~= krx_rank_query(ranking).params);
            q
        },
    }
}

/// The request for a US ranking, of one of the two exchanges.
pub open spec fn us_rank_query(ranking: Ranking, nyse: bool) -> QueryView {
    let base = seq![
        ("EXCD"@, if nyse { "NYS"@ } else { "NAS"@ }),
        ("NDAY"@, "0"@),
        ("VOL_RANG"@, "0"@),
        ("AUTH"@, ""@),
        ("KEYB"@, ""@),
    ];
    match ranking {
        Ranking::Gainers => QueryView {
            path: "/uapi/overseas-stock/v1/ranking/updown-rate"@,
            tr_id: "HHDFS76290000"@,
            params: base + seq![("GUBN"@, "1"@)],
        },
        Ranking::Losers => QueryView {
            path: "/uapi/overseas-stock/v1/ranking/updown-rate"@,
            tr_id: "HHDFS76290000"@,
            params: base + seq![("GUBN"@, "0"@)],
        },
        Ranking::Volume => QueryView {
            path: "/uapi/overseas-stock/v1/ranking/trade-vol"@,
            tr_id: "HHDFS76310010"@,
            params: base + seq![("PRC1"@, ""@), ("PRC2"@, ""@)],
        },
        Ranking::Value => QueryView {
            path: "/uapi/overseas-stock/v1/ranking/trade-pbmn"@,
            tr_id: "HHDFS76320010"@,
            params: base + seq![("PRC1"@, ""@), ("PRC2"@, ""@)],
        },
    }
}

/// The request for a US ranking, of one of the two exchanges.
pub fn us_ranking(ranking: Ranking, nyse: bool) -> (q: RestQuery)
    ensures
        q@ == us_rank_query(ranking, nyse),
{
    let mut p: Vec<(&'static str, &'static str)> = Vec::new();
    p.push(
        (
            "EXCD",
            if nyse {
                "NYS"
            } else {
                "NAS"
            },
        ),
    );
    p.push(("NDAY", "0"));
    p.push(("VOL_RANG", "0"));
    p.push(("AUTH", ""));
    p.push(("KEYB", ""));
    let (path, tr_id) = match ranking {
        Ranking::Gainers => {
            p.push(("GUBN", "1"));
            ("/uapi/overseas-stock/v1/ranking/updown-rate", "HHDFS76290000")
        },
        Ranking::Losers => {
            p.push(("GUBN", "0"));
            ("/uapi/overseas-stock/v1/ranking/updown-rate", "HHDFS76290000")
        },
        Ranking::Volume => {
            p.push(("PRC1", ""));
            p.push(("PRC2", ""));
            ("/uapi/overseas-stock/v1/ranking/trade-vol", "HHDFS76310010")
        },
        Ranking::Value => {
            p.push(("PRC1", ""));
            p.push(("PRC2", ""));
            ("/uapi/overseas-stock/v1/ranking/trade-pbmn", "HHDFS76320010")
        },
    };
    let q = RestQuery { path, tr_id, params: p };
    assert(q@.params =~= us_rank_query(ranking, nyse).params);
    q
}

/// A subscription: the stream and the key of what it is for.
pub struct Subscription {
    pub tr_id: &'static str,
    pub tr_key: String,
}

/// Subscriptions as what they say.
pub open spec fn subscription_views(v: Seq<Subscription>) -> Seq<(Seq<char>, Seq<char>)> {
    v.map_values(|s: Subscription| (s.tr_id@, s.tr_key@))
}

/// The subscriptions to books and trades of the first `n` keys.
pub open spec fn both_streams(keys: Seq<Seq<char>>, book: Seq<char>, trade: Seq<char>, n: int) -> Seq<
    (Seq<char>, Seq<char>),
>
    decreases n,
{
    if n <= 0 {
        Seq::empty()
    } else {
        both_streams(keys, book, trade, n - 1).push((book, keys[n - 1])).push((trade, keys[n - 1]))
    }
}

/// The symbols of instruments.
pub open spec fn symbols(ids: Seq<InstrumentId>) -> Seq<Seq<char>> {
    ids.map_values(|i: InstrumentId| i@.1)
}

/// The subscriptions to the books and trades of KRX instruments.
pub fn krx_subscriptions(ids: &[InstrumentId]) -> (r: Vec<Subscription>)
    ensures
        subscription_views(r@) == both_streams(symbols(ids@), ws::KRX_BOOK@, ws::KRX_TRADE@, ids@.len() as int),
{
    let mut out: Vec<Subscription> = Vec::new();
    let mut i: usize = 0;
    assert(subscription_views(out@) =~= Seq::empty());
    while i < ids.len()
        invariant
            i <= ids@.len(),
            subscription_views(out@) == both_streams(symbols(ids@), ws::KRX_BOOK@, ws::KRX_TRADE@, i as int),
        decreases ids@.len() - i,
    {
        assert(symbols(ids@)[i as int] == ids@[i as int]@.1);
        let ghost before = subscription_views(out@);
        out.push(Subscription { tr_id: ws::KRX_BOOK, tr_key: ids[i].symbol.clone() });
        out.push(Subscription { tr_id: ws::KRX_TRADE, tr_key: ids[i].symbol.clone() });
        assert(subscription_views(out@) =~= before.push((ws::KRX_BOOK@, symbols(ids@)[i as int])).push(
            (ws::KRX_TRADE@, symbols(ids@)[i as int]),
        ));
        i += 1;
    }
    out
}

/// The stream keys of the first `n` US instruments, or the first one whose exchange is not known.
pub open spec fn us_keys(ids: Seq<InstrumentId>, ex: Map<Seq<char>, Seq<char>>, n: int) -> Result<
    Seq<Seq<char>>,
    Seq<char>,
>
    decreases n,
{
    if n <= 0 {
        Ok(Seq::empty())
    } else {
        match us_keys(ids, ex, n - 1) {
            Err(m) => Err(m),
            Ok(s) => if ex.contains_key(ids[n - 1]@.1) {
                Ok(s.push(ws::us_key(ex[ids[n - 1]@.1], ids[n - 1]@.1)))
            } else {
                Err("no exchange known for "@ + id_text(ids[n - 1]@))
            },
        }
    }
}

proof fn lemma_keys_error(ids: Seq<InstrumentId>, ex: Map<Seq<char>, Seq<char>>, i: int, n: int)
    requires
        0 <= i <= n,
        us_keys(ids, ex, i) is Err,
    ensures
        us_keys(ids, ex, n) == us_keys(ids, ex, i),
    decreases n,
{
    if i < n {
        lemma_keys_error(ids, ex, i, n - 1);
    }
}

/// The subscriptions to the books and trades of US instruments.
pub fn us_subscriptions(ids: &[InstrumentId], exchanges: &Table<String, String>) -> (r: Result<
    Vec<Subscription>,
    String,
>)
    requires
        exchanges.wf(),
    ensures
        match us_keys(ids@, exchanges@, ids@.len() as int) {
            Ok(keys) => r matches Ok(v) && subscription_views(v@) == both_streams(
                keys,
                ws::US_BOOK@,
                ws::US_TRADE@,
                ids@.len() as int,
            ),
            Err(m) => r matches Err(e) && e@ == m,
        },
{
    let mut out: Vec<Subscription> = Vec::new();
    let ghost mut keys: Seq<Seq<char>> = Seq::empty();
    let mut i: usize = 0;
    assert(subscription_views(out@) =~= Seq::empty());
    while i < ids.len()
        invariant
            i <= ids@.len(),
            exchanges.wf(),
            keys.len() == i,
            us_keys(ids@, exchanges@, i as int) == Ok::<Seq<Seq<char>>, Seq<char>>(keys),
            subscription_views(out@) == both_streams(keys, ws::US_BOOK@, ws::US_TRADE@, i as int),
        decreases ids@.len() - i,
    {
        let excd = match exchange_of(exchanges, &ids[i]) {
            Ok(x) => x,
            Err(e) => {
                proof {
                    lemma_keys_error(ids@, exchanges@, i + 1, ids@.len() as int);
                }
                return Err(e);
            },
        };
        let key = ws::us_tr_key(excd.as_str(), ids[i].symbol.as_str());
        let ghost before = subscription_views(out@);
        let ghost kv = key@;
        proof {
            lemma_streams_prefix(keys, kv, ws::US_BOOK@, ws::US_TRADE@, i as int);
            keys = keys.push(kv);
        }
        out.push(Subscription { tr_id: ws::US_BOOK, tr_key: key.clone() });
        out.push(Subscription { tr_id: ws::US_TRADE, tr_key: key });
        assert(subscription_views(out@) =~= before.push((ws::US_BOOK@, kv)).push((ws::US_TRADE@, kv)));
        i += 1;
    }
    Ok(out)
}

proof fn lemma_streams_prefix(keys: Seq<Seq<char>>, k: Seq<char>, book: Seq<char>, trade: Seq<char>, n: int)
    requires
        0 <= n <= keys.len(),
    ensures
        both_streams(keys.push(k), book, trade, n) == both_streams(keys, book, trade, n),
    decreases n,
{
    if n > 0 {
        lemma_streams_prefix(keys, k, book, trade, n - 1);
    }
}

/// The events that records from index `i` on tell of.
pub open spec fn record_events(tr_id: Seq<char>, records: Seq<Seq<Seq<char>>>, now: Timestamp, i: int) -> Seq<EventView>
    decreases records.len() - i,
{
    if i >= records.len() {
        Seq::empty()
    } else {
        match ws::event_of(tr_id, records[i], now) {
            Some(e) => seq![e] + record_events(tr_id, records, now, i + 1),
            None => record_events(tr_id, records, now, i + 1),
        }
    }
}

/// Events as what they say.
pub open spec fn event_views(v: Seq<MarketEvent>) -> Seq<EventView> {
    v.map_values(|e: MarketEvent| e@)
}

/// What a stream does with a frame.
#[derive(Debug)]
pub enum StreamStep {
    /// Answers with a pong that carries the same payload.
    Reply(String),
    /// A subscription was refused.
    Refused(String, String),
    /// Hands out events.
    Events(Vec<MarketEvent>),
    /// Nothing.
    Skip,
}

/// Whether this is what a stream does with a readable frame.
pub open spec fn handles(r: StreamStep, f: ws::FrameView, now: Timestamp) -> bool {
    match f {
        ws::FrameView::Ping(raw) => r matches StreamStep::Reply(s) && s@ == raw,
        ws::FrameView::Ack(tr_id, ok, msg) => if ok {
            r is Skip
        } else {
            r matches StreamStep::Refused(a, b) && a@ == tr_id && b@ == msg
        },
        ws::FrameView::Data(tr_id, records) => r matches StreamStep::Events(v) && event_views(v@) == record_events(
            tr_id,
            records,
            now,
            0,
        ),
        ws::FrameView::Ignored => r is Skip,
    }
}

/// What a stream does with a readable frame. KIS PINGPONG frames are answered with a WebSocket pong
/// carrying the same payload.
pub fn frame_step(f: ws::Frame, now: Timestamp) -> (r: StreamStep)
    ensures
        handles(r, f@, now),
{
    match f {
        ws::Frame::Ping(raw) => StreamStep::Reply(raw),
        ws::Frame::Ack { tr_id, ok, msg } => if ok {
            StreamStep::Skip
        } else {
            StreamStep::Refused(tr_id, msg)
        },
        ws::Frame::Data { tr_id, records } => {
            let ghost views = ws::record_views(records@);
            let ghost whole = record_events(tr_id@, views, now, 0);
            let mut out: Vec<MarketEvent> = Vec::new();
            let mut i: usize = 0;
            assert(event_views(out@) + whole =~= whole);
            while i < records.len()
                invariant
                    i <= records@.len(),
                    views == ws::record_views(records@),
                    event_views(out@) + record_events(tr_id@, views, now, i as int) == whole,
                decreases records@.len() - i,
            {
                assert(views[i as int] == crate::text::texts(records@[i as int]@));
                let ghost before = event_views(out@);
                if let Some(e) = ws::record_event(tr_id.as_str(), &records[i], now) {
                    let ghost ev = e@;
                    out.push(e);
                    proof {
                        let more = record_events(tr_id@, views, now, i + 1);
                        assert(event_views(out@) =~= before.push(ev));
                        assert(before + (seq![ev] + more) =~= before.push(ev) + more);
                    }
                }
                i += 1;
            }
            assert(event_views(out@) + record_events(tr_id@, views, now, i as int) =~= event_views(out@));
            StreamStep::Events(out)
        },
        ws::Frame::Ignored => StreamStep::Skip,
    }
}

/// What a stream does with a text: unreadable frames are skipped.
pub fn text_step(text: &str, now: Timestamp) -> (r: StreamStep)
    ensures
        match ws::frame_of(text@) {
            Ok(f) => handles(r, f, now),
            Err(_) => r is Skip,
        },
{
    match ws::parse_frame(text) {
        Ok(f) => frame_step(f, now),
        Err(_) => StreamStep::Skip,
    }
}

/// Whichever token is used, it is good for ten more minutes and was issued for the key in use if it comes from
/// disk; and a new one is issued only where neither is.
pub proof fn law_tokens_are_good_for_ten_minutes(
    memory: Option<TokenView>,
    disk: Option<TokenView>,
    now: Timestamp,
    key: Seq<char>,
)
    ensures
        ({
            let margin = 10 * 60 * 1_000_000_000;
            match token_source(memory, disk, now, key) {
                TokenSource::Memory => memory matches Some(t) && t.expires_at.at() - now.at() > margin,
                TokenSource::Disk => disk matches Some(t) && t.expires_at.at() - now.at() >= margin && t.key == key,
                TokenSource::Issue => {
                    &&& memory matches Some(t) ==> t.expires_at.at() - now.at() <= margin
                    &&& disk matches Some(t) ==> t.expires_at.at() - now.at() < margin || t.key != key
                },
            }
        }),
{
}

/// A chart reaches back far enough: as many weeks as asked for, or the weeks of five trading days that hold as
/// many of them, and ten days more for holidays.
pub proof fn law_charts_reach_back_far_enough(limit: int)
    requires
        limit >= 0,
    ensures
        chart_days(Interval::W1, limit) == Some(limit * 7),
        chart_days(Interval::D1, limit) matches Some(d) && 7 * limit - 5 < 5 * (d - 10) <= 7 * limit,
{
}

} // verus!

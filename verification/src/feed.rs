//! Market data feeds. Each venue streams books and trades for a subscription set; the feed loop
//! keeps the stream alive across disconnects.
use crate::domain::{Book, BookView, Trade, TradeView};
use vstd::prelude::*;

pub mod binance;
pub mod kis;
pub mod upbit;

verus! {

#[derive(Debug)]
pub enum MarketEvent {
    Book(Book),
    Trade(Trade),
}

/// What a market event says.
pub ghost enum EventView {
    Book(BookView),
    Trade(TradeView),
}

impl View for MarketEvent {
    type V = EventView;

    open spec fn view(&self) -> EventView {
        match self {
            MarketEvent::Book(b) => EventView::Book(b@),
            MarketEvent::Trade(t) => EventView::Trade(t@),
        }
    }
}

/// An optional event as what it says.
pub open spec fn event_view(e: Option<MarketEvent>) -> Option<EventView> {
    match e {
        Some(e) => Some(e@),
        None => None,
    }
}

/// No data for this many seconds means the socket is dead.
pub const IDLE_TIMEOUT: u64 = 30;

/// How many seconds the subscription set must stay unchanged before the stream restarts with it.
pub const SETTLE: u64 = 1;

/// The shortest wait before a reconnect, in seconds; it doubles with every failure.
pub const FIRST_BACKOFF: u64 = 1;

/// The longest wait before a reconnect, in seconds.
pub const LAST_BACKOFF: u64 = 60;

/// A stream that lasted longer than this many nanoseconds starts the waits over.
pub const STEADY_NANOS: u64 = 60_000_000_000;

/// What the loop does next.
#[derive(Debug, Clone, Copy, PartialEq, Eq, Structural)]
pub enum FeedAction {
    /// Wait until the subscription set changes.
    Idle,
    /// Stream what is subscribed.
    Stream,
    /// Wait until the subscription set has been quiet for `SETTLE`.
    Settle,
    /// Wait for some nanoseconds, or until the subscription set changes.
    Sleep(u64),
    Stop,
}

/// What happened to what the loop did.
#[derive(Debug, Clone, Copy, PartialEq, Eq, Structural)]
pub enum FeedEvent {
    /// The subscription set changed.
    Changed,
    /// Nobody can change the subscription set any more.
    Gone,
    /// The stream ended after some nanoseconds; `closed` says that nobody listens any more.
    Ended { nanos: u64, closed: bool },
    /// The wait is over.
    Waited,
}

/// The loop that keeps a feed streaming whatever is subscribed. A changed set restarts the stream
/// once it has settled, so a burst of changes costs one reconnect. Drops reconnect with capped
/// exponential backoff, which a set change cuts short.
#[derive(Debug, Clone, Copy, PartialEq, Eq, Structural)]
pub struct FeedLoop {
    pub doing: FeedAction,
    pub backoff: u64,
}

/// Up to a quarter of `base` seconds, in nanoseconds, from the nanoseconds of a clock, so that
/// reconnecting clients do not stampede together.
pub open spec fn jitter_of(base: int, nanos: int) -> int {
    base * (nanos % 1000) * 250_000
}

/// Up to +25% of `base` seconds, in nanoseconds.
pub fn jitter(base: u64, nanos: u32) -> (r: u64)
    requires
        base <= LAST_BACKOFF,
    ensures
        r == jitter_of(base as int, nanos as int),
        r <= base * 250_000_000,
{
    let k = (nanos % 1000) as u64;
    assert(0 <= base * k <= base * 1000) by (nonlinear_arith)
        requires
            0 <= k <= 1000,
            base <= 60,
    ;
    assert(base * 1000 <= 60_000);
    base * k * 250_000
}

impl FeedLoop {
    /// The waits are within their limits.
    pub open spec fn wf(self) -> bool {
        FIRST_BACKOFF <= self.backoff <= LAST_BACKOFF
    }

    /// What a loop does first: stream, if anything is subscribed.
    pub open spec fn begun(empty: bool) -> FeedAction {
        if empty {
            FeedAction::Idle
        } else {
            FeedAction::Stream
        }
    }

    /// The wait that a stream of some length leaves, in seconds.
    pub open spec fn pause(self, nanos: u64) -> int {
        if nanos > STEADY_NANOS {
            FIRST_BACKOFF as int
        } else {
            self.backoff as int
        }
    }

    /// The loop after an event; `empty` says whether nothing is subscribed, `clock` is the
    /// nanoseconds of a clock.
    pub open spec fn next(self, e: FeedEvent, empty: bool, clock: u32) -> FeedLoop {
        let doing = match (self.doing, e) {
            (FeedAction::Stop, _) => FeedAction::Stop,
            (_, FeedEvent::Gone) => FeedAction::Stop,
            (FeedAction::Idle, FeedEvent::Changed) => FeedLoop::begun(empty),
            (_, FeedEvent::Changed) => FeedAction::Settle,
            (FeedAction::Stream, FeedEvent::Ended { nanos, closed }) => if closed {
                FeedAction::Stop
            } else {
                let base = self.pause(nanos);
                FeedAction::Sleep((base * 1_000_000_000 + jitter_of(base, clock as int)) as u64)
            },
            (FeedAction::Settle, FeedEvent::Waited) => FeedLoop::begun(empty),
            (FeedAction::Sleep(_), FeedEvent::Waited) => FeedLoop::begun(empty),
            (doing, _) => doing,
        };
        let backoff = match (self.doing, e) {
            (FeedAction::Stream, FeedEvent::Ended { nanos, closed }) => if closed {
                self.backoff
            } else if 2 * self.pause(nanos) > LAST_BACKOFF {
                LAST_BACKOFF
            } else {
                (2 * self.pause(nanos)) as u64
            },
            _ => self.backoff,
        };
        FeedLoop { doing, backoff }
    }

    /// A loop that begins with what is subscribed.
    pub fn new(empty: bool) -> (l: FeedLoop)
        ensures
            l.wf(),
            l == (FeedLoop { doing: FeedLoop::begun(empty), backoff: FIRST_BACKOFF }),
    {
        FeedLoop { doing: if empty {
            FeedAction::Idle
        } else {
            FeedAction::Stream
        }, backoff: FIRST_BACKOFF }
    }

    /// Takes an event and says what to do next.
    pub fn step(&mut self, e: FeedEvent, empty: bool, clock: u32) -> (a: FeedAction)
        requires
            old(self).wf(),
        ensures
            final(self).wf(),
            *final(self) == old(self).next(e, empty, clock),
            a == final(self).doing,
    {
        let start = if empty {
            FeedAction::Idle
        } else {
            FeedAction::Stream
        };
        match (self.doing, e) {
            (FeedAction::Stop, _) => {},
            (_, FeedEvent::Gone) => {
                self.doing = FeedAction::Stop;
            },
            (FeedAction::Idle, FeedEvent::Changed) => {
                self.doing = start;
            },
            (_, FeedEvent::Changed) => {
                self.doing = FeedAction::Settle;
            },
            (FeedAction::Stream, FeedEvent::Ended { nanos, closed }) => {
                if closed {
                    self.doing = FeedAction::Stop;
                } else {
                    let base: u64 = if nanos > STEADY_NANOS {
                        FIRST_BACKOFF
                    } else {
                        self.backoff
                    };
                    self.doing = FeedAction::Sleep(base * 1_000_000_000 + jitter(base, clock));
                    self.backoff = if 2 * base > LAST_BACKOFF {
                        LAST_BACKOFF
                    } else {
                        2 * base
                    };
                }
            },
            (FeedAction::Settle, FeedEvent::Waited) => {
                self.doing = start;
            },
            (FeedAction::Sleep(_), FeedEvent::Waited) => {
                self.doing = start;
            },
            _ => {},
        }
        self.doing
    }
}

/// A changed set never restarts a running stream or a waiting loop at once: it settles first. And
/// a loop that stopped stays stopped.
pub proof fn law_changes_settle_first(l: FeedLoop, empty: bool, clock: u32)
    requires
        l.wf(),
    ensures
        l.doing is Stream || l.doing is Sleep || l.doing is Settle ==> l.next(FeedEvent::Changed, empty, clock).doing
            == FeedAction::Settle,
        l.next(FeedEvent::Gone, empty, clock).doing == FeedAction::Stop,
        forall|e: FeedEvent| l.doing is Stop ==> #[trigger] l.next(e, empty, clock).doing == FeedAction::Stop,
{
}

/// The wait before a reconnect is from one second to a minute and a quarter, and never shorter
/// than the one before, but after a steady stream.
pub proof fn law_waits_are_capped(l: FeedLoop, nanos: u64, empty: bool, clock: u32)
    requires
        l.wf(),
        l.doing is Stream,
    ensures
        l.next(FeedEvent::Ended { nanos, closed: false }, empty, clock).doing matches FeedAction::Sleep(n)
            && 1_000_000_000 <= n <= 75_000_000_000,
        nanos <= STEADY_NANOS ==> l.next(FeedEvent::Ended { nanos, closed: false }, empty, clock).backoff >= l.backoff,
        nanos > STEADY_NANOS ==> l.next(FeedEvent::Ended { nanos, closed: false }, empty, clock).backoff == 2,
{
    let base = l.pause(nanos);
    let k = clock as int % 1000;
    assert(0 <= base * k <= base * 1000) by (nonlinear_arith)
        requires
            0 <= k <= 1000,
            0 <= base,
    ;
}

/// A dropped stream is waited for as long as the wait stands, and up to a quarter more; then the wait
/// doubles, up to a minute. A stream that held for more than a minute starts the waits over at one second.
/// What is subscribed is streamed after every wait, and nothing is while nothing is.
pub proof fn law_waits_double(l: FeedLoop, nanos: u64, empty: bool, clock: u32)
    requires
        l.wf(),
    ensures
        l.doing is Stream ==> {
            let base: int = if nanos > 60 * 1_000_000_000 {
                1
            } else {
                l.backoff as int
            };
            let after = l.next(FeedEvent::Ended { nanos, closed: false }, empty, clock);
            &&& after.doing matches FeedAction::Sleep(n) && base * 1_000_000_000 <= n <= base * 1_250_000_000
            &&& after.backoff == if 2 * base > 60 {
                60
            } else {
                2 * base
            }
            &&& l.next(FeedEvent::Ended { nanos, closed: true }, empty, clock).doing == FeedAction::Stop
        },
        l.doing is Sleep || l.doing is Settle ==> l.next(FeedEvent::Waited, empty, clock).doing == if empty {
            FeedAction::Idle
        } else {
            FeedAction::Stream
        },
        l.doing is Idle ==> l.next(FeedEvent::Changed, empty, clock).doing == if empty {
            FeedAction::Idle
        } else {
            FeedAction::Stream
        },
{
    let base = l.pause(nanos);
    let k = clock as int % 1000;
    assert(0 <= base * k <= base * 1000) by (nonlinear_arith)
        requires
            0 <= k <= 1000,
            0 <= base,
    ;
}

} // verus!

//! Agent-defined alerts: conditions, and what is said when one fires.
use crate::decimal::Decimal;
use crate::domain::{InstrumentId, Venue};
use crate::text::same_text;
use crate::time::Timestamp;
use vstd::prelude::*;

pub mod briefing;
pub mod deliver;
pub mod fire;
pub mod pace;
pub mod watch;

verus! {

#[derive(Debug)]
pub enum Condition {
    PriceAbove { id: InstrumentId, price: Decimal },
    PriceBelow { id: InstrumentId, price: Decimal },
    /// Absolute % change over the window.
    Move { id: InstrumentId, pct: Decimal, window_minutes: u32 },
    /// Traded value in the window versus the average-day pace.
    VolumeSurge { id: InstrumentId, factor: Decimal, window_minutes: u32 },
    OrderFilled { id: Option<InstrumentId> },
    SessionOpen { venue: Venue },
    SessionClose { venue: Venue },
}

/// What a condition says.
pub ghost enum ConditionView {
    PriceAbove { id: (Venue, Seq<char>), price: Decimal },
    PriceBelow { id: (Venue, Seq<char>), price: Decimal },
    Move { id: (Venue, Seq<char>), pct: Decimal, window_minutes: u32 },
    VolumeSurge { id: (Venue, Seq<char>), factor: Decimal, window_minutes: u32 },
    OrderFilled { id: Option<(Venue, Seq<char>)> },
    SessionOpen { venue: Venue },
    SessionClose { venue: Venue },
}

/// An optional instrument as what it is.
pub open spec fn id_view(id: Option<InstrumentId>) -> Option<(Venue, Seq<char>)> {
    match id {
        Some(i) => Some(i@),
        None => None,
    }
}

impl View for Condition {
    type V = ConditionView;

    open spec fn view(&self) -> ConditionView {
        match *self {
            Condition::PriceAbove { id, price } => ConditionView::PriceAbove { id: id@, price },
            Condition::PriceBelow { id, price } => ConditionView::PriceBelow { id: id@, price },
            Condition::Move { id, pct, window_minutes } => ConditionView::Move { id: id@, pct, window_minutes },
            Condition::VolumeSurge { id, factor, window_minutes } => ConditionView::VolumeSurge {
                id: id@,
                factor,
                window_minutes,
            },
            Condition::OrderFilled { id } => ConditionView::OrderFilled { id: id_view(id) },
            Condition::SessionOpen { venue } => ConditionView::SessionOpen { venue },
            Condition::SessionClose { venue } => ConditionView::SessionClose { venue },
        }
    }
}

impl ConditionView {
    /// The kind of a condition.
    pub open spec fn kind_text(self) -> Seq<char> {
        match self {
            ConditionView::PriceAbove { .. } => "price_above"@,
            ConditionView::PriceBelow { .. } => "price_below"@,
            ConditionView::Move { .. } => "move"@,
            ConditionView::VolumeSurge { .. } => "volume_surge"@,
            ConditionView::OrderFilled { .. } => "order_filled"@,
            ConditionView::SessionOpen { .. } => "session_open"@,
            ConditionView::SessionClose { .. } => "session_close"@,
        }
    }

    /// The instrument that a condition is about.
    pub open spec fn about(self) -> Option<(Venue, Seq<char>)> {
        match self {
            ConditionView::PriceAbove { id, .. } => Some(id),
            ConditionView::PriceBelow { id, .. } => Some(id),
            ConditionView::Move { id, .. } => Some(id),
            ConditionView::VolumeSurge { id, .. } => Some(id),
            ConditionView::OrderFilled { id } => id,
            _ => None,
        }
    }

    /// The venue that a condition is about.
    pub open spec fn at_venue(self) -> Option<Venue> {
        match self {
            ConditionView::SessionOpen { venue } => Some(venue),
            ConditionView::SessionClose { venue } => Some(venue),
            _ => None,
        }
    }

    /// What a condition compares with.
    pub open spec fn limit(self) -> Option<Decimal> {
        match self {
            ConditionView::PriceAbove { price, .. } => Some(price),
            ConditionView::PriceBelow { price, .. } => Some(price),
            ConditionView::Move { pct, .. } => Some(pct),
            ConditionView::VolumeSurge { factor, .. } => Some(factor),
            _ => None,
        }
    }

    /// How far back a condition looks.
    pub open spec fn window(self) -> Option<u32> {
        match self {
            ConditionView::Move { window_minutes, .. } => Some(window_minutes),
            ConditionView::VolumeSurge { window_minutes, .. } => Some(window_minutes),
            _ => None,
        }
    }
}

/// The condition that stored columns tell of.
pub open spec fn condition_of(
    kind: Seq<char>,
    instrument: Option<(Venue, Seq<char>)>,
    venue: Option<Venue>,
    threshold: Option<Decimal>,
    window: Option<u32>,
) -> Option<ConditionView> {
    if kind == "price_above"@ {
        match (instrument, threshold) {
            (Some(id), Some(price)) => Some(ConditionView::PriceAbove { id, price }),
            _ => None,
        }
    } else if kind == "price_below"@ {
        match (instrument, threshold) {
            (Some(id), Some(price)) => Some(ConditionView::PriceBelow { id, price }),
            _ => None,
        }
    } else if kind == "move"@ {
        match (instrument, threshold, window) {
            (Some(id), Some(pct), Some(window_minutes)) => Some(ConditionView::Move { id, pct, window_minutes }),
            _ => None,
        }
    } else if kind == "volume_surge"@ {
        match (instrument, threshold, window) {
            (Some(id), Some(factor), Some(window_minutes)) => Some(
                ConditionView::VolumeSurge { id, factor, window_minutes },
            ),
            _ => None,
        }
    } else if kind == "order_filled"@ {
        Some(ConditionView::OrderFilled { id: instrument })
    } else if kind == "session_open"@ {
        match venue {
            Some(venue) => Some(ConditionView::SessionOpen { venue }),
            None => None,
        }
    } else if kind == "session_close"@ {
        match venue {
            Some(venue) => Some(ConditionView::SessionClose { venue }),
            None => None,
        }
    } else {
        None
    }
}

impl Condition {
    pub fn kind(&self) -> (r: &'static str)
        ensures
            r@ == self@.kind_text(),
    {
        match self {
            Condition::PriceAbove { .. } => "price_above",
            Condition::PriceBelow { .. } => "price_below",
            Condition::Move { .. } => "move",
            Condition::VolumeSurge { .. } => "volume_surge",
            Condition::OrderFilled { .. } => "order_filled",
            Condition::SessionOpen { .. } => "session_open",
            Condition::SessionClose { .. } => "session_close",
        }
    }

    pub fn instrument<'a>(&'a self) -> (r: Option<&'a InstrumentId>)
        ensures
            match self@.about() {
                Some(id) => r is Some && (r->0)@ == id,
                None => r is None,
            },
    {
        match self {
            Condition::PriceAbove { id, .. } => Some(id),
            Condition::PriceBelow { id, .. } => Some(id),
            Condition::Move { id, .. } => Some(id),
            Condition::VolumeSurge { id, .. } => Some(id),
            Condition::OrderFilled { id } => match id {
                Some(i) => Some(i),
                None => None,
            },
            _ => None,
        }
    }

    pub fn venue(&self) -> (r: Option<Venue>)
        ensures
            r == self@.at_venue(),
    {
        match self {
            Condition::SessionOpen { venue } => Some(*venue),
            Condition::SessionClose { venue } => Some(*venue),
            _ => None,
        }
    }

    pub fn threshold(&self) -> (r: Option<Decimal>)
        ensures
            r == self@.limit(),
    {
        match self {
            Condition::PriceAbove { price, .. } => Some(*price),
            Condition::PriceBelow { price, .. } => Some(*price),
            Condition::Move { pct, .. } => Some(*pct),
            Condition::VolumeSurge { factor, .. } => Some(*factor),
            _ => None,
        }
    }

    pub fn window_minutes(&self) -> (r: Option<u32>)
        ensures
            r == self@.window(),
    {
        match self {
            Condition::Move { window_minutes, .. } => Some(*window_minutes),
            Condition::VolumeSurge { window_minutes, .. } => Some(*window_minutes),
            _ => None,
        }
    }

    /// Rebuild from stored columns.
    pub fn from_parts(
        kind: &str,
        instrument: Option<InstrumentId>,
        venue: Option<Venue>,
        threshold: Option<Decimal>,
        window: Option<u32>,
    ) -> (r: Option<Condition>)
        ensures
            match condition_of(kind@, id_view(instrument), venue, threshold, window) {
                Some(c) => r matches Some(x) && x@ == c,
                None => r is None,
            },
    {
        if same_text(kind, "price_above") {
            match (instrument, threshold) {
                (Some(id), Some(price)) => Some(Condition::PriceAbove { id, price }),
                _ => None,
            }
        } else if same_text(kind, "price_below") {
            match (instrument, threshold) {
                (Some(id), Some(price)) => Some(Condition::PriceBelow { id, price }),
                _ => None,
            }
        } else if same_text(kind, "move") {
            match (instrument, threshold, window) {
                (Some(id), Some(pct), Some(window_minutes)) => Some(Condition::Move { id, pct, window_minutes }),
                _ => None,
            }
        } else if same_text(kind, "volume_surge") {
            match (instrument, threshold, window) {
                (Some(id), Some(factor), Some(window_minutes)) => Some(
                    Condition::VolumeSurge { id, factor, window_minutes },
                ),
                _ => None,
            }
        } else if same_text(kind, "order_filled") {
            Some(Condition::OrderFilled { id: instrument })
        } else if same_text(kind, "session_open") {
            match venue {
                Some(venue) => Some(Condition::SessionOpen { venue }),
                None => None,
            }
        } else if same_text(kind, "session_close") {
            match venue {
                Some(venue) => Some(Condition::SessionClose { venue }),
                None => None,
            }
        } else {
            None
        }
    }
}

/// A stored condition is read back as it was.
pub proof fn law_conditions_read_back(c: ConditionView)
    ensures
        condition_of(c.kind_text(), c.about(), c.at_venue(), c.limit(), c.window()) == Some(c),
{
    reveal_strlit("price_above");
    reveal_strlit("price_below");
    reveal_strlit("move");
    reveal_strlit("volume_surge");
    reveal_strlit("order_filled");
    reveal_strlit("session_open");
    reveal_strlit("session_close");
    assert("price_above"@.len() == 11 && "price_below"@.len() == 11 && "move"@.len() == 4);
    assert("volume_surge"@.len() == 12 && "order_filled"@.len() == 12 && "session_open"@.len() == 12);
    assert("session_close"@.len() == 13);
    assert("price_above"@[6] == 'a' && "price_below"@[6] == 'b');
    assert("volume_surge"@[0] == 'v' && "order_filled"@[0] == 'o' && "session_open"@[0] == 's');
}

#[derive(Debug)]
pub struct Alert {
    pub id: i64,
    pub account: String,
    pub generation: i32,
    pub condition: Condition,
    pub note: String,
    pub once: bool,
    pub created_at: Timestamp,
    pub last_fired_at: Option<Timestamp>,
}

/// What an alert holds.
pub ghost struct AlertState {
    pub id: i64,
    pub account: Seq<char>,
    pub generation: i32,
    pub condition: ConditionView,
    pub note: Seq<char>,
    pub once: bool,
    pub created_at: Timestamp,
    pub last_fired_at: Option<Timestamp>,
}

impl View for Alert {
    type V = AlertState;

    open spec fn view(&self) -> AlertState {
        AlertState {
            id: self.id,
            account: self.account@,
            generation: self.generation,
            condition: self.condition@,
            note: self.note@,
            once: self.once,
            created_at: self.created_at,
            last_fired_at: self.last_fired_at,
        }
    }
}

} // verus!

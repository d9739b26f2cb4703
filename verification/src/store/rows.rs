//! Orders and fills as rows of the database, and back.
use crate::broker::{Fill, FillView, Liquidity, Order, OrderRequest, OrderStatus, OrderType, OrderView, RequestView, Tif};
use crate::decimal::Decimal;
use crate::domain::{id_parsed, id_text, law_id_reads_back, law_sides, InstrumentId, Side};
use crate::sim::Size;
use crate::store::{law_codes_read_back, size_columns};
use crate::text::join_text;
use crate::time::Timestamp;
use vstd::prelude::*;

verus! {

/// An order as it is stored.
#[derive(Debug)]
pub struct OrderRow {
    pub id: i64,
    pub account: String,
    pub instrument: String,
    pub side: String,
    pub kind: String,
    pub qty: Option<Decimal>,
    pub notional: Option<Decimal>,
    pub limit_price: Option<Decimal>,
    pub tif: String,
    pub reason: String,
    pub status: String,
    pub filled_qty: Decimal,
    pub filled_notional: Decimal,
    pub created_at: Timestamp,
}

/// What a stored order says.
pub ghost struct OrderRowView {
    pub id: i64,
    pub account: Seq<char>,
    pub instrument: Seq<char>,
    pub side: Seq<char>,
    pub kind: Seq<char>,
    pub qty: Option<Decimal>,
    pub notional: Option<Decimal>,
    pub limit_price: Option<Decimal>,
    pub tif: Seq<char>,
    pub reason: Seq<char>,
    pub status: Seq<char>,
    pub filled_qty: Decimal,
    pub filled_notional: Decimal,
    pub created_at: Timestamp,
}

impl View for OrderRow {
    type V = OrderRowView;

    open spec fn view(&self) -> OrderRowView {
        OrderRowView {
            id: self.id,
            account: self.account@,
            instrument: self.instrument@,
            side: self.side@,
            kind: self.kind@,
            qty: self.qty,
            notional: self.notional,
            limit_price: self.limit_price,
            tif: self.tif@,
            reason: self.reason@,
            status: self.status@,
            filled_qty: self.filled_qty,
            filled_notional: self.filled_notional,
            created_at: self.created_at,
        }
    }
}

/// The two size columns: quantity and money amount.
pub open spec fn columns_of(size: Size) -> (Option<Decimal>, Option<Decimal>) {
    match size {
        Size::Qty(q) => (Some(q), None),
        Size::Notional(n) => (None, Some(n)),
    }
}

/// The size that two columns hold: a quantity comes before a money amount.
pub open spec fn size_of(qty: Option<Decimal>, notional: Option<Decimal>) -> Option<Size> {
    match (qty, notional) {
        (Some(q), _) => Some(Size::Qty(q)),
        (None, Some(n)) => Some(Size::Notional(n)),
        (None, None) => None,
    }
}

/// An order as a row. The id is a number of the database: `None` where it does not fit.
pub open spec fn row_of(o: OrderView) -> Option<OrderRowView> {
    if o.id > i64::MAX {
        None
    } else {
        Some(
            OrderRowView {
                id: o.id as i64,
                account: o.account,
                instrument: id_text(o.req.instrument),
                side: o.req.side.code_text(),
                kind: o.req.kind.code_text(),
                qty: columns_of(o.req.size).0,
                notional: columns_of(o.req.size).1,
                limit_price: o.req.limit_price,
                tif: o.req.tif.code_text(),
                reason: o.req.reason,
                status: o.status.code_text(),
                filled_qty: o.filled_qty,
                filled_notional: o.filled_notional,
                created_at: o.created_at,
            },
        )
    }
}

/// Writes an order as a row.
pub fn order_row(o: &Order) -> (r: Option<OrderRow>)
    ensures
        match row_of(o@) {
            Some(v) => r matches Some(x) && x@ == v,
            None => r is None,
        },
{
    if o.id > i64::MAX as u64 {
        return None;
    }
    let (qty, notional) = size_columns(o.req.size);
    Some(
        OrderRow {
            id: o.id as i64,
            account: o.account.clone(),
            instrument: o.req.instrument.to_text(),
            side: o.req.side.code().to_owned(),
            kind: o.req.kind.code().to_owned(),
            qty,
            notional,
            limit_price: o.req.limit_price,
            tif: o.req.tif.code().to_owned(),
            reason: o.req.reason.clone(),
            status: o.status.code().to_owned(),
            filled_qty: o.filled_qty,
            filled_notional: o.filled_notional,
            created_at: o.created_at,
        },
    )
}

/// The order that a row holds, or what is wrong with the row.
pub open spec fn order_of(r: OrderRowView) -> Result<OrderView, Seq<char>> {
    match id_parsed(r.instrument) {
        Err(m) => Err(m),
        Ok(instrument) => match (Side::coded(r.side), OrderType::coded(r.kind), Tif::coded(r.tif)) {
            (None, _, _) => Err("unknown side "@ + r.side),
            (_, None, _) => Err("unknown order type "@ + r.kind),
            (_, _, None) => Err("unknown time in force "@ + r.tif),
            (Some(side), Some(kind), Some(tif)) => match (OrderStatus::coded(r.status), size_of(r.qty, r.notional)) {
                (None, _) => Err("unknown status "@ + r.status),
                (_, None) => Err("an order without a size"@),
                (Some(status), Some(size)) => if r.id < 0 {
                    Err("a negative order id"@)
                } else {
                    Ok(
                        OrderView {
                            id: r.id as u64,
                            account: r.account,
                            req: RequestView {
                                instrument,
                                side,
                                kind,
                                size,
                                limit_price: r.limit_price,
                                tif,
                                reason: r.reason,
                            },
                            status,
                            filled_qty: r.filled_qty,
                            filled_notional: r.filled_notional,
                            created_at: r.created_at,
                        },
                    )
                },
            },
        },
    }
}

/// Reads an order from a row.
pub fn read_order(r: OrderRow) -> (o: Result<Order, String>)
    ensures
        match order_of(r@) {
            Ok(v) => o matches Ok(x) && x@ == v,
            Err(m) => o matches Err(x) && x@ == m,
        },
{
    let instrument = match InstrumentId::parse(r.instrument.as_str()) {
        Ok(i) => i,
        Err(m) => {
            return Err(m);
        },
    };
    let side = match Side::from_code(r.side.as_str()) {
        Some(s) => s,
        None => {
            return Err(join_text("unknown side ", r.side.as_str()));
        },
    };
    let kind = match OrderType::from_code(r.kind.as_str()) {
        Some(k) => k,
        None => {
            return Err(join_text("unknown order type ", r.kind.as_str()));
        },
    };
    let tif = match Tif::from_code(r.tif.as_str()) {
        Some(t) => t,
        None => {
            return Err(join_text("unknown time in force ", r.tif.as_str()));
        },
    };
    let status = match OrderStatus::from_code(r.status.as_str()) {
        Some(s) => s,
        None => {
            return Err(join_text("unknown status ", r.status.as_str()));
        },
    };
    let size = match (r.qty, r.notional) {
        (Some(q), _) => Size::Qty(q),
        (None, Some(n)) => Size::Notional(n),
        (None, None) => {
            return Err("an order without a size".to_owned());
        },
    };
    if r.id < 0 {
        return Err("a negative order id".to_owned());
    }
    let req = OrderRequest { instrument, side, kind, size, limit_price: r.limit_price, tif, reason: r.reason };
    Ok(
        Order {
            id: r.id as u64,
            account: r.account,
            req,
            status,
            filled_qty: r.filled_qty,
            filled_notional: r.filled_notional,
            created_at: r.created_at,
        },
    )
}

/// An order that is written as a row is read back as it was.
pub proof fn law_orders_read_back(o: OrderView)
    requires
        o.id <= i64::MAX,
        o.req.instrument.1.len() > 0,
    ensures
        row_of(o) is Some,
        order_of(row_of(o)->0) == Ok::<OrderView, Seq<char>>(o),
{
    law_id_reads_back(o.req.instrument);
    law_sides(o.req.side, o.req.side.code_text());
    law_codes_read_back(o.req.kind, o.req.tif, o.status, Liquidity::Taker);
}

/// A fill as it is stored.
#[derive(Debug)]
pub struct StoredFill {
    pub order_id: i64,
    pub account: String,
    pub instrument: String,
    pub side: String,
    pub qty: Decimal,
    pub notional: Decimal,
    pub price: Decimal,
    pub fee: Decimal,
    pub tax: Decimal,
    pub realized_pnl: Option<Decimal>,
    pub liquidity: String,
    pub at: Timestamp,
}

/// What a stored fill says.
pub ghost struct StoredFillView {
    pub order_id: i64,
    pub account: Seq<char>,
    pub instrument: Seq<char>,
    pub side: Seq<char>,
    pub qty: Decimal,
    pub notional: Decimal,
    pub price: Decimal,
    pub fee: Decimal,
    pub tax: Decimal,
    pub realized_pnl: Option<Decimal>,
    pub liquidity: Seq<char>,
    pub at: Timestamp,
}

impl View for StoredFill {
    type V = StoredFillView;

    open spec fn view(&self) -> StoredFillView {
        StoredFillView {
            order_id: self.order_id,
            account: self.account@,
            instrument: self.instrument@,
            side: self.side@,
            qty: self.qty,
            notional: self.notional,
            price: self.price,
            fee: self.fee,
            tax: self.tax,
            realized_pnl: self.realized_pnl,
            liquidity: self.liquidity@,
            at: self.at,
        }
    }
}

/// A fill as a row; `None` where the id of its order does not fit.
pub open spec fn fill_row_of(f: FillView) -> Option<StoredFillView> {
    if f.order_id > i64::MAX {
        None
    } else {
        Some(
            StoredFillView {
                order_id: f.order_id as i64,
                account: f.account,
                instrument: id_text(f.instrument),
                side: f.side.code_text(),
                qty: f.qty,
                notional: f.notional,
                price: f.price,
                fee: f.fee,
                tax: f.tax,
                realized_pnl: f.realized_pnl,
                liquidity: f.liquidity.code_text(),
                at: f.at,
            },
        )
    }
}

/// Writes a fill as a row.
pub fn fill_row(f: &Fill) -> (r: Option<StoredFill>)
    ensures
        match fill_row_of(f@) {
            Some(v) => r matches Some(x) && x@ == v,
            None => r is None,
        },
{
    if f.order_id > i64::MAX as u64 {
        return None;
    }
    Some(
        StoredFill {
            order_id: f.order_id as i64,
            account: f.account.clone(),
            instrument: f.instrument.to_text(),
            side: f.side.code().to_owned(),
            qty: f.qty,
            notional: f.notional,
            price: f.price,
            fee: f.fee,
            tax: f.tax,
            realized_pnl: f.realized_pnl,
            liquidity: f.liquidity.code().to_owned(),
            at: f.at,
        },
    )
}

/// The fill that a row holds, or what is wrong with the row.
pub open spec fn fill_of(r: StoredFillView) -> Result<FillView, Seq<char>> {
    match id_parsed(r.instrument) {
        Err(m) => Err(m),
        Ok(instrument) => match (Side::coded(r.side), Liquidity::coded(r.liquidity)) {
            (None, _) => Err("unknown side "@ + r.side),
            (_, None) => Err("unknown liquidity "@ + r.liquidity),
            (Some(side), Some(liquidity)) => if r.order_id < 0 {
                Err("a negative order id"@)
            } else {
                Ok(
                    FillView {
                        order_id: r.order_id as u64,
                        account: r.account,
                        instrument,
                        side,
                        qty: r.qty,
                        notional: r.notional,
                        price: r.price,
                        fee: r.fee,
                        tax: r.tax,
                        realized_pnl: r.realized_pnl,
                        liquidity,
                        at: r.at,
                    },
                )
            },
        },
    }
}

/// Reads a fill from a row.
pub fn read_fill(r: StoredFill) -> (f: Result<Fill, String>)
    ensures
        match fill_of(r@) {
            Ok(v) => f matches Ok(x) && x@ == v,
            Err(m) => f matches Err(x) && x@ == m,
        },
{
    let instrument = match InstrumentId::parse(r.instrument.as_str()) {
        Ok(i) => i,
        Err(m) => {
            return Err(m);
        },
    };
    let side = match Side::from_code(r.side.as_str()) {
        Some(s) => s,
        None => {
            return Err(join_text("unknown side ", r.side.as_str()));
        },
    };
    let liquidity = match Liquidity::from_code(r.liquidity.as_str()) {
        Some(l) => l,
        None => {
            return Err(join_text("unknown liquidity ", r.liquidity.as_str()));
        },
    };
    if r.order_id < 0 {
        return Err("a negative order id".to_owned());
    }
    Ok(
        Fill {
            order_id: r.order_id as u64,
            account: r.account,
            instrument,
            side,
            qty: r.qty,
            notional: r.notional,
            price: r.price,
            fee: r.fee,
            tax: r.tax,
            realized_pnl: r.realized_pnl,
            liquidity,
            at: r.at,
        },
    )
}

/// A fill that is written as a row is read back as it was.
pub proof fn law_fills_read_back(f: FillView)
    requires
        f.order_id <= i64::MAX,
        f.instrument.1.len() > 0,
    ensures
        fill_row_of(f) is Some,
        fill_of(fill_row_of(f)->0) == Ok::<FillView, Seq<char>>(f),
{
    law_id_reads_back(f.instrument);
    law_sides(f.side, f.side.code_text());
    law_codes_read_back(OrderType::Market, Tif::Day, OrderStatus::Open, f.liquidity);
}

} // verus!

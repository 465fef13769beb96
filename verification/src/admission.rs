use vstd::prelude::*;

use crate::book::model::{
    book_inv, book_volume, crossing_fn, get_spec, has_id, lemma_index_of_id, lemma_sum_elem, locate, reserve_spec, sum_by,
    vol_fn, BookEntry, BookModel,
};
use crate::book::accounts::state_of;
use crate::engine::{drive_final, drive_run};
use crate::mirror::lemma_drive_trace;
use crate::types::TimeInForce;
use crate::clob::{submit_spec, ClobModel};
use crate::error::RejectReason;
use crate::order::{Command, ModifyOrder, NewOrder};
use crate::output::Event;
use crate::risk::RiskConfig;
use crate::types::{OrderType, Price, Side};

verus! {

/// With both sides of `b` quoted, `price` lies more than `band_ticks` ticks (a tick of at
/// least one) away from the mid, the rounded-down average of the best bid and the best ask.
pub open spec fn outside_band(b: BookModel, risk: RiskConfig, price: Price) -> bool {
    let mid = (b.bids[0].order.price + b.asks[0].order.price) / 2;
    let offset = risk.band_ticks * (if risk.tick_size > 1 { risk.tick_size as int } else { 1int });
    price + offset < mid || price > mid + offset
}

/// The order with id `b.side(side)[i].order.id` is found at place `i` of `side`.
proof fn lemma_locate_at(b: BookModel, side: Side, i: int)
    requires
        book_inv(b),
        0 <= i < b.side(side).len(),
    ensures
        locate(b, b.side(side)[i].order.id) == Some((side, i)),
{
    let s = b.side(side);
    let id = s[i].order.id;
    lemma_index_of_id(s, i);
    if side == Side::Sell {
        assert(!has_id(b.bids, id)) by {
            if has_id(b.bids, id) {
                let j = choose|j: int| 0 <= j < b.bids.len() && b.bids[j].order.id == id;
                assert(b.bids[j].order.id != b.asks[i].order.id);
            }
        }
    }
}

/// Price band law, new orders: on a venue with a price band and both sides quoted, a new
/// limit or iceberg order that is well formed, on its lot and tick, and priced outside the
/// band around the mid is rejected for the band, and nothing in the book changes.
pub proof fn lemma_band_rejects_new(c: ClobModel, order: NewOrder)
    requires
        c.risk.band_ticks > 0,
        c.engine.book.bids.len() > 0,
        c.engine.book.asks.len() > 0,
        order.order_type is Limit || order.order_type is Iceberg,
        order.qty > 0,
        order.price > 0,
        order.order_type matches OrderType::Iceberg { display } ==> display > 0,
        c.risk.lot_size <= 1 || order.qty % c.risk.lot_size == 0,
        order.order_type matches OrderType::Iceberg { display } ==> c.risk.lot_size <= 1 || display % c.risk.lot_size == 0,
        c.risk.tick_size <= 1 || order.price % c.risk.tick_size == 0,
        outside_band(c.engine.book, c.risk, order.price),
    ensures
        submit_spec(c, Command::New(order)).1 == seq![Event::Rejected { seq: (c.seq + 1) as u64, reason: RejectReason::PriceBand }],
        submit_spec(c, Command::New(order)).0.engine == c.engine,
{
    let b = c.engine.book;
    let mid = (b.bids[0].order.price + b.asks[0].order.price) / 2;
    assert(crate::clob::mid_of(b) == Some(mid as u64));
    assert(!c.risk.band_ok_spec(Some(mid as u64), order.price));
}

/// Price band law, amendments: on a venue with a price band and both sides quoted, an
/// amendment of a resting order to a well-formed price and quantity, on its lot and tick,
/// at a price outside the band around the mid is rejected for the band, and nothing in the
/// book changes. (An amendment of an unknown order is not judged against the band; it is
/// answered as unknown.)
pub proof fn lemma_band_rejects_modify(c: ClobModel, modify: ModifyOrder, side: Side, i: int)
    requires
        book_inv(c.engine.book),
        0 <= i < c.engine.book.side(side).len(),
        c.engine.book.side(side)[i].order.id == modify.order_id,
        c.risk.band_ticks > 0,
        c.engine.book.bids.len() > 0,
        c.engine.book.asks.len() > 0,
        modify.qty > 0,
        modify.price > 0,
        c.risk.lot_size <= 1 || modify.qty % c.risk.lot_size == 0,
        c.risk.tick_size <= 1 || modify.price % c.risk.tick_size == 0,
        outside_band(c.engine.book, c.risk, modify.price),
    ensures
        submit_spec(c, Command::Modify(modify)).1 == seq![Event::Rejected { seq: (c.seq + 1) as u64, reason: RejectReason::PriceBand }],
        submit_spec(c, Command::Modify(modify)).0.engine == c.engine,
{
    let b = c.engine.book;
    lemma_locate_at(b, side, i);
    assert(get_spec(b, modify.order_id) is Some);
    let mid = (b.bids[0].order.price + b.asks[0].order.price) / 2;
    assert(crate::clob::mid_of(b) == Some(mid as u64));
    assert(!c.risk.band_ok_spec(Some(mid as u64), modify.price));
}

/// The open volume an account has on `side`, after leaving out `own` (not below zero).
pub open spec fn open_without(c: ClobModel, owner: crate::types::AccountId, side: Side, own: int) -> int {
    let st = state_of(c.engine.book.accounts, owner);
    let open = match side {
        Side::Buy => st.open_buy as int,
        Side::Sell => st.open_sell as int,
    };
    if open >= own { open - own } else { 0 }
}

/// The worst-case position an amendment of the entry `e` on `side` to `qty` is judged
/// with: the owner's net position on that side, the open volume of the owner without the
/// whole of `e` (its visible peak and its hidden reserve), and the amended quantity.
pub open spec fn amended_exposure(c: ClobModel, e: BookEntry, side: Side, qty: int) -> int {
    let st = state_of(c.engine.book.accounts, e.order.owner);
    let hidden: int = match e.reserve {
        Some((_, h)) => h as int,
        None => 0,
    };
    let net: int = match side {
        Side::Buy => st.net as int,
        Side::Sell => -(st.net as int),
    };
    net + open_without(c, e.order.owner, side, e.order.qty + hidden) + qty
}

/// Stop activation keeps the events it started with in front.
proof fn lemma_drive_first(st: (crate::engine::EngineModel, Seq<Event>), seq: crate::types::SeqNum, ts: crate::types::Timestamp)
    requires
        st.1.len() > 0,
    ensures
        drive_final(st, seq, ts).1.len() > 0,
        drive_final(st, seq, ts).1[0] == st.1[0],
{
    let n = choose|n: nat| crate::engine::drive_done((#[trigger] drive_run(st, seq, ts, n)).0);
    assert(drive_final(st, seq, ts) == drive_run(st, seq, ts, n));
    lemma_drive_trace(st, seq, ts, n);
}

proof fn lemma_modify_check(c: ClobModel, modify: ModifyOrder, side: Side, i: int)
    requires
        book_inv(c.engine.book),
        0 <= i < c.engine.book.side(side).len(),
        c.engine.book.side(side)[i].order.id == modify.order_id,
        c.engine.book.side(side)[i].order.owner != 0,
        c.risk.position_limit > 0,
        c.risk.band_ticks == 0,
        c.risk.tick_size <= 1,
        c.risk.lot_size <= 1,
        modify.qty > 0,
        modify.price > 0,
    ensures
        crate::clob::check_spec(c, Command::Modify(modify)) == (if amended_exposure(c, c.engine.book.side(side)[i], side, modify.qty as int)
            > c.risk.position_limit {
            Err(RejectReason::PositionLimit)
        } else {
            Ok(())
        }),
{
    let b = c.engine.book;
    let e = b.side(side)[i];
    lemma_locate_at(b, side, i);
    assert(get_spec(b, modify.order_id) == Some((side, e.order)));
    assert(reserve_spec(b, modify.order_id) == e.reserve);
    lemma_sum_elem(b.side(side), i, vol_fn());
    assert(crate::book::model::vol(e) <= book_volume(b));
    let ctx = crate::clob::risk_context_spec(b, Command::Modify(modify));
    assert(ctx.owner == e.order.owner && ctx.side == side);
    assert(ctx.net == state_of(b.accounts, e.order.owner).net);
    assert(ctx.open == open_without(c, e.order.owner, side, crate::book::model::vol(e) as int));
}

/// An amendment of a resting order, once admitted, is reported first as amended.
proof fn lemma_modify_first(c: ClobModel, modify: ModifyOrder, side: Side, i: int)
    requires
        book_inv(c.engine.book),
        0 <= i < c.engine.book.side(side).len(),
        c.engine.book.side(side)[i].order.id == modify.order_id,
    ensures
        crate::engine::modify_spec(c.engine, (c.seq + 1) as u64, modify, (c.seq + 1) as u64).1.len() > 0,
        crate::engine::modify_spec(c.engine, (c.seq + 1) as u64, modify, (c.seq + 1) as u64).1[0]
            == (Event::Modified { seq: (c.seq + 1) as u64, order_id: modify.order_id }),
{
    let b = c.engine.book;
    let e = b.side(side)[i];
    let seq = (c.seq + 1) as u64;
    lemma_locate_at(b, side, i);
    assert(get_spec(b, modify.order_id) == Some((side, e.order)));
    assert(reserve_spec(b, modify.order_id) == e.reserve);
    let em = c.engine;
    let display: u64 = match e.reserve {
        Some((d, _)) => d,
        None => 0,
    };
    if e.reserve is Some || !(modify.price == e.order.price && modify.qty <= e.order.qty) {
        let em1 = crate::engine::EngineModel { book: crate::book::model::cancel_spec(em.book, modify.order_id).0, ..em };
        let live = crate::engine::Live {
            seq,
            order_id: modify.order_id,
            side,
            limit_price: Some(modify.price),
            qty: modify.qty,
            tif: TimeInForce::Gtc,
            timestamp: seq,
            display,
            owner: e.order.owner,
            stp: crate::types::StpMode::Off,
        };
        let (em2, evs) = crate::engine::settle_spec(em1, live);
        lemma_drive_first((em2, seq![Event::Modified { seq, order_id: modify.order_id }] + evs), seq, seq);
        assert(crate::engine::modify_spec(em, seq, modify, seq) == crate::engine::replace_spec(em, seq, modify, seq, side, e.order.owner, display));
    }
}

/// Position limit law, amendments: on a venue with only a position limit, an amendment of a
/// resting order of a known owner to a well-formed price and quantity is judged without the
/// whole volume of the order it replaces (visible peak and hidden reserve): it is rejected
/// for the position limit, with nothing in the book changed, exactly when the owner's
/// worst-case position would then exceed the limit; otherwise it is carried out.
pub proof fn lemma_modify_position(c: ClobModel, modify: ModifyOrder, side: Side, i: int)
    requires
        book_inv(c.engine.book),
        0 <= i < c.engine.book.side(side).len(),
        c.engine.book.side(side)[i].order.id == modify.order_id,
        c.engine.book.side(side)[i].order.owner != 0,
        c.risk.position_limit > 0,
        c.risk.band_ticks == 0,
        c.risk.tick_size <= 1,
        c.risk.lot_size <= 1,
        modify.qty > 0,
        modify.price > 0,
    ensures
        amended_exposure(c, c.engine.book.side(side)[i], side, modify.qty as int) > c.risk.position_limit ==> {
            &&& submit_spec(c, Command::Modify(modify)).1 == seq![Event::Rejected { seq: (c.seq + 1) as u64, reason: RejectReason::PositionLimit }]
            &&& submit_spec(c, Command::Modify(modify)).0.engine == c.engine
        },
        amended_exposure(c, c.engine.book.side(side)[i], side, modify.qty as int) <= c.risk.position_limit ==> {
            &&& submit_spec(c, Command::Modify(modify)).1.len() > 0
            &&& submit_spec(c, Command::Modify(modify)).1[0] == (Event::Modified { seq: (c.seq + 1) as u64, order_id: modify.order_id })
        },
{
    lemma_modify_check(c, modify, side, i);
    lemma_modify_first(c, modify, side, i);
}

/// The visible quantity resting at prices a taker on `side` accepts under `limit`: asks at
/// or below it for a buyer, bids at or above it for a seller.
pub open spec fn offered(s: Seq<BookEntry>, side: Side, limit: Price) -> nat
    decreases s.len(),
{
    if s.len() == 0 {
        0
    } else {
        offered(s.drop_last(), side, limit) + (if (side == Side::Buy && s.last().order.price <= limit) || (side == Side::Sell
            && s.last().order.price >= limit) {
            s.last().order.qty as nat
        } else {
            0nat
        })
    }
}

proof fn lemma_offered(s: Seq<BookEntry>, side: Side, limit: Price)
    ensures
        offered(s, side, limit) == sum_by(s, crossing_fn(side, Some(limit))),
    decreases s.len(),
{
    if s.len() > 0 {
        lemma_offered(s.drop_last(), side, limit);
    }
}

/// Fill-or-kill law: on a venue without risk limits, a well-formed fill-or-kill limit or
/// iceberg order is refused for insufficient liquidity, with no trade and nothing in the book
/// changed, exactly when less than its quantity rests on the other side at prices within its
/// limit; otherwise it is accepted.
pub proof fn lemma_fok_admission(c: ClobModel, order: NewOrder)
    requires
        c.risk.tick_size <= 1,
        c.risk.lot_size <= 1,
        c.risk.band_ticks == 0,
        c.risk.position_limit == 0,
        order.order_type is Limit || order.order_type is Iceberg,
        order.tif == TimeInForce::Fok,
        order.qty > 0,
        order.price > 0,
        order.order_type matches OrderType::Iceberg { display } ==> display > 0,
    ensures
        offered(c.engine.book.side(order.side.opposite()), order.side, order.price) < order.qty ==> {
            &&& submit_spec(c, Command::New(order)).1 == seq![Event::Rejected { seq: (c.seq + 1) as u64, reason: RejectReason::InsufficientLiquidity }]
            &&& submit_spec(c, Command::New(order)).0.engine == c.engine
        },
        offered(c.engine.book.side(order.side.opposite()), order.side, order.price) >= order.qty ==> {
            &&& submit_spec(c, Command::New(order)).1.len() > 0
            &&& submit_spec(c, Command::New(order)).1[0] == (Event::Accepted { seq: (c.seq + 1) as u64, order_id: c.next_id })
        },
{
    let b = c.engine.book;
    lemma_offered(b.side(order.side.opposite()), order.side, order.price);
    let seq = (c.seq + 1) as u64;
    if offered(b.side(order.side.opposite()), order.side, order.price) >= order.qty {
        let display: u64 = match order.order_type {
            OrderType::Iceberg { display } => display,
            _ => 0,
        };
        let live = crate::engine::Live {
            seq,
            order_id: c.next_id,
            side: order.side,
            limit_price: Some(order.price),
            qty: order.qty,
            tif: order.tif,
            timestamp: seq,
            display,
            owner: order.owner,
            stp: order.stp,
        };
        let (em1, evs) = crate::engine::settle_spec(c.engine, live);
        lemma_drive_first((em1, seq![Event::Accepted { seq, order_id: c.next_id }] + evs), seq, seq);
    }
}

/// A new order is well formed: a positive quantity, a positive limit price where it has one,
/// a positive trigger for a stop and a positive peak for an iceberg.
pub open spec fn well_formed(order: NewOrder) -> bool {
    &&& order.qty > 0
    &&& match order.order_type {
        OrderType::Limit => order.price > 0,
        OrderType::Market => true,
        OrderType::Stop { trigger } => trigger > 0,
        OrderType::StopLimit { trigger } => trigger > 0 && order.price > 0,
        OrderType::Iceberg { display } => order.price > 0 && display > 0,
    }
}

/// The risk rule a well-formed new order breaks first, if any: its quantity (and an
/// iceberg's peak) off the lot; a price it carries (limit, trigger) off the tick; a limit or
/// iceberg price outside the band around the mid of a two-sided book; the owner's
/// worst-case position (net position on the order's side, open volume there, and the new
/// quantity) above the limit.
pub open spec fn first_broken_rule(c: ClobModel, order: NewOrder) -> Option<RejectReason> {
    let r = c.risk;
    let b = c.engine.book;
    let lot = r.lot_size;
    let tick = r.tick_size;
    let off_lot = lot > 1 && (order.qty % lot != 0 || (match order.order_type {
        OrderType::Iceberg { display } => display % lot != 0,
        _ => false,
    }));
    let off_tick = tick > 1 && (match order.order_type {
        OrderType::Limit => order.price % tick != 0,
        OrderType::Iceberg { .. } => order.price % tick != 0,
        OrderType::Market => false,
        OrderType::Stop { trigger } => trigger % tick != 0,
        OrderType::StopLimit { trigger } => trigger % tick != 0 || order.price % tick != 0,
    });
    let off_band = r.band_ticks > 0 && b.bids.len() > 0 && b.asks.len() > 0 && (order.order_type is Limit
        || order.order_type is Iceberg) && outside_band(b, r, order.price);
    let st = state_of(b.accounts, order.owner);
    let worst: int = match order.side {
        Side::Buy => st.net + st.open_buy + order.qty,
        Side::Sell => -st.net + st.open_sell + order.qty,
    };
    let over_limit = r.position_limit > 0 && order.owner != 0 && worst > r.position_limit;
    if off_lot {
        Some(RejectReason::LotSize)
    } else if off_tick {
        Some(RejectReason::TickSize)
    } else if off_band {
        Some(RejectReason::PriceBand)
    } else if over_limit {
        Some(RejectReason::PositionLimit)
    } else {
        None
    }
}

proof fn lemma_new_check(c: ClobModel, order: NewOrder)
    requires
        well_formed(order),
    ensures
        crate::clob::check_spec(c, Command::New(order)) == (match first_broken_rule(c, order) {
            Some(reason) => Err(reason),
            None => Ok(()),
        }),
{
    let b = c.engine.book;
    if b.bids.len() > 0 && b.asks.len() > 0 {
        let mid = (b.bids[0].order.price + b.asks[0].order.price) / 2;
        assert(crate::clob::mid_of(b) == Some(mid as u64));
        let offset = c.risk.band_ticks * (if c.risk.tick_size > 1 { c.risk.tick_size as int } else { 1int });
        assert(c.risk.band_ok_spec(Some(mid as u64), order.price) == (c.risk.band_ticks == 0 || !outside_band(b, c.risk, order.price)));
    }
}

/// Admission law, new orders: a well-formed new order that is good-till-cancel or
/// immediate-or-cancel is rejected, with nothing in the book changed, for the first risk rule
/// it breaks (lot, tick, price band for limit and iceberg prices, position limit); when it
/// breaks none, it is accepted under the next order id.
pub proof fn lemma_new_admission(c: ClobModel, order: NewOrder)
    requires
        well_formed(order),
        order.tif == TimeInForce::Gtc || order.tif == TimeInForce::Ioc,
    ensures
        first_broken_rule(c, order) matches Some(reason) ==> {
            &&& submit_spec(c, Command::New(order)).1 == seq![Event::Rejected { seq: (c.seq + 1) as u64, reason }]
            &&& submit_spec(c, Command::New(order)).0.engine == c.engine
        },
        first_broken_rule(c, order) is None ==> {
            &&& submit_spec(c, Command::New(order)).1.len() > 0
            &&& submit_spec(c, Command::New(order)).1[0] == (Event::Accepted { seq: (c.seq + 1) as u64, order_id: c.next_id })
        },
{
    lemma_new_check(c, order);
    if first_broken_rule(c, order) is None {
        lemma_new_accepted(c, order);
    }
}

/// A new order that passes the gateway and, unless it is a stop, the time-in-force checks
/// is reported first as accepted.
proof fn lemma_new_accepted(c: ClobModel, order: NewOrder)
    requires
        order.tif == TimeInForce::Gtc || order.tif == TimeInForce::Ioc,
    ensures
        crate::engine::new_spec(c.engine, (c.seq + 1) as u64, c.next_id, order, (c.seq + 1) as u64).1.len() > 0,
        crate::engine::new_spec(c.engine, (c.seq + 1) as u64, c.next_id, order, (c.seq + 1) as u64).1[0]
            == (Event::Accepted { seq: (c.seq + 1) as u64, order_id: c.next_id }),
{
    let seq = (c.seq + 1) as u64;
    let id = c.next_id;
    let em = c.engine;
    let accepted = seq![Event::Accepted { seq, order_id: id }];
    match order.order_type {
        OrderType::Stop { trigger } => {
            let stop = crate::stops::PendingStop {
                id,
                side: order.side,
                trigger,
                activates_to: OrderType::Market,
                limit_price: 0,
                qty: order.qty,
                tif: order.tif,
                owner: order.owner,
                stp: order.stp,
            };
            lemma_drive_first((crate::engine::EngineModel { stops: em.stops.push(stop), ..em }, accepted), seq, seq);
        },
        OrderType::StopLimit { trigger } => {
            let stop = crate::stops::PendingStop {
                id,
                side: order.side,
                trigger,
                activates_to: OrderType::Limit,
                limit_price: order.price,
                qty: order.qty,
                tif: order.tif,
                owner: order.owner,
                stp: order.stp,
            };
            lemma_drive_first((crate::engine::EngineModel { stops: em.stops.push(stop), ..em }, accepted), seq, seq);
        },
        _ => {
            let (limit, display) = match order.order_type {
                OrderType::Limit => (Some(order.price), 0u64),
                OrderType::Iceberg { display } => (Some(order.price), display),
                _ => (None, 0u64),
            };
            let live = crate::engine::Live {
                seq,
                order_id: id,
                side: order.side,
                limit_price: limit,
                qty: order.qty,
                tif: order.tif,
                timestamp: seq,
                display,
                owner: order.owner,
                stp: order.stp,
            };
            let (em1, evs) = crate::engine::settle_spec(em, live);
            lemma_drive_first((em1, accepted + evs), seq, seq);
        },
    }
}

/// The risk rule an amendment of the entry `e` on `side` breaks first, if any: the new
/// quantity off the lot; the new price off the tick; the new price outside the band around
/// the mid of a two-sided book; the owner's worst-case position, judged without the whole
/// volume of `e`, above the limit.
pub open spec fn first_broken_amend_rule(c: ClobModel, modify: ModifyOrder, e: BookEntry, side: Side) -> Option<RejectReason> {
    let r = c.risk;
    let b = c.engine.book;
    if r.lot_size > 1 && modify.qty % r.lot_size != 0 {
        Some(RejectReason::LotSize)
    } else if r.tick_size > 1 && modify.price % r.tick_size != 0 {
        Some(RejectReason::TickSize)
    } else if r.band_ticks > 0 && b.bids.len() > 0 && b.asks.len() > 0 && outside_band(b, r, modify.price) {
        Some(RejectReason::PriceBand)
    } else if r.position_limit > 0 && e.order.owner != 0 && amended_exposure(c, e, side, modify.qty as int) > r.position_limit {
        Some(RejectReason::PositionLimit)
    } else {
        None
    }
}

proof fn lemma_amend_check(c: ClobModel, modify: ModifyOrder, side: Side, i: int)
    requires
        book_inv(c.engine.book),
        0 <= i < c.engine.book.side(side).len(),
        c.engine.book.side(side)[i].order.id == modify.order_id,
        modify.qty > 0,
        modify.price > 0,
    ensures
        crate::clob::check_spec(c, Command::Modify(modify)) == (match first_broken_amend_rule(c, modify, c.engine.book.side(side)[i], side) {
            Some(reason) => Err(reason),
            None => Ok(()),
        }),
{
    let b = c.engine.book;
    let e = b.side(side)[i];
    lemma_locate_at(b, side, i);
    assert(get_spec(b, modify.order_id) == Some((side, e.order)));
    assert(reserve_spec(b, modify.order_id) == e.reserve);
    lemma_sum_elem(b.side(side), i, vol_fn());
    assert(crate::book::model::vol(e) <= book_volume(b));
    let ctx = crate::clob::risk_context_spec(b, Command::Modify(modify));
    assert(ctx.owner == e.order.owner && ctx.side == side);
    assert(ctx.net == state_of(b.accounts, e.order.owner).net);
    assert(ctx.open == open_without(c, e.order.owner, side, crate::book::model::vol(e) as int));
    if b.bids.len() > 0 && b.asks.len() > 0 {
        let mid = (b.bids[0].order.price + b.asks[0].order.price) / 2;
        assert(crate::clob::mid_of(b) == Some(mid as u64));
        assert(c.risk.band_ok_spec(Some(mid as u64), modify.price) == (c.risk.band_ticks == 0 || !outside_band(b, c.risk, modify.price)));
    }
}

/// Admission law, amendments: an amendment of a resting order to a positive price and
/// quantity is rejected, with nothing in the book changed, for the first risk rule it breaks
/// (lot, tick, price band, position limit judged without the whole volume of the order it
/// replaces); when it breaks none, it is carried out and reported as amended first.
pub proof fn lemma_amend_admission(c: ClobModel, modify: ModifyOrder, side: Side, i: int)
    requires
        book_inv(c.engine.book),
        0 <= i < c.engine.book.side(side).len(),
        c.engine.book.side(side)[i].order.id == modify.order_id,
        modify.qty > 0,
        modify.price > 0,
    ensures
        first_broken_amend_rule(c, modify, c.engine.book.side(side)[i], side) matches Some(reason) ==> {
            &&& submit_spec(c, Command::Modify(modify)).1 == seq![Event::Rejected { seq: (c.seq + 1) as u64, reason }]
            &&& submit_spec(c, Command::Modify(modify)).0.engine == c.engine
        },
        first_broken_amend_rule(c, modify, c.engine.book.side(side)[i], side) is None ==> {
            &&& submit_spec(c, Command::Modify(modify)).1.len() > 0
            &&& submit_spec(c, Command::Modify(modify)).1[0] == (Event::Modified { seq: (c.seq + 1) as u64, order_id: modify.order_id })
        },
{
    lemma_amend_check(c, modify, side, i);
    lemma_modify_first(c, modify, side, i);
}

/// The price a taker order accepts at worst: its limit, or any price for a market order.
pub open spec fn worst_price(order: NewOrder) -> Price {
    match order.order_type {
        OrderType::Market => match order.side {
            Side::Buy => u64::MAX,
            Side::Sell => 0,
        },
        _ => order.price,
    }
}

proof fn lemma_offered_all(s: Seq<BookEntry>, side: Side)
    ensures
        offered(s, side, if side == Side::Buy { u64::MAX } else { 0 }) == sum_by(s, crossing_fn(side, None)),
    decreases s.len(),
{
    if s.len() > 0 {
        lemma_offered_all(s.drop_last(), side);
    }
}

/// Time-in-force law: a well-formed limit, iceberg or market order that the gateway admits
/// is, when fill-or-kill, refused for insufficient liquidity (no trade, nothing in the book
/// changed) exactly when less than its quantity rests on the other side at prices it accepts;
/// when post-only, refused as crossing exactly when it is a market order or the best price
/// on the other side is one it accepts. Otherwise it is accepted.
pub proof fn lemma_tif_admission(c: ClobModel, order: NewOrder)
    requires
        well_formed(order),
        first_broken_rule(c, order) is None,
        order.order_type is Limit || order.order_type is Iceberg || order.order_type is Market,
    ensures
        order.tif == TimeInForce::Fok && offered(c.engine.book.side(order.side.opposite()), order.side, worst_price(order))
            < order.qty ==> {
            &&& submit_spec(c, Command::New(order)).1 == seq![Event::Rejected { seq: (c.seq + 1) as u64, reason: RejectReason::InsufficientLiquidity }]
            &&& submit_spec(c, Command::New(order)).0.engine == c.engine
        },
        order.tif == TimeInForce::PostOnly && (order.order_type is Market || (c.engine.book.side(order.side.opposite()).len() > 0
            && (match order.side {
            Side::Buy => c.engine.book.asks[0].order.price <= order.price,
            Side::Sell => c.engine.book.bids[0].order.price >= order.price,
        }))) ==> {
            &&& submit_spec(c, Command::New(order)).1 == seq![Event::Rejected { seq: (c.seq + 1) as u64, reason: RejectReason::WouldCross }]
            &&& submit_spec(c, Command::New(order)).0.engine == c.engine
        },
        !(order.tif == TimeInForce::Fok && offered(c.engine.book.side(order.side.opposite()), order.side, worst_price(order))
            < order.qty) && !(order.tif == TimeInForce::PostOnly && (order.order_type is Market || (c.engine.book.side(
            order.side.opposite(),
        ).len() > 0 && (match order.side {
            Side::Buy => c.engine.book.asks[0].order.price <= order.price,
            Side::Sell => c.engine.book.bids[0].order.price >= order.price,
        })))) ==> {
            &&& submit_spec(c, Command::New(order)).1.len() > 0
            &&& submit_spec(c, Command::New(order)).1[0] == (Event::Accepted { seq: (c.seq + 1) as u64, order_id: c.next_id })
        },
{
    lemma_new_check(c, order);
    let b = c.engine.book;
    let opp = b.side(order.side.opposite());
    match order.order_type {
        OrderType::Market => {
            lemma_offered_all(opp, order.side);
        },
        _ => {
            lemma_offered(opp, order.side, order.price);
        },
    }
    match order.side {
        Side::Buy => {},
        Side::Sell => {},
    }
    let seq = (c.seq + 1) as u64;
    let display: u64 = match order.order_type {
        OrderType::Iceberg { display } => display,
        _ => 0,
    };
    let limit = match order.order_type {
        OrderType::Market => None,
        _ => Some(order.price),
    };
    if crate::engine::precheck_spec(b, order.side, limit, order.qty, order.tif) is Ok {
        let live = crate::engine::Live {
            seq,
            order_id: c.next_id,
            side: order.side,
            limit_price: limit,
            qty: order.qty,
            tif: order.tif,
            timestamp: seq,
            display,
            owner: order.owner,
            stp: order.stp,
        };
        let (em1, evs) = crate::engine::settle_spec(c.engine, live);
        lemma_drive_first((em1, seq![Event::Accepted { seq, order_id: c.next_id }] + evs), seq, seq);
    }
}

} // verus!

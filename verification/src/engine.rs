use vstd::prelude::*;

use crate::book::accounts::{lemma_nets_open, lemma_nets_within_mono, nets_within, restore_net_spec, AccountState};
use crate::book::model::{
    all_worse_eq, better_eq, crosses, insert_pos, lemma_insert_pos, locate, sorted, BookEntry,
    add_reserve_spec, best_spec, book_inv, book_volume, cancel_spec, contains_spec, crossing_fn,
    entries_of, get_spec, has_id, insert_spec, lemma_add_reserve_facts, lemma_cancel_facts,
    lemma_insert_facts, lemma_match_final, lemma_reduce_facts, lemma_run, match_done, match_final,
    match_run, match_start, reduce_spec, reserve_spec, sum_by, would_cross_spec, BookModel, Fill,
    MatchState, RestingOrder, Taker,
};
use crate::book::matching::outcome_state;
use crate::book::OrderBook;
use crate::error::RejectReason;
use crate::fees::{fee_spec, FeeConfig};
use crate::order::{ModifyOrder, NewOrder};
use crate::output::Event;
use crate::stops::{fires_fn, has_id_fn, lemma_stops_volume_push, lemma_stops_volume_remove, stops_volume, take_first, PendingStop, StopBook};
use crate::types::{
    AccountId, OrderId, OrderType, Price, Qty, SeqNum, Side, StpMode, TimeInForce, Timestamp,
};

verus! {

/// An order on its way through matching.
#[derive(Clone, Copy, Debug)]
pub struct Live {
    pub seq: SeqNum,
    pub order_id: OrderId,
    pub side: Side,
    pub limit_price: Option<Price>,
    pub qty: Qty,
    pub tif: TimeInForce,
    pub timestamp: Timestamp,
    pub display: Qty,
    pub owner: AccountId,
    pub stp: StpMode,
}

/// The abstract state of the engine.
pub struct EngineModel {
    pub book: BookModel,
    pub stops: Seq<PendingStop>,
    pub last: Option<Price>,
    pub fees: FeeConfig,
}

/// The event of one execution.
pub open spec fn fill_event(f: Fill, live: Live, fees: FeeConfig) -> Event {
    Event::Trade {
        seq: live.seq,
        taker_order_id: live.order_id,
        maker_order_id: f.maker.id,
        price: f.price,
        qty: f.qty,
        taker_side: live.side,
        taker_fee: fee_spec(fees.taker_ppm, f.price, f.qty),
        maker_fee: fee_spec(fees.maker_ppm, f.price, f.qty),
    }
}

pub open spec fn fills_events(fills: Seq<Fill>, live: Live, fees: FeeConfig) -> Seq<Event> {
    fills.map_values(|f: Fill| fill_event(f, live, fees))
}

pub open spec fn canceled_events(ids: Seq<OrderId>, seq: SeqNum) -> Seq<Event> {
    ids.map_values(|id: OrderId| Event::Canceled { seq, order_id: id })
}

/// How an unfilled remainder rests: `(visible, hidden)`.
pub open spec fn rest_split(display: Qty, remaining: Qty) -> (Qty, Qty) {
    if display > 0 && display < remaining {
        (display, (remaining - display) as u64)
    } else {
        (remaining, 0)
    }
}

pub open spec fn taker_of(live: Live) -> Taker {
    Taker { side: live.side, owner: live.owner, stp: live.stp, limit: live.limit_price }
}

/// What becomes of the part of an order that matching left: nothing when the taker was
/// pulled or filled; a good-till-cancel or post-only limit order rests (an iceberg with its
/// reserve); anything else is cancelled.
pub open spec fn settle_rest(em: EngineModel, live: Live, remaining: Qty, taker_canceled: bool) -> (EngineModel, Seq<Event>) {
    if taker_canceled {
        (em, seq![Event::Canceled { seq: live.seq, order_id: live.order_id }])
    } else if remaining == 0 {
        (em, seq![Event::Filled { seq: live.seq, order_id: live.order_id }])
    } else {
        match live.limit_price {
            Some(price) => if live.tif == TimeInForce::Gtc || live.tif == TimeInForce::PostOnly {
                let (visible, hidden) = rest_split(live.display, remaining);
                let b1 = insert_spec(
                    em.book,
                    live.side,
                    RestingOrder {
                        id: live.order_id,
                        seq: live.seq,
                        price,
                        qty: visible,
                        timestamp: live.timestamp,
                        owner: live.owner,
                    },
                );
                let b2 = if hidden > 0 {
                    add_reserve_spec(b1, live.order_id, live.display, hidden)
                } else {
                    b1
                };
                (
                    EngineModel { book: b2, ..em },
                    seq![Event::Resting { seq: live.seq, order_id: live.order_id, price, qty: visible }],
                )
            } else {
                (em, seq![Event::Canceled { seq: live.seq, order_id: live.order_id }])
            },
            None => (em, seq![Event::Canceled { seq: live.seq, order_id: live.order_id }]),
        }
    }
}

/// `settle`: match the order, report the executions and the pulled makers, then settle
/// the remainder.
pub open spec fn settle_spec(em: EngineModel, live: Live) -> (EngineModel, Seq<Event>) {
    let fin = match_final(match_start(em.book, live.qty), taker_of(live));
    let last = if fin.fills.len() > 0 { Some(fin.fills.last().price) } else { em.last };
    let evs = fills_events(fin.fills, live, em.fees) + canceled_events(fin.self_canceled, live.seq);
    let em1 = EngineModel { book: fin.book, last, ..em };
    let (em2, more) = settle_rest(em1, live, fin.qty, fin.taker_canceled);
    (em2, evs + more)
}

/// The admission checks of time-in-force: fill-or-kill needs enough crossing liquidity,
/// post-only must not cross.
pub open spec fn precheck_spec(
    book: BookModel,
    side: Side,
    limit: Option<Price>,
    qty: Qty,
    tif: TimeInForce,
) -> Result<(), RejectReason> {
    if tif == TimeInForce::Fok && sum_by(book.side(side.opposite()), crossing_fn(side, limit)) < qty {
        Err(RejectReason::InsufficientLiquidity)
    } else if tif == TimeInForce::PostOnly && would_cross_spec(book, side, limit) {
        Err(RejectReason::WouldCross)
    } else {
        Ok(())
    }
}

/// The order a fired stop becomes.
pub open spec fn stop_live(stop: PendingStop, seq: SeqNum, timestamp: Timestamp) -> Live {
    Live {
        seq,
        order_id: stop.id,
        side: stop.side,
        limit_price: if stop.activates_to == OrderType::Limit { Some(stop.limit_price) } else { None },
        qty: stop.qty,
        tif: stop.tif,
        timestamp,
        display: 0,
        owner: stop.owner,
        stp: stop.stp,
    }
}

/// No dormant stop fires at the last trade price.
pub open spec fn drive_done(em: EngineModel) -> bool {
    match em.last {
        None => true,
        Some(l) => take_first(em.stops, fires_fn(l)).1 is None,
    }
}

/// A fired stop: it is reported, admitted by its time-in-force and matched.
#[verifier::opaque]
pub open spec fn fire_spec(em: EngineModel, evs: Seq<Event>, stop: PendingStop, seq: SeqNum, timestamp: Timestamp) -> (EngineModel, Seq<Event>) {
    let live = stop_live(stop, seq, timestamp);
    let evs = evs.push(Event::Triggered { seq, order_id: stop.id });
    match precheck_spec(em.book, live.side, live.limit_price, live.qty, live.tif) {
        Err(reason) => (em, evs.push(Event::Rejected { seq, reason })),
        Ok(()) => {
            let (em2, more) = settle_spec(em, live);
            (em2, evs + more)
        },
    }
}

/// One activation: the oldest stop that fires leaves the dormant stops and is fired.
pub open spec fn drive_step(st: (EngineModel, Seq<Event>), seq: SeqNum, timestamp: Timestamp) -> (EngineModel, Seq<Event>) {
    let em = st.0;
    if drive_done(em) {
        st
    } else {
        let (stops, taken) = take_first(em.stops, fires_fn(em.last.unwrap()));
        fire_spec(EngineModel { stops, ..em }, st.1, taken.unwrap(), seq, timestamp)
    }
}

pub open spec fn drive_run(st: (EngineModel, Seq<Event>), seq: SeqNum, timestamp: Timestamp, n: nat) -> (EngineModel, Seq<Event>)
    decreases n,
{
    if n == 0 {
        st
    } else {
        drive_step(drive_run(st, seq, timestamp, (n - 1) as nat), seq, timestamp)
    }
}

/// Stops fire, one after the other, until none fires at the last trade price.
pub open spec fn drive_final(st: (EngineModel, Seq<Event>), seq: SeqNum, timestamp: Timestamp) -> (EngineModel, Seq<Event>) {
    drive_run(st, seq, timestamp, choose|n: nat| drive_done((#[trigger] drive_run(st, seq, timestamp, n)).0))
}

pub proof fn lemma_drive_done_stable(st: (EngineModel, Seq<Event>), seq: SeqNum, ts: Timestamp, a: nat, b: nat)
    requires
        a <= b,
        drive_done(drive_run(st, seq, ts, a).0),
    ensures
        drive_run(st, seq, ts, b) == drive_run(st, seq, ts, a),
    decreases b - a,
{
    if a < b {
        lemma_drive_done_stable(st, seq, ts, a, (b - 1) as nat);
    }
}

pub proof fn lemma_drive_final(st: (EngineModel, Seq<Event>), seq: SeqNum, ts: Timestamp, n: nat)
    requires
        drive_done(drive_run(st, seq, ts, n).0),
    ensures
        drive_final(st, seq, ts) == drive_run(st, seq, ts, n),
{
    let k = choose|k: nat| drive_done((#[trigger] drive_run(st, seq, ts, k)).0);
    assert(drive_done(drive_run(st, seq, ts, k).0));
    if k <= n {
        lemma_drive_done_stable(st, seq, ts, k, n);
    } else {
        lemma_drive_done_stable(st, seq, ts, n, k);
    }
}

/// A new order: a stop is accepted and parked; any other order is admitted by its
/// time-in-force, accepted and matched; then any stops that fire are driven.
pub open spec fn new_spec(em: EngineModel, seq: SeqNum, order_id: OrderId, order: NewOrder, timestamp: Timestamp) -> (EngineModel, Seq<Event>) {
    let accepted = seq![Event::Accepted { seq, order_id }];
    match order.order_type {
        OrderType::Stop { trigger } => {
            let stop = PendingStop {
                id: order_id,
                side: order.side,
                trigger,
                activates_to: OrderType::Market,
                limit_price: 0,
                qty: order.qty,
                tif: order.tif,
                owner: order.owner,
                stp: order.stp,
            };
            drive_final((EngineModel { stops: em.stops.push(stop), ..em }, accepted), seq, timestamp)
        },
        OrderType::StopLimit { trigger } => {
            let stop = PendingStop {
                id: order_id,
                side: order.side,
                trigger,
                activates_to: OrderType::Limit,
                limit_price: order.price,
                qty: order.qty,
                tif: order.tif,
                owner: order.owner,
                stp: order.stp,
            };
            drive_final((EngineModel { stops: em.stops.push(stop), ..em }, accepted), seq, timestamp)
        },
        _ => {
            let (limit, display) = match order.order_type {
                OrderType::Limit => (Some(order.price), 0u64),
                OrderType::Iceberg { display } => (Some(order.price), display),
                _ => (None, 0u64),
            };
            match precheck_spec(em.book, order.side, limit, order.qty, order.tif) {
                Err(reason) => (em, seq![Event::Rejected { seq, reason }]),
                Ok(()) => {
                    let live = Live {
                        seq,
                        order_id,
                        side: order.side,
                        limit_price: limit,
                        qty: order.qty,
                        tif: order.tif,
                        timestamp,
                        display,
                        owner: order.owner,
                        stp: order.stp,
                    };
                    let (em1, evs) = settle_spec(em, live);
                    drive_final((em1, accepted + evs), seq, timestamp)
                },
            }
        },
    }
}

/// A cancel: a resting order, else a dormant stop, is removed; otherwise it is unknown.
pub open spec fn cancel_cmd_spec(em: EngineModel, seq: SeqNum, order_id: OrderId) -> (EngineModel, Seq<Event>) {
    let (book, removed) = cancel_spec(em.book, order_id);
    if removed is Some {
        (EngineModel { book, ..em }, seq![Event::Canceled { seq, order_id }])
    } else {
        let (stops, taken) = take_first(em.stops, has_id_fn(order_id));
        if taken is Some {
            (EngineModel { stops, ..em }, seq![Event::Canceled { seq, order_id }])
        } else {
            (em, seq![Event::Rejected { seq, reason: RejectReason::UnknownOrder }])
        }
    }
}

/// A resting order taken out and matched again as a good-till-cancel limit order at the
/// amended price and quantity, keeping `display` as its iceberg peak.
pub open spec fn replace_spec(
    em: EngineModel,
    seq: SeqNum,
    modify: ModifyOrder,
    timestamp: Timestamp,
    side: Side,
    owner: AccountId,
    display: Qty,
) -> (EngineModel, Seq<Event>) {
    let em1 = EngineModel { book: cancel_spec(em.book, modify.order_id).0, ..em };
    let live = Live {
        seq,
        order_id: modify.order_id,
        side,
        limit_price: Some(modify.price),
        qty: modify.qty,
        tif: TimeInForce::Gtc,
        timestamp,
        display,
        owner,
        stp: StpMode::Off,
    };
    let (em2, evs) = settle_spec(em1, live);
    drive_final((em2, seq![Event::Modified { seq, order_id: modify.order_id }] + evs), seq, timestamp)
}

/// An amendment of a resting order: an iceberg is re-placed with its display; a pure size
/// reduction at the same price keeps priority; anything else re-places the order.
pub open spec fn modify_spec(em: EngineModel, seq: SeqNum, modify: ModifyOrder, timestamp: Timestamp) -> (EngineModel, Seq<Event>) {
    match get_spec(em.book, modify.order_id) {
        None => (em, seq![Event::Rejected { seq, reason: RejectReason::UnknownOrder }]),
        Some((side, current)) => match reserve_spec(em.book, modify.order_id) {
            Some((display, _)) => replace_spec(em, seq, modify, timestamp, side, current.owner, display),
            None => if modify.price == current.price && modify.qty <= current.qty {
                let book = if modify.qty < current.qty {
                    reduce_spec(em.book, modify.order_id, modify.qty).0
                } else {
                    em.book
                };
                (
                    EngineModel { book, ..em },
                    seq![
                        Event::Modified { seq, order_id: modify.order_id },
                        Event::Resting { seq, order_id: modify.order_id, price: modify.price, qty: modify.qty },
                    ],
                )
            } else {
                replace_spec(em, seq, modify, timestamp, side, current.owner, 0)
            },
        },
    }
}

/// The stop ids are distinct and none of them rests in the book.
pub open spec fn stops_ok(em: EngineModel) -> bool {
    &&& forall|i: int, j: int|
        0 <= i < j < em.stops.len() ==> (#[trigger] em.stops[i]).id != (#[trigger] em.stops[j]).id
    &&& forall|i: int| 0 <= i < em.stops.len() ==> !contains_spec(em.book, (#[trigger] em.stops[i]).id)
}

/// Room for `extra` more quantity this command: volumes fit in `u64` and net positions stay
/// clear of the bounds of `i128`.
pub open spec fn room(em: EngineModel, extra: nat) -> bool {
    &&& book_volume(em.book) + stops_volume(em.stops) + extra <= u64::MAX
    &&& nets_within(em.book.accounts, stops_volume(em.stops) + extra)
}

/// The book is not crossed: the best bid is below the best ask.
pub open spec fn uncrossed(b: BookModel) -> bool {
    match (best_spec(b, Side::Buy), best_spec(b, Side::Sell)) {
        (Some(bid), Some(ask)) => bid < ask,
        _ => true,
    }
}

/// A remainder may rest on `side` at `limit` without crossing: the opposite side is empty or
/// its best price does not cross.
pub open spec fn rest_ok(b: BookModel, side: Side, limit: Option<Price>) -> bool {
    let opp = b.side(side.opposite());
    opp.len() == 0 || !crosses(side, limit, opp[0].order.price)
}

/// Resting an order that does not cross keeps the book uncrossed.
pub proof fn lemma_insert_uncrossed(m: BookModel, side: Side, order: RestingOrder)
    requires
        book_inv(m),
        uncrossed(m),
        rest_ok(m, side, Some(order.price)),
    ensures
        uncrossed(insert_spec(m, side, order)),
{
    let s = m.side(side);
    let e = BookEntry { order, reserve: None };
    let k = insert_pos(s, side, order.price);
    lemma_insert_pos(s, side, order.price);
    let s2 = s.insert(k, e);
    let m2 = insert_spec(m, side, order);
    assert(m2.side(side) == s2);
    assert(m2.side(side.opposite()) == m.side(side.opposite()));
    if k == 0 {
        assert(s2[0] == e);
    } else {
        assert(s2[0] == s[0]);
    }
}

/// A reserve leaves the best prices where they were.
pub proof fn lemma_add_reserve_best(m: BookModel, id: OrderId, display: Qty, hidden: Qty)
    ensures
        best_spec(add_reserve_spec(m, id, display, hidden), Side::Buy) == best_spec(m, Side::Buy),
        best_spec(add_reserve_spec(m, id, display, hidden), Side::Sell) == best_spec(m, Side::Sell),
{
    match locate(m, id) {
        None => {},
        Some((side, i)) => {
            let s = m.side(side);
            if side == Side::Buy {
                assert(has_id(m.bids, id));
            } else {
                assert(has_id(m.asks, id));
            }
            let m2 = add_reserve_spec(m, id, display, hidden);
            assert(m2.side(side.opposite()) == m.side(side.opposite()));
            assert(m2.side(side)[0].order == s[0].order);
        },
    }
}

/// Taking orders out of a side, or trading them down, never improves its best price: the
/// book stays uncrossed when one side is untouched and the other only lost or worsened
/// orders.
pub proof fn lemma_shrink_uncrossed(m: BookModel, m2: BookModel, side: Side)
    requires
        sorted(m.side(side.opposite()), side.opposite()),
        uncrossed(m),
        m2.side(side) == m.side(side),
        forall|p: Price|
            all_worse_eq(m.side(side.opposite()), side.opposite(), p) ==> all_worse_eq(
                m2.side(side.opposite()),
                side.opposite(),
                p,
            ),
        forall|x: OrderId| #[trigger] has_id(m2.side(side.opposite()), x) ==> has_id(m.side(side.opposite()), x),
    ensures
        uncrossed(m2),
{
    let o = side.opposite();
    let a = m.side(o);
    let b = m2.side(o);
    if b.len() > 0 {
        assert(has_id(b, b[0].order.id));
        let j = choose|j: int| 0 <= j < a.len() && a[j].order.id == b[0].order.id;
        assert(all_worse_eq(a, o, a[0].order.price)) by {
            assert forall|q: int| 0 <= q < a.len() implies better_eq(o, a[0].order.price, (#[trigger] a[q]).order.price) by {
                if q > 0 {
                    assert(better_eq(o, a[0].order.price, a[q].order.price));
                }
            }
        }
        assert(better_eq(o, a[0].order.price, b[0].order.price));
    }
    assert(m2.side(o) == b);
    if side == Side::Buy {
        assert(m2.bids == m.bids);
    } else {
        assert(m2.asks == m.asks);
    }
}

/// Cancelling an order keeps the book uncrossed.
pub proof fn lemma_cancel_uncrossed(m: BookModel, id: OrderId)
    requires
        book_inv(m),
        uncrossed(m),
    ensures
        uncrossed(cancel_spec(m, id).0),
{
    match locate(m, id) {
        None => {},
        Some((side, i)) => {
            let s = m.side(side);
            if side == Side::Buy {
                assert(has_id(m.bids, id));
            } else {
                assert(has_id(m.asks, id));
            }
            let m2 = cancel_spec(m, id).0;
            let s2 = s.remove(i);
            assert(m2.side(side) == s2);
            assert(m2.side(side.opposite()) == m.side(side.opposite()));
            if s2.len() > 0 {
                if i == 0 {
                    assert(s2[0] == s[1]);
                    assert(better_eq(side, s[0].order.price, s[1].order.price));
                } else {
                    assert(s2[0] == s[0]);
                }
            }
        },
    }
}

/// Shrinking an order in place keeps the best prices.
pub proof fn lemma_reduce_best(m: BookModel, id: OrderId, new_qty: Qty)
    ensures
        best_spec(reduce_spec(m, id, new_qty).0, Side::Buy) == best_spec(m, Side::Buy),
        best_spec(reduce_spec(m, id, new_qty).0, Side::Sell) == best_spec(m, Side::Sell),
{
    match locate(m, id) {
        None => {},
        Some((side, i)) => {
            let s = m.side(side);
            if side == Side::Buy {
                assert(has_id(m.bids, id));
            } else {
                assert(has_id(m.asks, id));
            }
            let m2 = reduce_spec(m, id, new_qty).0;
            assert(m2.side(side.opposite()) == m.side(side.opposite()));
            assert(m2.side(side)[0].order.price == s[0].order.price);
        },
    }
}

/// An order id known to the engine: resting or dormant.
pub open spec fn known_id(em: EngineModel, id: OrderId) -> bool {
    contains_spec(em.book, id) || exists|i: int| 0 <= i < em.stops.len() && em.stops[i].id == id
}


/// Every event of `evs` from index `from` on carries the sequence number `seq`.
pub open spec fn tagged_from(evs: Seq<Event>, from: int, seq: SeqNum) -> bool {
    forall|i: int| from <= i < evs.len() ==> (#[trigger] evs[i]).seq_of() == seq
}

/// Appending events tagged `seq` to a list tagged `seq` from `from` on keeps it so.
pub proof fn lemma_tagged_extend(a: Seq<Event>, b: Seq<Event>, from: int, seq: SeqNum)
    requires
        0 <= from,
        tagged_from(a, from, seq),
        b.len() >= a.len(),
        b.take(a.len() as int) == a,
        tagged_from(b, a.len() as int, seq),
    ensures
        tagged_from(b, from, seq),
{
    assert forall|i: int| from <= i < b.len() implies (#[trigger] b[i]).seq_of() == seq by {
        if i < a.len() {
            assert(b.take(a.len() as int)[i] == b[i]);
        }
    }
}

/// Events appended to a list stay behind what it held: running the stops from a longer
/// list gives the same state and the same new events.
#[verifier::spinoff_prover]
#[verifier::rlimit(60)]
pub proof fn lemma_drive_prefix(em: EngineModel, pre: Seq<Event>, evs: Seq<Event>, seq: SeqNum, ts: Timestamp, n: nat)
    ensures
        drive_run((em, pre + evs), seq, ts, n).0 == drive_run((em, evs), seq, ts, n).0,
        drive_run((em, pre + evs), seq, ts, n).1 == pre + drive_run((em, evs), seq, ts, n).1,
    decreases n,
{
    if n > 0 {
        lemma_drive_prefix(em, pre, evs, seq, ts, (n - 1) as nat);
        let a = drive_run((em, pre + evs), seq, ts, (n - 1) as nat);
        let b = drive_run((em, evs), seq, ts, (n - 1) as nat);
        if !drive_done(b.0) {
            let (stops, taken) = take_first(b.0.stops, fires_fn(b.0.last.unwrap()));
            let stop = taken.unwrap();
            let em1 = EngineModel { stops, ..b.0 };
            let live = stop_live(stop, seq, ts);
            let t = Event::Triggered { seq, order_id: stop.id };
            reveal(fire_spec);
            assert(a.1.push(t) =~= pre + b.1.push(t));
            match precheck_spec(em1.book, live.side, live.limit_price, live.qty, live.tif) {
                Err(reason) => {
                    assert(a.1.push(t).push(Event::Rejected { seq, reason }) =~= pre + b.1.push(t).push(
                        Event::Rejected { seq, reason },
                    ));
                },
                Ok(()) => {
                    let more = settle_spec(em1, live).1;
                    assert(a.1.push(t) + more =~= pre + (b.1.push(t) + more));
                },
            }
        }
    }
}

/// `drive_final` over a longer list of events.
pub proof fn lemma_drive_final_prefix(em: EngineModel, pre: Seq<Event>, evs: Seq<Event>, seq: SeqNum, ts: Timestamp, n: nat)
    requires
        drive_done(drive_run((em, evs), seq, ts, n).0),
    ensures
        drive_final((em, pre + evs), seq, ts).0 == drive_final((em, evs), seq, ts).0,
        drive_final((em, pre + evs), seq, ts).1 == pre + drive_final((em, evs), seq, ts).1,
{
    lemma_drive_prefix(em, pre, evs, seq, ts, n);
    lemma_drive_final((em, evs), seq, ts, n);
    lemma_drive_final((em, pre + evs), seq, ts, n);
}

/// Firing a stop leaves the other dormant stops as they are.
proof fn lemma_fire_keeps_stops(em: EngineModel, evs: Seq<Event>, stop: PendingStop, seq: SeqNum, ts: Timestamp)
    ensures
        fire_spec(em, evs, stop, seq, ts).0.stops == em.stops,
{
    reveal(fire_spec);
}

/// Each activation that does not find the stops done takes one dormant stop away.
proof fn lemma_drive_len(st: (EngineModel, Seq<Event>), seq: SeqNum, ts: Timestamp, n: nat)
    ensures
        drive_done(drive_run(st, seq, ts, n).0) || drive_run(st, seq, ts, n).0.stops.len() + n == st.0.stops.len(),
    decreases n,
{
    if n > 0 {
        lemma_drive_len(st, seq, ts, (n - 1) as nat);
        let prev = drive_run(st, seq, ts, (n - 1) as nat);
        if !drive_done(prev.0) {
            let em = prev.0;
            crate::stops::lemma_first_index_found(em.stops, fires_fn(em.last.unwrap()));
            let (stops, taken) = take_first(em.stops, fires_fn(em.last.unwrap()));
            lemma_fire_keeps_stops(EngineModel { stops, ..em }, prev.1, taken.unwrap(), seq, ts);
        }
    }
}

/// Stop activation ends: after as many activations as there are dormant stops, none fires.
pub proof fn lemma_drive_terminates(st: (EngineModel, Seq<Event>), seq: SeqNum, ts: Timestamp)
    ensures
        drive_done(drive_run(st, seq, ts, st.0.stops.len()).0),
{
    let n = st.0.stops.len();
    lemma_drive_len(st, seq, ts, n);
    let em = drive_run(st, seq, ts, n).0;
    if em.stops.len() == 0 && em.last is Some {
        assert(!(exists|i: int| 0 <= i < em.stops.len() && fires_fn(em.last.unwrap())(em.stops[i])));
    }
}

/// Acknowledgement law: a new order the engine takes is acknowledged first, with its order
/// id; a limit, market or iceberg order its time-in-force refuses is answered by that
/// refusal alone.
pub proof fn lemma_new_acknowledged(em: EngineModel, seq: SeqNum, order_id: OrderId, order: NewOrder, ts: Timestamp)
    ensures
        match order.order_type {
            OrderType::Stop { .. } | OrderType::StopLimit { .. } => {
                &&& new_spec(em, seq, order_id, order, ts).1.len() > 0
                &&& new_spec(em, seq, order_id, order, ts).1[0] == (Event::Accepted { seq, order_id })
            },
            _ => match precheck_spec(
                em.book,
                order.side,
                if order.order_type is Market { None } else { Some(order.price) },
                order.qty,
                order.tif,
            ) {
                Err(reason) => new_spec(em, seq, order_id, order, ts).1 == seq![Event::Rejected { seq, reason }],
                Ok(()) => {
                    &&& new_spec(em, seq, order_id, order, ts).1.len() > 0
                    &&& new_spec(em, seq, order_id, order, ts).1[0] == (Event::Accepted { seq, order_id })
                },
            },
        },
{
    let accepted = seq![Event::Accepted { seq, order_id }];
    match order.order_type {
        OrderType::Stop { trigger } => {
            let stop = PendingStop {
                id: order_id,
                side: order.side,
                trigger,
                activates_to: OrderType::Market,
                limit_price: 0,
                qty: order.qty,
                tif: order.tif,
                owner: order.owner,
                stp: order.stp,
            };
            let em1 = EngineModel { stops: em.stops.push(stop), ..em };
            lemma_drive_terminates((em1, Seq::empty()), seq, ts);
            lemma_drive_final_prefix(em1, accepted, Seq::empty(), seq, ts, em1.stops.len());
            assert(accepted + Seq::<Event>::empty() =~= accepted);
        },
        OrderType::StopLimit { trigger } => {
            let stop = PendingStop {
                id: order_id,
                side: order.side,
                trigger,
                activates_to: OrderType::Limit,
                limit_price: order.price,
                qty: order.qty,
                tif: order.tif,
                owner: order.owner,
                stp: order.stp,
            };
            let em1 = EngineModel { stops: em.stops.push(stop), ..em };
            lemma_drive_terminates((em1, Seq::empty()), seq, ts);
            lemma_drive_final_prefix(em1, accepted, Seq::empty(), seq, ts, em1.stops.len());
            assert(accepted + Seq::<Event>::empty() =~= accepted);
        },
        _ => {
            let (limit, display) = match order.order_type {
                OrderType::Limit => (Some(order.price), 0u64),
                OrderType::Iceberg { display } => (Some(order.price), display),
                _ => (None, 0u64),
            };
            if precheck_spec(em.book, order.side, limit, order.qty, order.tif) is Ok {
                let live = Live {
                    seq,
                    order_id,
                    side: order.side,
                    limit_price: limit,
                    qty: order.qty,
                    tif: order.tif,
                    timestamp: ts,
                    display,
                    owner: order.owner,
                    stp: order.stp,
                };
                let (em1, evs) = settle_spec(em, live);
                lemma_drive_terminates((em1, evs), seq, ts);
                lemma_drive_final_prefix(em1, accepted, evs, seq, ts, em1.stops.len());
            }
        },
    }
}

fn push_fills(fills: &Vec<Fill>, live: Live, fees: FeeConfig, out: &mut Vec<Event>)
    ensures
        final(out)@ == old(out)@ + fills_events(fills@, live, fees),
        tagged_from(final(out)@, old(out)@.len() as int, live.seq),
{
    let mut i: usize = 0;
    while i < fills.len()
        invariant
            i <= fills@.len(),
            out@ == old(out)@ + fills_events(fills@.take(i as int), live, fees),
            tagged_from(out@, old(out)@.len() as int, live.seq),
        decreases fills@.len() - i,
    {
        let f = fills[i];
        out.push(
            Event::Trade {
                seq: live.seq,
                taker_order_id: live.order_id,
                maker_order_id: f.maker.id,
                price: f.price,
                qty: f.qty,
                taker_side: live.side,
                taker_fee: fees.taker_fee(f.price, f.qty),
                maker_fee: fees.maker_fee(f.price, f.qty),
            },
        );
        proof {
            assert(fills@.take(i + 1) =~= fills@.take(i as int).push(f));
            assert(fills_events(fills@.take(i + 1), live, fees) =~= fills_events(fills@.take(i as int), live, fees).push(
                fill_event(f, live, fees),
            ));
        }
        i = i + 1;
    }
    proof {
        assert(fills@.take(i as int) =~= fills@);
    }
}

fn push_canceled(ids: &Vec<OrderId>, seq: SeqNum, out: &mut Vec<Event>)
    ensures
        final(out)@ == old(out)@ + canceled_events(ids@, seq),
        tagged_from(final(out)@, old(out)@.len() as int, seq),
{
    let mut i: usize = 0;
    while i < ids.len()
        invariant
            i <= ids@.len(),
            out@ == old(out)@ + canceled_events(ids@.take(i as int), seq),
            tagged_from(out@, old(out)@.len() as int, seq),
        decreases ids@.len() - i,
    {
        let id = ids[i];
        out.push(Event::Canceled { seq, order_id: id });
        proof {
            assert(ids@.take(i + 1) =~= ids@.take(i as int).push(id));
            assert(canceled_events(ids@.take(i + 1), seq) =~= canceled_events(ids@.take(i as int), seq).push(
                Event::Canceled { seq, order_id: id },
            ));
        }
        i = i + 1;
    }
    proof {
        assert(ids@.take(i as int) =~= ids@);
    }
}

/// The matching engine: the book, the dormant stops, the last trade price and the fees.
#[derive(Debug)]
pub struct MatchingEngine {
    book: OrderBook,
    stops: StopBook,
    last_trade_price: Option<Price>,
    fees: FeeConfig,
}

impl MatchingEngine {
    pub closed spec fn view(&self) -> EngineModel {
        EngineModel { book: self.book@, stops: self.stops@, last: self.last_trade_price, fees: self.fees }
    }

    pub closed spec fn wf(&self) -> bool {
        &&& self.book.wf()
        &&& stops_ok(self@)
    }

    /// A well-formed engine keeps the book invariant and its stops apart from the book.
    pub proof fn lemma_wf(&self)
        requires
            self.wf(),
        ensures
            book_inv(self@.book),
            stops_ok(self@),
    {
        self.book.lemma_wf();
    }

    pub fn new() -> (r: Self)
        ensures
            r.wf(),
            r@.book.bids.len() == 0,
            r@.book.asks.len() == 0,
            r@.book.accounts == Map::<AccountId, AccountState>::empty(),
            r@.stops.len() == 0,
            r@.last is None,
            r@.fees == (FeeConfig { maker_ppm: 0, taker_ppm: 0 }),
    {
        MatchingEngine { book: OrderBook::new(), stops: StopBook::new(), last_trade_price: None, fees: FeeConfig::new() }
    }

    pub fn book(&self) -> (r: &OrderBook)
        ensures
            r@ == self@.book,
            self.wf() ==> r.wf(),
    {
        &self.book
    }

    /// The number of dormant stop orders.
    pub fn pending_stops(&self) -> (r: usize)
        ensures
            r == self@.stops.len(),
    {
        self.stops.len()
    }

    /// The total quantity of the dormant stops.
    pub(crate) fn pending_volume(&self) -> (r: u64)
        requires
            stops_volume(self@.stops) <= u64::MAX,
        ensures
            r == stops_volume(self@.stops),
    {
        self.stops.volume()
    }

    pub fn last_trade_price(&self) -> (r: Option<Price>)
        ensures
            r == self@.last,
    {
        self.last_trade_price
    }

    pub fn fees(&self) -> (r: FeeConfig)
        ensures
            r == self@.fees,
    {
        self.fees
    }

    /// Every resting order with its side and reserve: bids, then asks, each in priority order.
    pub fn resting_orders(&self) -> (r: Vec<(Side, RestingOrder, Option<(Qty, Qty)>)>)
        ensures
            r@ == entries_of(self@.book.bids, Side::Buy) + entries_of(self@.book.asks, Side::Sell),
    {
        self.book.resting_orders()
    }

    /// The dormant stops, oldest first.
    pub fn pending_stops_data(&self) -> (r: Vec<PendingStop>)
        ensures
            r@ == self@.stops,
    {
        let src = self.stops.pending();
        let mut out: Vec<PendingStop> = Vec::new();
        let mut i: usize = 0;
        while i < src.len()
            invariant
                i <= src@.len(),
                out@ == src@.take(i as int),
            decreases src@.len() - i,
        {
            out.push(src[i]);
            proof {
                assert(src@.take(i + 1) =~= src@.take(i as int).push(src@[i as int]));
            }
            i = i + 1;
        }
        proof {
            assert(src@.take(i as int) =~= src@);
        }
        out
    }

    pub fn restore_last_trade_price(&mut self, price: Option<Price>)
        requires
            old(self).wf(),
        ensures
            final(self).wf(),
            final(self)@ == (EngineModel { last: price, ..old(self)@ }),
    {
        self.last_trade_price = price;
    }

    pub fn set_fees(&mut self, fees: FeeConfig)
        requires
            old(self).wf(),
        ensures
            final(self).wf(),
            final(self)@ == (EngineModel { fees, ..old(self)@ }),
    {
        self.fees = fees;
    }

    /// Puts a resting order back, with its iceberg reserve.
    pub fn restore_order(&mut self, side: Side, order: RestingOrder, reserve: Option<(Qty, Qty)>)
        requires
            old(self).wf(),
            !known_id(old(self)@, order.id),
            book_volume(old(self)@.book) + order.qty + (match reserve {
                Some((_, h)) => h as nat,
                None => 0nat,
            }) <= u64::MAX,
            reserve matches Some((d, h)) ==> d > 0 && h > 0,
        ensures
            final(self).wf(),
            book_volume(final(self)@.book) == book_volume(old(self)@.book) + order.qty + (match reserve {
                Some((_, h)) => h as nat,
                None => 0nat,
            }),
            forall|x: OrderId| #[trigger] known_id(final(self)@, x) <==> known_id(old(self)@, x) || x == order.id,
            forall|k: nat|
                k <= i128::MAX && nets_within(old(self)@.book.accounts, k) ==> #[trigger] nets_within(
                    final(self)@.book.accounts,
                    k,
                ),
            final(self)@ == (EngineModel {
                book: match reserve {
                    Some((d, h)) => add_reserve_spec(insert_spec(old(self)@.book, side, order), order.id, d, h),
                    None => insert_spec(old(self)@.book, side, order),
                },
                ..old(self)@
            }),
    {
        let ghost em = self@;
        proof {
            self.book.lemma_wf();
        }
        self.book.insert(side, order);
        proof {
            self.book.lemma_wf();
            lemma_insert_facts(em.book, side, order);
        }
        match reserve {
            Some((display, hidden)) => {
                self.book.add_reserve(order.id, display, hidden);
                proof {
                    lemma_add_reserve_facts(insert_spec(em.book, side, order), order.id, display, hidden);
                }
            },
            None => {},
        }
        proof {
            assert forall|k: nat| k <= i128::MAX && nets_within(em.book.accounts, k) implies #[trigger] nets_within(
                self@.book.accounts,
                k,
            ) by {
                let b1 = insert_spec(em.book, side, order);
                lemma_nets_open(em.book.accounts, order.owner, side, order.qty, k);
                match reserve {
                    Some((d, h)) => {
                        let (s1, i1) = locate(b1, order.id).unwrap();
                        lemma_nets_open(b1.accounts, b1.side(s1)[i1].order.owner, s1, h, k);
                    },
                    None => {},
                }
            }
            assert forall|x: OrderId| #[trigger] known_id(self@, x) <==> known_id(em, x) || x == order.id by {
                if exists|a: int| 0 <= a < self@.stops.len() && self@.stops[a].id == x {
                    let a = choose|a: int| 0 <= a < self@.stops.len() && self@.stops[a].id == x;
                    assert(em.stops[a].id == x);
                }
                if exists|a: int| 0 <= a < em.stops.len() && em.stops[a].id == x {
                    let a = choose|a: int| 0 <= a < em.stops.len() && em.stops[a].id == x;
                    assert(self@.stops[a].id == x);
                }
            }
        }
    }

    /// Whether `id` rests in the book or waits as a dormant stop.
    pub(crate) fn knows(&self, id: OrderId) -> (r: bool)
        requires
            self.wf(),
        ensures
            r == known_id(self@, id),
    {
        if self.book.contains(id) {
            return true;
        }
        let p = self.stops.pending();
        let mut i: usize = 0;
        while i < p.len()
            invariant
                i <= p@.len(),
                p@ == self@.stops,
                forall|a: int| 0 <= a < i ==> (#[trigger] p@[a]).id != id,
            decreases p@.len() - i,
        {
            if p[i].id == id {
                return true;
            }
            i = i + 1;
        }
        false
    }

    /// Parks a dormant stop again.
    pub fn restore_stop(&mut self, stop: PendingStop)
        requires
            old(self).wf(),
            !known_id(old(self)@, stop.id),
        ensures
            final(self).wf(),
            final(self)@ == (EngineModel { stops: old(self)@.stops.push(stop), ..old(self)@ }),
    {
        self.stops.park(stop);
    }

    /// Sets the net position of `owner` as a snapshot recorded it.
    pub fn restore_account_net(&mut self, owner: AccountId, net: i128)
        requires
            old(self).wf(),
        ensures
            final(self).wf(),
            final(self)@ == (EngineModel {
                book: old(self)@.book.with_accounts(restore_net_spec(old(self)@.book.accounts, owner, net)),
                ..old(self)@
            }),
    {
        self.book.restore_account_net(owner, net);
    }

    fn precheck(&self, side: Side, limit_price: Option<Price>, qty: Qty, tif: TimeInForce) -> (r: Result<(), RejectReason>)
        requires
            self.wf(),
        ensures
            r == precheck_spec(self@.book, side, limit_price, qty, tif),
    {
        if tif == TimeInForce::Fok && self.book.available_qty(side, limit_price) < qty {
            return Err(RejectReason::InsufficientLiquidity);
        }
        if tif == TimeInForce::PostOnly && self.book.would_cross(side, limit_price) {
            return Err(RejectReason::WouldCross);
        }
        Ok(())
    }
}


/// Removing a stop makes no id known that was not known before, and the removed stop's id
/// was known.
pub proof fn lemma_known_remove(em: EngineModel, i: int)
    requires
        0 <= i < em.stops.len(),
    ensures
        known_id(em, em.stops[i].id),
        forall|x: OrderId| #[trigger] known_id(EngineModel { stops: em.stops.remove(i), ..em }, x) ==> known_id(em, x),
{
    let s2 = em.stops.remove(i);
    assert forall|x: OrderId| #[trigger] known_id(EngineModel { stops: s2, ..em }, x) implies known_id(em, x) by {
        if !contains_spec(em.book, x) {
            let a = choose|a: int| 0 <= a < s2.len() && s2[a].id == x;
            if a < i {
                assert(em.stops[a] == s2[a]);
            } else {
                assert(em.stops[a + 1] == s2[a]);
            }
        }
    }
}

/// Taking the stop at index `i` out of a valid engine leaves a valid engine, and the stop
/// neither rests nor stays pending.
proof fn lemma_take_stop(em: EngineModel, i: int)
    requires
        stops_ok(em),
        0 <= i < em.stops.len(),
    ensures
        stops_ok(EngineModel { stops: em.stops.remove(i), ..em }),
        !contains_spec(em.book, em.stops[i].id),
        forall|a: int| 0 <= a < em.stops.remove(i).len() ==> (#[trigger] em.stops.remove(i)[a]).id != em.stops[i].id,
        stops_volume(em.stops.remove(i)) + em.stops[i].qty == stops_volume(em.stops),
{
    lemma_stops_volume_remove(em.stops, i);
    let em1 = EngineModel { stops: em.stops.remove(i), ..em };
    assert forall|a: int, b: int| 0 <= a < b < em1.stops.len() implies (#[trigger] em1.stops[a]).id
        != (#[trigger] em1.stops[b]).id by {
        let a0 = if a < i { a } else { a + 1 };
        let b0 = if b < i { b } else { b + 1 };
        assert(em1.stops[a] == em.stops[a0] && em1.stops[b] == em.stops[b0]);
    }
    assert forall|a: int| 0 <= a < em1.stops.len() implies !contains_spec(em1.book, (#[trigger] em1.stops[a]).id) by {
        let a0 = if a < i { a } else { a + 1 };
        assert(em1.stops[a] == em.stops[a0]);
    }
    assert forall|a: int| 0 <= a < em1.stops.len() implies (#[trigger] em1.stops[a]).id != em.stops[i].id by {
        if a < i {
            assert(em1.stops[a] == em.stops[a]);
        } else {
            assert(em1.stops[a] == em.stops[a + 1]);
        }
    }
}

impl MatchingEngine {
    /// Matches `live`, reports its executions and pulled makers, and fills, rests or cancels
    /// what is left of it.
    #[verifier::rlimit(100)]
    fn settle(&mut self, live: Live, out: &mut Vec<Event>, Ghost(slack): Ghost<nat>)
        requires
            old(self).wf(),
            room(old(self)@, live.qty as nat + slack),
            !contains_spec(old(self)@.book, live.order_id),
            forall|i: int| 0 <= i < old(self)@.stops.len() ==> (#[trigger] old(self)@.stops[i]).id != live.order_id,
        ensures
            final(self).wf(),
            final(self)@ == settle_spec(old(self)@, live).0,
            final(out)@ == old(out)@ + settle_spec(old(self)@, live).1,
            room(final(self)@, slack),
            final(self)@.stops == old(self)@.stops,
            forall|x: OrderId| #[trigger] contains_spec(final(self)@.book, x) ==> contains_spec(old(self)@.book, x) || x == live.order_id,
            uncrossed(old(self)@.book) ==> uncrossed(final(self)@.book),
            tagged_from(final(out)@, old(out)@.len() as int, live.seq),
    {
        let ghost em = self@;
        let ghost t = taker_of(live);
        let ghost sv: nat = stops_volume(em.stops) + slack;
        proof {
            self.book.lemma_wf();
            lemma_nets_within_mono(em.book.accounts, sv + live.qty as nat, live.qty as nat);
        }
        let mut fills: Vec<Fill> = Vec::new();
        let r = self.book.match_against(live.side, live.owner, live.stp, live.limit_price, live.qty, &mut fills);
        let ghost start = match_start(em.book, live.qty);
        let ghost fin = outcome_state(self.book@, r, fills@);
        proof {
            assert(fills@.skip(0) =~= fills@);
            lemma_match_final(start, t, fin);
            let n = choose|n: nat| fin == match_run(start, t, n) && match_done(fin, t);
            lemma_run(start, t, n, sv);
            assert forall|x: OrderId| #[trigger] contains_spec(fin.book, x) implies contains_spec(em.book, x) by {
                if live.side == Side::Buy {
                    if has_id(fin.book.asks, x) {
                        assert(has_id(fin.book.side(Side::Sell), x));
                    }
                } else {
                    if has_id(fin.book.bids, x) {
                        assert(has_id(fin.book.side(Side::Buy), x));
                    }
                }
            }
            lemma_nets_within_mono(fin.book.accounts, fin.qty as nat + sv, sv);
            if uncrossed(em.book) {
                lemma_shrink_uncrossed(em.book, fin.book, live.side);
            }
        }
        let fees = self.fees;
        push_fills(&fills, live, fees, out);
        if fills.len() > 0 {
            self.last_trade_price = Some(fills[fills.len() - 1].price);
        }
        push_canceled(&r.self_canceled, live.seq, out);
        let ghost em1 = self@;
        let ghost out1 = out@;
        proof {
            assert(stops_ok(em1)) by {
                assert forall|a: int| 0 <= a < em1.stops.len() implies !contains_spec(em1.book, (#[trigger] em1.stops[a]).id) by {
                    assert(!contains_spec(em.book, em.stops[a].id));
                }
            }
        }
        self.settle_remainder(live, r.remaining, r.taker_canceled, out, Ghost(slack));
        proof {
            assert(out@ == out1 + settle_rest(em1, live, r.remaining, r.taker_canceled).1);
            assert(out@ =~= old(out)@ + settle_spec(em, live).1);
        }
    }

    /// Rests, fills or cancels what matching left of `live`.
    fn settle_remainder(&mut self, live: Live, remaining: Qty, taker_canceled: bool, out: &mut Vec<Event>, Ghost(slack): Ghost<nat>)
        requires
            old(self).wf(),
            book_volume(old(self)@.book) + remaining + stops_volume(old(self)@.stops) + slack <= u64::MAX,
            nets_within(old(self)@.book.accounts, stops_volume(old(self)@.stops) + slack),
            !contains_spec(old(self)@.book, live.order_id),
            forall|i: int| 0 <= i < old(self)@.stops.len() ==> (#[trigger] old(self)@.stops[i]).id != live.order_id,
        ensures
            final(self).wf(),
            final(self)@ == settle_rest(old(self)@, live, remaining, taker_canceled).0,
            final(out)@ == old(out)@ + settle_rest(old(self)@, live, remaining, taker_canceled).1,
            room(final(self)@, slack),
            final(self)@.stops == old(self)@.stops,
            forall|x: OrderId| #[trigger] contains_spec(final(self)@.book, x) ==> contains_spec(old(self)@.book, x) || x == live.order_id,
            uncrossed(old(self)@.book) && (remaining > 0 && !taker_canceled ==> rest_ok(old(self)@.book, live.side, live.limit_price))
                ==> uncrossed(final(self)@.book),
            tagged_from(final(out)@, old(out)@.len() as int, live.seq),
    {
        let ghost em = self@;
        let ghost sv: nat = stops_volume(em.stops) + slack;
        proof {
            self.book.lemma_wf();
        }
        if taker_canceled {
            out.push(Event::Canceled { seq: live.seq, order_id: live.order_id });
            return;
        }
        if remaining == 0 {
            out.push(Event::Filled { seq: live.seq, order_id: live.order_id });
            return;
        }
        match live.limit_price {
            Some(price) => {
                if live.tif == TimeInForce::Gtc || live.tif == TimeInForce::PostOnly {
                    let (visible, hidden) = if live.display > 0 && live.display < remaining {
                        (live.display, remaining - live.display)
                    } else {
                        (remaining, 0)
                    };
                    let order = RestingOrder {
                        id: live.order_id,
                        seq: live.seq,
                        price,
                        qty: visible,
                        timestamp: live.timestamp,
                        owner: live.owner,
                    };
                    self.book.insert(live.side, order);
                    let ghost b1 = self.book@;
                    proof {
                        self.book.lemma_wf();
                        lemma_insert_facts(em.book, live.side, order);
                        lemma_nets_open(em.book.accounts, order.owner, live.side, visible, sv);
                        if uncrossed(em.book) && rest_ok(em.book, live.side, live.limit_price) {
                            lemma_insert_uncrossed(em.book, live.side, order);
                        }
                    }
                    if hidden > 0 {
                        self.book.add_reserve(live.order_id, live.display, hidden);
                        proof {
                            lemma_add_reserve_facts(b1, live.order_id, live.display, hidden);
                            lemma_add_reserve_best(b1, live.order_id, live.display, hidden);
                            let (side2, i2) = crate::book::model::locate(b1, live.order_id).unwrap();
                            let owner2 = b1.side(side2)[i2].order.owner;
                            lemma_nets_open(b1.accounts, owner2, side2, hidden, sv);
                        }
                    }
                    out.push(Event::Resting { seq: live.seq, order_id: live.order_id, price, qty: visible });
                    proof {
                        let em2 = self@;
                        assert forall|a: int| 0 <= a < em2.stops.len() implies !contains_spec(em2.book, (#[trigger] em2.stops[a]).id) by {
                            assert(!contains_spec(em.book, em.stops[a].id));
                            assert(em.stops[a].id != live.order_id);
                        }
                    }
                    return;
                }
            },
            None => {},
        }
        out.push(Event::Canceled { seq: live.seq, order_id: live.order_id });
    }

    /// Reports `stop` as triggered, admits it by its time-in-force and matches it.
    fn fire(&mut self, stop: PendingStop, seq: SeqNum, timestamp: Timestamp, out: &mut Vec<Event>, Ghost(slack): Ghost<nat>)
        requires
            old(self).wf(),
            room(old(self)@, stop.qty as nat + slack),
            !contains_spec(old(self)@.book, stop.id),
            forall|i: int| 0 <= i < old(self)@.stops.len() ==> (#[trigger] old(self)@.stops[i]).id != stop.id,
        ensures
            final(self).wf(),
            room(final(self)@, slack),
            final(self)@.stops == old(self)@.stops,
            forall|x: OrderId| #[trigger] contains_spec(final(self)@.book, x) ==> contains_spec(old(self)@.book, x) || x == stop.id,
            uncrossed(old(self)@.book) ==> uncrossed(final(self)@.book),
            tagged_from(final(out)@, old(out)@.len() as int, seq),
            final(out)@.len() >= old(out)@.len(),
            final(out)@.take(old(out)@.len() as int) == old(out)@,
            (final(self)@, final(out)@) == fire_spec(old(self)@, old(out)@, stop, seq, timestamp),
    {
        proof {
            reveal(fire_spec);
        }
        out.push(Event::Triggered { seq, order_id: stop.id });
        let limit_price = if stop.activates_to == OrderType::Limit {
            Some(stop.limit_price)
        } else {
            None
        };
        let live = Live {
            seq,
            order_id: stop.id,
            side: stop.side,
            limit_price,
            qty: stop.qty,
            tif: stop.tif,
            timestamp,
            display: 0,
            owner: stop.owner,
            stp: stop.stp,
        };
        proof {
            assert(live == stop_live(stop, seq, timestamp));
        }
        match self.precheck(stop.side, limit_price, stop.qty, stop.tif) {
            Err(reason) => {
                out.push(Event::Rejected { seq, reason });
                proof {
                    lemma_nets_within_mono(self@.book.accounts, stops_volume(self@.stops) + stop.qty as nat + slack, stops_volume(self@.stops) + slack);
                    assert(out@.take(old(out)@.len() as int) =~= old(out)@);
                }
            },
            Ok(()) => {
                let ghost pre = out@;
                self.settle(live, out, Ghost(slack));
                proof {
                    assert(out@ == pre + settle_spec(old(self)@, live).1);
                    assert(out@.take(pre.len() as int) =~= pre);
                    lemma_tagged_extend(pre, out@, old(out)@.len() as int, seq);
                    assert(out@.take(old(out)@.len() as int) =~= old(out)@);
                }
            },
        }
    }

    /// Fires the oldest dormant stop that the last trade price reaches; `false` when none does.
    #[verifier::spinoff_prover]
    #[verifier::rlimit(40)]
    fn drive_once(&mut self, seq: SeqNum, timestamp: Timestamp, out: &mut Vec<Event>, Ghost(slack): Ghost<nat>) -> (fired: bool)
        requires
            old(self).wf(),
            room(old(self)@, slack),
        ensures
            final(self).wf(),
            room(final(self)@, slack),
            fired == !drive_done(old(self)@),
            (final(self)@, final(out)@) == drive_step((old(self)@, old(out)@), seq, timestamp),
            fired ==> final(self)@.stops.len() < old(self)@.stops.len(),
            forall|x: OrderId| #[trigger] known_id(final(self)@, x) ==> known_id(old(self)@, x),
            uncrossed(old(self)@.book) ==> uncrossed(final(self)@.book),
            tagged_from(final(out)@, old(out)@.len() as int, seq),
            final(out)@.len() >= old(out)@.len(),
            final(out)@.take(old(out)@.len() as int) == old(out)@,
    {
        let ghost em = self@;
        proof {
            assert(out@.take(out@.len() as int) =~= out@);
        }
        if self.last_trade_price.is_none() {
            return false;
        }
        let last = self.last_trade_price.unwrap();
        let taken = self.stops.take_triggered(last);
        match taken {
            None => false,
            Some(stop) => {
                let ghost i = crate::stops::first_index(em.stops, fires_fn(last)).unwrap();
                proof {
                    crate::stops::lemma_first_index_found(em.stops, fires_fn(last));
                    lemma_take_stop(em, i);
                    lemma_known_remove(em, i);
                }
                let ghost em1 = self@;
                self.fire(stop, seq, timestamp, out, Ghost(slack));
                proof {
                    assert forall|x: OrderId| #[trigger] known_id(self@, x) implies known_id(em, x) by {
                        if contains_spec(self@.book, x) {
                            if x != stop.id {
                                assert(contains_spec(em1.book, x));
                                assert(known_id(em1, x));
                            }
                        } else {
                            let a = choose|a: int| 0 <= a < self@.stops.len() && self@.stops[a].id == x;
                            assert(em1.stops[a].id == x);
                            assert(known_id(em1, x));
                        }
                    }
                }
                true
            },
        }
    }

    /// Fires the dormant stops that the last trade price reaches, oldest first, until none
    /// fires.
    fn drive_stops(&mut self, seq: SeqNum, timestamp: Timestamp, out: &mut Vec<Event>, Ghost(slack): Ghost<nat>)
        requires
            old(self).wf(),
            room(old(self)@, slack),
        ensures
            final(self).wf(),
            room(final(self)@, slack),
            exists|n: nat| #[trigger] drive_run((old(self)@, old(out)@), seq, timestamp, n) == (final(self)@, final(out)@)
                && drive_done(final(self)@),
            forall|x: OrderId| #[trigger] known_id(final(self)@, x) ==> known_id(old(self)@, x),
            uncrossed(old(self)@.book) ==> uncrossed(final(self)@.book),
            tagged_from(final(out)@, old(out)@.len() as int, seq),
            final(out)@.len() >= old(out)@.len(),
            final(out)@.take(old(out)@.len() as int) == old(out)@,
    {
        let ghost st0 = (self@, out@);
        let ghost em0 = self@;
        let ghost mut n: nat = 0;
        proof {
            assert(out@.take(out@.len() as int) =~= out@);
        }
        loop
            invariant
                self.wf(),
                room(self@, slack),
                drive_run(st0, seq, timestamp, n) == (self@, out@),
                forall|x: OrderId| #[trigger] known_id(self@, x) ==> known_id(em0, x),
                uncrossed(em0.book) ==> uncrossed(self@.book),
                tagged_from(out@, st0.1.len() as int, seq),
                out@.len() >= st0.1.len(),
                out@.take(st0.1.len() as int) == st0.1,
            ensures
                self.wf(),
                room(self@, slack),
                drive_run(st0, seq, timestamp, n) == (self@, out@),
                drive_done(self@),
                forall|x: OrderId| #[trigger] known_id(self@, x) ==> known_id(em0, x),
                uncrossed(em0.book) ==> uncrossed(self@.book),
                tagged_from(out@, st0.1.len() as int, seq),
                out@.len() >= st0.1.len(),
                out@.take(st0.1.len() as int) == st0.1,
            decreases self@.stops.len(),
        {
            let ghost out1 = out@;
            let ghost em = self@;
            let fired = self.drive_once(seq, timestamp, out, Ghost(slack));
            proof {
                lemma_tagged_extend(out1, out@, st0.1.len() as int, seq);
                assert(out@.take(st0.1.len() as int) =~= out1.take(st0.1.len() as int));
            }
            if !fired {
                break;
            }
            proof {
                assert(drive_run(st0, seq, timestamp, n + 1) == drive_step(drive_run(st0, seq, timestamp, n), seq, timestamp));
                n = n + 1;
            }
        }
    }
}


/// Running the stops after events `pre` and then `evs`: the state and the new events are
/// those of `drive_final` from `evs` alone.
proof fn lemma_drive_out(em: EngineModel, pre: Seq<Event>, evs: Seq<Event>, seq: SeqNum, ts: Timestamp, n: nat)
    requires
        drive_done(drive_run((em, pre + evs), seq, ts, n).0),
    ensures
        drive_run((em, pre + evs), seq, ts, n) == (
            drive_final((em, evs), seq, ts).0,
            pre + drive_final((em, evs), seq, ts).1,
        ),
{
    lemma_drive_prefix(em, pre, evs, seq, ts, n);
    lemma_drive_final_prefix(em, pre, evs, seq, ts, n);
    lemma_drive_final((em, pre + evs), seq, ts, n);
}

impl MatchingEngine {
    fn accept_stop(
        &mut self,
        seq: SeqNum,
        order_id: OrderId,
        order: NewOrder,
        trigger: Price,
        activates_to: OrderType,
        limit_price: Price,
        timestamp: Timestamp,
        out: &mut Vec<Event>,
    )
        requires
            old(self).wf(),
            room(old(self)@, order.qty as nat),
            !known_id(old(self)@, order_id),
        ensures
            final(self).wf(),
            room(final(self)@, 0),
            ({
                let stop = PendingStop {
                    id: order_id,
                    side: order.side,
                    trigger,
                    activates_to,
                    limit_price,
                    qty: order.qty,
                    tif: order.tif,
                    owner: order.owner,
                    stp: order.stp,
                };
                let r = drive_final(
                    (EngineModel { stops: old(self)@.stops.push(stop), ..old(self)@ }, seq![Event::Accepted { seq, order_id }]),
                    seq,
                    timestamp,
                );
                final(self)@ == r.0 && final(out)@ == old(out)@ + r.1
            }),
            forall|x: OrderId| #[trigger] known_id(final(self)@, x) ==> known_id(old(self)@, x) || x == order_id,
            uncrossed(old(self)@.book) ==> uncrossed(final(self)@.book),
            tagged_from(final(out)@, old(out)@.len() as int, seq),
    {
        let ghost out0 = out@;
        out.push(Event::Accepted { seq, order_id });
        let stop = PendingStop {
            id: order_id,
            side: order.side,
            trigger,
            activates_to,
            limit_price,
            qty: order.qty,
            tif: order.tif,
            owner: order.owner,
            stp: order.stp,
        };
        let ghost em = self@;
        self.stops.park(stop);
        proof {
            lemma_stops_volume_push(em.stops, stop);
            let em1 = self@;
            assert forall|a: int, b: int| 0 <= a < b < em1.stops.len() implies (#[trigger] em1.stops[a]).id
                != (#[trigger] em1.stops[b]).id by {
                if b == em.stops.len() {
                    assert(em.stops[a].id != order_id);
                } else {
                    assert(em1.stops[a] == em.stops[a] && em1.stops[b] == em.stops[b]);
                }
            }
            assert forall|a: int| 0 <= a < em1.stops.len() implies !contains_spec(em1.book, (#[trigger] em1.stops[a]).id) by {
                if a < em.stops.len() {
                    assert(em1.stops[a] == em.stops[a]);
                }
            }
            assert(out@ == out0 + seq![Event::Accepted { seq, order_id }]);
        }
        let ghost em1 = self@;
        self.drive_stops(seq, timestamp, out, Ghost(0));
        proof {
            let n = choose|n: nat| #[trigger] drive_run((em1, out0 + seq![Event::Accepted { seq, order_id }]), seq, timestamp, n) == (self@, out@)
                && drive_done(self@);
            lemma_drive_out(em1, out0, seq![Event::Accepted { seq, order_id }], seq, timestamp, n);
            lemma_tagged_extend(out0 + seq![Event::Accepted { seq, order_id }], out@, out0.len() as int, seq);
            assert forall|x: OrderId| #[trigger] known_id(self@, x) implies known_id(em, x) || x == order_id by {
                assert(known_id(em1, x));
                if !contains_spec(em1.book, x) {
                    let a = choose|a: int| 0 <= a < em1.stops.len() && em1.stops[a].id == x;
                    if a < em.stops.len() {
                        assert(em1.stops[a] == em.stops[a]);
                    }
                }
            }
        }
    }

    /// Admits, accepts and matches a limit, market or iceberg order, then drives the stops.
    #[verifier::rlimit(60)]
    fn accept_live(&mut self, seq: SeqNum, order_id: OrderId, order: NewOrder, timestamp: Timestamp, out: &mut Vec<Event>)
        requires
            old(self).wf(),
            room(old(self)@, order.qty as nat),
            !known_id(old(self)@, order_id),
            !(order.order_type is Stop),
            !(order.order_type is StopLimit),
        ensures
            final(self).wf(),
            room(final(self)@, 0),
            final(self)@ == new_spec(old(self)@, seq, order_id, order, timestamp).0,
            final(out)@ == old(out)@ + new_spec(old(self)@, seq, order_id, order, timestamp).1,
            forall|x: OrderId| #[trigger] known_id(final(self)@, x) ==> known_id(old(self)@, x) || x == order_id,
            uncrossed(old(self)@.book) ==> uncrossed(final(self)@.book),
            tagged_from(final(out)@, old(out)@.len() as int, seq),
    {
        let ghost em = self@;
        let ghost out0 = out@;
        let (limit, display) = match order.order_type {
            OrderType::Limit => (Some(order.price), 0u64),
            OrderType::Iceberg { display } => (Some(order.price), display),
            _ => (None, 0u64),
        };
        match self.precheck(order.side, limit, order.qty, order.tif) {
            Err(reason) => {
                out.push(Event::Rejected { seq, reason });
                proof {
                    lemma_nets_within_mono(em.book.accounts, stops_volume(em.stops) + order.qty as nat, stops_volume(em.stops));
                    assert(out@ == out0 + seq![Event::Rejected { seq, reason }]);
                }
            },
            Ok(()) => {
                out.push(Event::Accepted { seq, order_id });
                let live = Live {
                    seq,
                    order_id,
                    side: order.side,
                    limit_price: limit,
                    qty: order.qty,
                    tif: order.tif,
                    timestamp,
                    display,
                    owner: order.owner,
                    stp: order.stp,
                };
                proof {
                    assert(stops_volume(em.stops) + (live.qty as nat + 0) == stops_volume(em.stops) + order.qty as nat);
                }
                let ghost out_a = out@;
                self.settle(live, out, Ghost(0));
                let ghost em1 = self@;
                let ghost acc = seq![Event::Accepted { seq, order_id }];
                let ghost evs = settle_spec(em, live).1;
                proof {
                    assert(out@ == out0 + (acc + evs));
                    assert(out@.take(out_a.len() as int) =~= out_a);
                    lemma_tagged_extend(out_a, out@, out0.len() as int, seq);
                }
                let ghost out_s = out@;
                self.drive_stops(seq, timestamp, out, Ghost(0));
                proof {
                    let n = choose|n: nat| #[trigger] drive_run((em1, out0 + (acc + evs)), seq, timestamp, n) == (self@, out@)
                        && drive_done(self@);
                    lemma_drive_out(em1, out0, acc + evs, seq, timestamp, n);
                    lemma_tagged_extend(out_s, out@, out0.len() as int, seq);
                    assert forall|x: OrderId| #[trigger] known_id(self@, x) implies known_id(em, x) || x == order_id by {
                        assert(known_id(em1, x));
                        if !contains_spec(em1.book, x) {
                            let a = choose|a: int| 0 <= a < em1.stops.len() && em1.stops[a].id == x;
                            assert(em.stops[a].id == x);
                        }
                    }
                }
            },
        }
    }

    /// Carries out a new order: a stop is accepted and parked; any other order is admitted
    /// by its time-in-force, accepted and matched; stops that fire are then driven.
    pub fn execute_new(&mut self, seq: SeqNum, order_id: OrderId, order: NewOrder, timestamp: Timestamp, out: &mut Vec<Event>)
        requires
            old(self).wf(),
            room(old(self)@, order.qty as nat),
            !known_id(old(self)@, order_id),
        ensures
            final(self).wf(),
            room(final(self)@, 0),
            final(self)@ == new_spec(old(self)@, seq, order_id, order, timestamp).0,
            final(out)@ == old(out)@ + new_spec(old(self)@, seq, order_id, order, timestamp).1,
            forall|x: OrderId| #[trigger] known_id(final(self)@, x) ==> known_id(old(self)@, x) || x == order_id,
            uncrossed(old(self)@.book) ==> uncrossed(final(self)@.book),
            tagged_from(final(out)@, old(out)@.len() as int, seq),
    {
        match order.order_type {
            OrderType::Stop { trigger } => {
                self.accept_stop(seq, order_id, order, trigger, OrderType::Market, 0, timestamp, out);
            },
            OrderType::StopLimit { trigger } => {
                self.accept_stop(seq, order_id, order, trigger, OrderType::Limit, order.price, timestamp, out);
            },
            _ => {
                self.accept_live(seq, order_id, order, timestamp, out);
            },
        }
    }

    /// Cancels a resting order, else a dormant stop; an unknown id is rejected.
    pub fn execute_cancel(&mut self, seq: SeqNum, order_id: OrderId, out: &mut Vec<Event>)
        requires
            old(self).wf(),
            room(old(self)@, 0),
        ensures
            final(self).wf(),
            room(final(self)@, 0),
            final(self)@ == cancel_cmd_spec(old(self)@, seq, order_id).0,
            final(out)@ == old(out)@ + cancel_cmd_spec(old(self)@, seq, order_id).1,
            forall|x: OrderId| #[trigger] known_id(final(self)@, x) ==> known_id(old(self)@, x),
            uncrossed(old(self)@.book) ==> uncrossed(final(self)@.book),
            tagged_from(final(out)@, old(out)@.len() as int, seq),
    {
        let ghost em = self@;
        proof {
            self.book.lemma_wf();
            lemma_cancel_facts(em.book, order_id);
            if uncrossed(em.book) {
                lemma_cancel_uncrossed(em.book, order_id);
            }
        }
        let r = self.book.cancel(order_id);
        if r.is_some() {
            out.push(Event::Canceled { seq, order_id });
            proof {
                let (side, i) = crate::book::model::locate(em.book, order_id).unwrap();
                let e = em.book.side(side)[i];
                lemma_nets_open(em.book.accounts, e.order.owner, side, crate::book::model::vol(e) as u64, stops_volume(em.stops));
                assert(out@ == old(out)@ + seq![Event::Canceled { seq, order_id }]);
            }
            return;
        }
        let s = self.stops.cancel(order_id);
        if s.is_some() {
            out.push(Event::Canceled { seq, order_id });
            proof {
                crate::stops::lemma_first_index_found(em.stops, has_id_fn(order_id));
                let i = crate::stops::first_index(em.stops, has_id_fn(order_id)).unwrap();
                lemma_take_stop(em, i);
                lemma_known_remove(em, i);
                lemma_nets_within_mono(em.book.accounts, stops_volume(em.stops), stops_volume(self@.stops));
                assert(out@ == old(out)@ + seq![Event::Canceled { seq, order_id }]);
            }
        } else {
            out.push(Event::Rejected { seq, reason: RejectReason::UnknownOrder });
            proof {
                assert(out@ == old(out)@ + seq![Event::Rejected { seq, reason: RejectReason::UnknownOrder }]);
            }
        }
    }

    fn replace(
        &mut self,
        seq: SeqNum,
        modify: ModifyOrder,
        timestamp: Timestamp,
        side: Side,
        owner: AccountId,
        display: Qty,
        out: &mut Vec<Event>,
    )
        requires
            old(self).wf(),
            room(old(self)@, modify.qty as nat),
            contains_spec(old(self)@.book, modify.order_id),
        ensures
            final(self).wf(),
            room(final(self)@, 0),
            final(self)@ == replace_spec(old(self)@, seq, modify, timestamp, side, owner, display).0,
            final(out)@ == old(out)@ + replace_spec(old(self)@, seq, modify, timestamp, side, owner, display).1,
            forall|x: OrderId| #[trigger] known_id(final(self)@, x) ==> known_id(old(self)@, x),
            uncrossed(old(self)@.book) ==> uncrossed(final(self)@.book),
            tagged_from(final(out)@, old(out)@.len() as int, seq),
    {
        let ghost em = self@;
        let ghost out0 = out@;
        out.push(Event::Modified { seq, order_id: modify.order_id });
        proof {
            self.book.lemma_wf();
            lemma_cancel_facts(em.book, modify.order_id);
            if uncrossed(em.book) {
                lemma_cancel_uncrossed(em.book, modify.order_id);
            }
            let (s0, i0) = crate::book::model::locate(em.book, modify.order_id).unwrap();
            let e = em.book.side(s0)[i0];
            lemma_nets_open(
                em.book.accounts,
                e.order.owner,
                s0,
                crate::book::model::vol(e) as u64,
                stops_volume(em.stops) + modify.qty as nat,
            );
            assert forall|a: int| 0 <= a < em.stops.len() implies (#[trigger] em.stops[a]).id != modify.order_id by {
                assert(!contains_spec(em.book, em.stops[a].id));
            }
        }
        self.book.cancel(modify.order_id);
        let live = Live {
            seq,
            order_id: modify.order_id,
            side,
            limit_price: Some(modify.price),
            qty: modify.qty,
            tif: TimeInForce::Gtc,
            timestamp,
            display,
            owner,
            stp: StpMode::Off,
        };
        let ghost em1 = self@;
        proof {
            assert(stops_volume(em1.stops) + (live.qty as nat + 0) == stops_volume(em.stops) + modify.qty as nat);
        }
        let ghost out_m = out@;
        self.settle(live, out, Ghost(0));
        let ghost em2 = self@;
        let ghost md = seq![Event::Modified { seq, order_id: modify.order_id }];
        let ghost evs = settle_spec(em1, live).1;
        proof {
            assert(out@ == out0 + (md + evs));
            assert(out@.take(out_m.len() as int) =~= out_m);
            lemma_tagged_extend(out_m, out@, out0.len() as int, seq);
        }
        let ghost out_s = out@;
        self.drive_stops(seq, timestamp, out, Ghost(0));
        proof {
            let n = choose|n: nat| #[trigger] drive_run((em2, out0 + (md + evs)), seq, timestamp, n) == (self@, out@)
                && drive_done(self@);
            lemma_drive_out(em2, out0, md + evs, seq, timestamp, n);
            lemma_tagged_extend(out_s, out@, out0.len() as int, seq);
            assert forall|x: OrderId| #[trigger] known_id(self@, x) implies known_id(em, x) by {
                assert(known_id(em2, x));
                if contains_spec(em2.book, x) {
                    if x != modify.order_id {
                        assert(contains_spec(em1.book, x));
                    }
                } else {
                    let a = choose|a: int| 0 <= a < em2.stops.len() && em2.stops[a].id == x;
                    assert(em.stops[a].id == x);
                }
            }
        }
    }

    /// Amends a resting order: an iceberg is re-placed with its display; a pure size
    /// reduction at the same price keeps its priority; anything else re-places the order.
    pub fn execute_modify(&mut self, seq: SeqNum, modify: ModifyOrder, timestamp: Timestamp, out: &mut Vec<Event>)
        requires
            old(self).wf(),
            room(old(self)@, modify.qty as nat),
        ensures
            final(self).wf(),
            room(final(self)@, 0),
            final(self)@ == modify_spec(old(self)@, seq, modify, timestamp).0,
            final(out)@ == old(out)@ + modify_spec(old(self)@, seq, modify, timestamp).1,
            forall|x: OrderId| #[trigger] known_id(final(self)@, x) ==> known_id(old(self)@, x),
            uncrossed(old(self)@.book) ==> uncrossed(final(self)@.book),
            tagged_from(final(out)@, old(out)@.len() as int, seq),
    {
        let ghost em = self@;
        proof {
            self.book.lemma_wf();
            lemma_nets_within_mono(em.book.accounts, stops_volume(em.stops) + modify.qty as nat, stops_volume(em.stops));
        }
        match self.book.get(modify.order_id) {
            None => {
                out.push(Event::Rejected { seq, reason: RejectReason::UnknownOrder });
                proof {
                    assert(out@ == old(out)@ + seq![Event::Rejected { seq, reason: RejectReason::UnknownOrder }]);
                }
            },
            Some((side, current)) => {
                proof {
                    assert(contains_spec(em.book, modify.order_id));
                }
                match self.book.reserve(modify.order_id) {
                    Some((display, _)) => {
                        self.replace(seq, modify, timestamp, side, current.owner, display, out);
                    },
                    None => {
                        if modify.price == current.price && modify.qty <= current.qty {
                            out.push(Event::Modified { seq, order_id: modify.order_id });
                            if modify.qty < current.qty {
                                proof {
                                    lemma_reduce_facts(em.book, modify.order_id, modify.qty);
                                    lemma_reduce_best(em.book, modify.order_id, modify.qty);
                                    let (s0, i0) = crate::book::model::locate(em.book, modify.order_id).unwrap();
                                    let e = em.book.side(s0)[i0];
                                    lemma_nets_open(
                                        em.book.accounts,
                                        e.order.owner,
                                        s0,
                                        (e.order.qty - modify.qty) as u64,
                                        stops_volume(em.stops),
                                    );
                                }
                                self.book.reduce(modify.order_id, modify.qty);
                            }
                            out.push(
                                Event::Resting { seq, order_id: modify.order_id, price: modify.price, qty: modify.qty },
                            );
                            proof {
                                assert(out@ == old(out)@ + seq![
                                    Event::Modified { seq, order_id: modify.order_id },
                                    Event::Resting { seq, order_id: modify.order_id, price: modify.price, qty: modify.qty },
                                ]);
                            }
                        } else {
                            self.replace(seq, modify, timestamp, side, current.owner, 0, out);
                        }
                    },
                }
            },
        }
    }
}

impl Default for MatchingEngine {
    fn default() -> (r: Self)
        ensures
            r.wf(),
            r@.book.bids.len() == 0,
            r@.book.asks.len() == 0,
            r@.book.accounts == Map::<AccountId, AccountState>::empty(),
            r@.stops.len() == 0,
            r@.last is None,
            r@.fees == (FeeConfig { maker_ppm: 0, taker_ppm: 0 }),
    {
        MatchingEngine::new()
    }
}

} // verus!

use vstd::prelude::*;

use crate::book::model::{
    lemma_index_of_id, add_reserve_spec, insert_spec, side_insert, insert_pos, lemma_insert_pos, RestingOrder,
    book_inv, book_volume, ids_disjoint, ids_distinct, cancel_spec, contains_spec, get_spec, has_id, lemma_remove_inv,
    orders_at, lemma_sum_le, lemma_sum_remove, lemma_sum_update, lemma_sum_insert, vol, level_fn, locate, reduce_spec, sum_by,
    vol_fn, BookEntry, BookModel,
};
use crate::l3feed::{l3_result, l3_scan, l3_scan_event, lemma_l3_levels, side_levels, touch_loc, L3State, Level};
use crate::marketdata::{
    has_price, level_map,
    diff_map, forget, l2_scan, l2_scan_event, lemma_diff_levels, lemma_get_entry, level_now,
    level_was, loc_of, touch, Touched,
};
use crate::book::model::{
    after_fill, fill_replacement, match_final, match_start, filled_at, lemma_after_fill, lemma_match_levels, lemma_run, lemma_step,
    lemma_sum_elem, lemma_sum_zero, match_done, match_frame, match_run, match_step, min_qty, opt_g,
    pulled_at, run_facts, self_match, step_facts, Fill, MatchState, Taker,
};
use crate::book::accounts::nets_within;
use crate::output::Event;
use crate::engine::{drive_done, drive_final, drive_run, drive_step, fire_spec, lemma_drive_final, lemma_drive_done_stable, canceled_events, fill_event, fills_events, rest_split, settle_rest, settle_spec, taker_of, EngineModel, Live};
use crate::types::{TimeInForce, Timestamp};
use crate::stops::first_index;
use crate::fees::FeeConfig;
use crate::types::SeqNum;
use crate::types::StpMode;
use crate::types::{OrderId, OrderType, Price, Qty, Side};
use crate::checkpoint::restorable;
use crate::clob::{capacity_for, check_spec, command_qty, ids_below, submit_spec, Clob, ClobModel};
use crate::engine::{cancel_cmd_spec, known_id, modify_spec, new_spec, precheck_spec, replace_spec};
use crate::order::Command;
use crate::stops::{stops_volume, take_first};

verus! {

/// The prices a scan of events has touched on `side`.
pub open spec fn touched_on(t: Touched, side: Side) -> Set<Price> {
    match side {
        Side::Buy => t.bids,
        Side::Sell => t.asks,
    }
}

/// A mirror of one side shows, at every price, the visible quantity the book has there
/// (no level: zero).
pub open spec fn mirrors(levels: Map<Price, Qty>, b: BookModel, side: Side) -> bool {
    forall|p: Price| #[trigger] level_was(levels, p) == level_now(b, side, p)
}

/// Every level of `side` whose visible quantity differs between `b0` and `b1` is touched.
pub open spec fn covers(t: Touched, b0: BookModel, b1: BookModel, side: Side) -> bool {
    forall|p: Price| #[trigger] level_now(b1, side, p) != level_now(b0, side, p) ==> touched_on(t, side).contains(p)
}

/// `a` touched no more than `b` did.
pub open spec fn grows(a: Touched, b: Touched) -> bool {
    a.bids.subset_of(b.bids) && a.asks.subset_of(b.asks)
}

pub proof fn lemma_scan_concat(t: Touched, a: Seq<Event>, b: Seq<Event>, bk: BookModel)
    ensures
        l2_scan(t, a + b, bk) == l2_scan(l2_scan(t, a, bk), b, bk),
    decreases b.len(),
{
    if b.len() == 0 {
        assert(a + b =~= a);
    } else {
        lemma_scan_concat(t, a, b.drop_last(), bk);
        assert((a + b).drop_last() =~= a + b.drop_last());
        assert((a + b).last() == b.last());
    }
}

proof fn lemma_event_grows(t: Touched, e: Event, bk: BookModel)
    ensures
        grows(t, l2_scan_event(t, e, bk)),
{
    match e {
        Event::Trade { maker_order_id, price, taker_side, .. } => {
            match taker_side.opposite() {
                Side::Buy => {},
                Side::Sell => {},
            }
        },
        Event::Resting { order_id, price, .. } => match get_spec(bk, order_id) {
            Some((side, _)) => match side {
                Side::Buy => {},
                Side::Sell => {},
            },
            None => {},
        },
        Event::Modified { order_id, .. } => if t.loc.contains_key(order_id) {
            match t.loc[order_id].0 {
                Side::Buy => {},
                Side::Sell => {},
            }
        },
        Event::Canceled { order_id, .. } => if t.loc.contains_key(order_id) {
            match t.loc[order_id].0 {
                Side::Buy => {},
                Side::Sell => {},
            }
        },
        Event::Filled { order_id, .. } => if t.loc.contains_key(order_id) {
            match t.loc[order_id].0 {
                Side::Buy => {},
                Side::Sell => {},
            }
        },
        _ => {},
    }
}

pub proof fn lemma_scan_grows(t: Touched, evs: Seq<Event>, bk: BookModel)
    ensures
        grows(t, l2_scan(t, evs, bk)),
    decreases evs.len(),
{
    if evs.len() > 0 {
        lemma_scan_grows(t, evs.drop_last(), bk);
        lemma_event_grows(l2_scan(t, evs.drop_last(), bk), evs.last(), bk);
    }
}

/// Touching more keeps a level covered, and covering composes over consecutive changes.
pub proof fn lemma_covers_trans(t1: Touched, t2: Touched, b0: BookModel, b1: BookModel, b2: BookModel, side: Side)
    requires
        covers(t1, b0, b1, side),
        covers(t2, b1, b2, side),
        grows(t1, t2),
    ensures
        covers(t2, b0, b2, side),
{
    assert forall|p: Price| #[trigger] level_now(b2, side, p) != level_now(b0, side, p) implies touched_on(t2, side).contains(p) by {
        if level_now(b1, side, p) != level_now(b0, side, p) {
            assert(touched_on(t1, side).contains(p));
        }
    }
}

pub proof fn lemma_covers_grow(t1: Touched, t2: Touched, b0: BookModel, b1: BookModel, side: Side)
    requires
        covers(t1, b0, b1, side),
        grows(t1, t2),
    ensures
        covers(t2, b0, b1, side),
{
    assert forall|p: Price| #[trigger] level_now(b1, side, p) != level_now(b0, side, p) implies touched_on(t2, side).contains(p) by {
        assert(touched_on(t1, side).contains(p));
    }
}

/// No level of a valid book holds more than `u64::MAX`.
pub proof fn lemma_level_bound(b: BookModel, side: Side, p: Price)
    requires
        book_volume(b) <= u64::MAX,
    ensures
        level_now(b, side, p) <= u64::MAX,
{
    lemma_sum_le(b.side(side), level_fn(p), vol_fn());
}

/// A mirror that showed `b0` shows `b1` once the levels a command touched are re-read from
/// `b1`, provided those levels cover every change.
pub proof fn lemma_mirror_step(levels: Map<Price, Qty>, t: Touched, b0: BookModel, b1: BookModel, side: Side)
    requires
        mirrors(levels, b0, side),
        covers(t, b0, b1, side),
        book_volume(b1) <= u64::MAX,
    ensures
        mirrors(diff_map(levels, touched_on(t, side), b1, side), b1, side),
{
    assert forall|p: Price| #[trigger] level_was(diff_map(levels, touched_on(t, side), b1, side), p) == level_now(b1, side, p) by {
        lemma_level_bound(b1, side, p);
        lemma_diff_levels(levels, touched_on(t, side), b1, side, p);
        assert(level_was(levels, p) == level_now(b0, side, p));
    }
}

/// No id rests twice in the book.
pub open spec fn ids_ok(b: BookModel) -> bool {
    ids_distinct(b.bids) && ids_distinct(b.asks) && ids_disjoint(b.bids, b.asks)
}

pub proof fn lemma_entry_loc(b: BookModel, side: Side, i: int)
    requires
        ids_ok(b),
        0 <= i < b.side(side).len(),
    ensures
        get_spec(b, b.side(side)[i].order.id) == Some((side, b.side(side)[i].order)),
        contains_spec(b, b.side(side)[i].order.id),
        loc_of(b).contains_key(b.side(side)[i].order.id),
        loc_of(b)[b.side(side)[i].order.id] == (side, b.side(side)[i].order.price),
{
    let s = b.side(side);
    let id = s[i].order.id;
    lemma_index_of_id(s, i);
    if side == Side::Sell {
        assert(!has_id(b.bids, id)) by {
            if has_id(b.bids, id) {
                let j = choose|j: int| 0 <= j < b.bids.len() && b.bids[j].order.id == id;
                assert(b.bids[j].order.id != b.asks[i].order.id);
            }
        }
        assert(has_id(b.asks, id));
    } else {
        assert(has_id(b.bids, id));
    }
}

/// Some entry of `s` has the id and the price of `e`.
pub open spec fn kept_entry(e: BookEntry, s: Seq<BookEntry>) -> bool {
    exists|k: int| 0 <= k < s.len() && s[k].order.id == e.order.id && s[k].order.price == e.order.price
}

/// Every entry of `b1` rests in `b0` on the same side, with the same id and price.
pub open spec fn kept_in(b1: BookModel, b0: BookModel) -> bool {
    forall|side: Side, j: int| 0 <= j < b1.side(side).len() ==> kept_entry(#[trigger] b1.side(side)[j], b0.side(side))
}

/// Where an order rests does not change while it stays.
pub proof fn lemma_loc_kept(b0: BookModel, b1: BookModel, x: OrderId)
    requires
        ids_ok(b0),
        ids_ok(b1),
        kept_in(b1, b0),
        contains_spec(b1, x),
    ensures
        contains_spec(b0, x),
        loc_of(b0)[x] == loc_of(b1)[x],
{
    let side = if has_id(b1.bids, x) { Side::Buy } else { Side::Sell };
    let j = choose|j: int| 0 <= j < b1.side(side).len() && b1.side(side)[j].order.id == x;
    assert(0 <= j < b1.side(side).len() && b1.side(side)[j].order.id == x);
    assert(kept_entry(b1.side(side)[j], b0.side(side)));
    let k = choose|k: int|
        0 <= k < b0.side(side).len() && b0.side(side)[k].order.id == b1.side(side)[j].order.id
            && b0.side(side)[k].order.price == b1.side(side)[j].order.price;
    lemma_entry_loc(b1, side, j);
    lemma_entry_loc(b0, side, k);
}

/// Where order `id` rests: its side, its place and its price.
proof fn lemma_locate(b: BookModel, id: OrderId)
    requires
        book_inv(b),
        contains_spec(b, id),
    ensures
        ({
            let (side, i) = locate(b, id).unwrap();
            &&& 0 <= i < b.side(side).len()
            &&& b.side(side)[i].order.id == id
            &&& loc_of(b).contains_key(id)
            &&& loc_of(b)[id] == (side, b.side(side)[i].order.price)
        }),
{
    let (side, i) = locate(b, id).unwrap();
    if has_id(b.bids, id) {
        assert(side == Side::Buy);
    } else {
        assert(side == Side::Sell);
    }
    lemma_get_entry(b, side, i);
}

/// Taking out the entry at `i` of `side` changes that entry's level only and keeps every
/// other entry where it was.
proof fn lemma_remove_levels(b: BookModel, b1: BookModel, side: Side, i: int)
    requires
        0 <= i < b.side(side).len(),
        b1.side(side) == b.side(side).remove(i),
        b1.side(side.opposite()) == b.side(side.opposite()),
    ensures
        kept_in(b1, b),
        forall|s: Side, p: Price|
            !(s == side && p == b.side(side)[i].order.price) ==> #[trigger] level_now(b1, s, p) == level_now(b, s, p),
{
    let s0 = b.side(side);
    let s1 = b1.side(side);
    assert forall|s: Side, p: Price| !(s == side && p == s0[i].order.price) implies #[trigger] level_now(b1, s, p) == level_now(b, s, p) by {
        if s == side {
            lemma_sum_remove(s0, i, level_fn(p));
        } else {
            assert(s == side.opposite()) by {
                match side {
                    Side::Buy => assert(s == Side::Sell),
                    Side::Sell => assert(s == Side::Buy),
                }
            }
        }
    }
    assert forall|sd: Side, j: int| 0 <= j < b1.side(sd).len() implies kept_entry(#[trigger] b1.side(sd)[j], b.side(sd)) by {
        if sd == side {
            if j < i {
                assert(s1[j] == s0[j]);
                assert(s0[j].order.id == s1[j].order.id);
            } else {
                assert(s1[j] == s0[j + 1]);
                assert(s0[j + 1].order.id == s1[j].order.id);
            }
        } else {
            assert(sd == side.opposite()) by {
                match side {
                    Side::Buy => assert(sd == Side::Sell),
                    Side::Sell => assert(sd == Side::Buy),
                }
            }
            assert(b1.side(sd)[j] == b.side(sd)[j]);
        }
    }
}

proof fn lemma_remove_ids_sub(b: BookModel, b1: BookModel, side: Side, i: int, id: OrderId, x: OrderId)
    requires
        ids_distinct(b.side(side)),
        ids_disjoint(b.bids, b.asks),
        0 <= i < b.side(side).len(),
        b.side(side)[i].order.id == id,
        b1.side(side) == b.side(side).remove(i),
        b1.side(side.opposite()) == b.side(side.opposite()),
        contains_spec(b1, x),
    ensures
        contains_spec(b, x) && x != id,
{
    let s0 = b.side(side);
    let s1 = b1.side(side);
    let sx = if has_id(b1.bids, x) { Side::Buy } else { Side::Sell };
    let j = choose|j: int| 0 <= j < b1.side(sx).len() && b1.side(sx)[j].order.id == x;
    assert(0 <= j < b1.side(sx).len() && b1.side(sx)[j].order.id == x);
    if sx == side {
        if j < i {
            assert(s1[j] == s0[j] && s0[j].order.id != s0[i].order.id);
            assert(has_id(b.side(sx), x));
        } else {
            assert(s1[j] == s0[j + 1] && s0[i].order.id != s0[j + 1].order.id);
            assert(has_id(b.side(sx), x));
        }
    } else {
        assert(sx == side.opposite()) by {
            match side {
                Side::Buy => assert(sx == Side::Sell),
                Side::Sell => assert(sx == Side::Buy),
            }
        }
        assert(b1.side(sx)[j] == b.side(sx)[j]);
        assert(has_id(b.side(sx), x));
        match side {
            Side::Buy => assert(b.bids[i].order.id != b.asks[j].order.id),
            Side::Sell => assert(b.bids[j].order.id != b.asks[i].order.id),
        }
    }
    match sx {
        Side::Buy => assert(has_id(b.bids, x)),
        Side::Sell => assert(has_id(b.asks, x)),
    }
}

proof fn lemma_remove_ids_sup(b: BookModel, b1: BookModel, side: Side, i: int, id: OrderId, x: OrderId)
    requires
        0 <= i < b.side(side).len(),
        b.side(side)[i].order.id == id,
        b1.side(side) == b.side(side).remove(i),
        b1.side(side.opposite()) == b.side(side.opposite()),
        contains_spec(b, x),
        x != id,
    ensures
        contains_spec(b1, x),
{
    let s0 = b.side(side);
    let s1 = b1.side(side);
    let sx = if has_id(b.bids, x) { Side::Buy } else { Side::Sell };
    let k = choose|k: int| 0 <= k < b.side(sx).len() && b.side(sx)[k].order.id == x;
    assert(0 <= k < b.side(sx).len() && b.side(sx)[k].order.id == x);
    if sx == side {
        if k < i {
            assert(s1[k] == s0[k]);
        } else {
            assert(s1[k - 1] == s0[k]);
        }
        assert(has_id(b1.side(sx), x));
    } else {
        assert(sx == side.opposite()) by {
            match side {
                Side::Buy => assert(sx == Side::Sell),
                Side::Sell => assert(sx == Side::Buy),
            }
        }
        assert(b1.side(sx)[k] == b.side(sx)[k]);
        assert(has_id(b1.side(sx), x));
    }
    match sx {
        Side::Buy => assert(has_id(b1.bids, x)),
        Side::Sell => assert(has_id(b1.asks, x)),
    }
}

/// Taking order `id` out changes its own level only, keeps every other order where it was,
/// and the book forgets where `id` rested.
pub proof fn lemma_cancel_frame(b: BookModel, id: OrderId)
    requires
        book_inv(b),
        contains_spec(b, id),
    ensures
        book_inv(cancel_spec(b, id).0),
        book_volume(cancel_spec(b, id).0) <= book_volume(b),
        kept_in(cancel_spec(b, id).0, b),
        loc_of(cancel_spec(b, id).0) == loc_of(b).remove(id),
        loc_of(b).contains_key(id),
        forall|k: nat| nets_within(b.accounts, k) ==> nets_within(cancel_spec(b, id).0.accounts, k),
        forall|s: Side, p: Price|
            !(s == loc_of(b)[id].0 && p == loc_of(b)[id].1) ==> #[trigger] level_now(cancel_spec(b, id).0, s, p)
                == level_now(b, s, p),
{
    lemma_locate(b, id);
    let (side, i) = locate(b, id).unwrap();
    lemma_remove_inv(b, side, i);
    let b1 = cancel_spec(b, id).0;
    lemma_remove_levels(b, b1, side, i);
    assert forall|x: OrderId| #[trigger] loc_of(b1).contains_key(x) <==> loc_of(b).remove(id).contains_key(x) by {
        if contains_spec(b1, x) {
            lemma_remove_ids_sub(b, b1, side, i, id, x);
        }
        if contains_spec(b, x) && x != id {
            lemma_remove_ids_sup(b, b1, side, i, id, x);
        }
    }
    assert forall|x: OrderId| #[trigger] loc_of(b1).contains_key(x) implies loc_of(b1)[x] == loc_of(b)[x] by {
        lemma_loc_kept(b, b1, x);
    }
    assert(loc_of(b1) =~= loc_of(b).remove(id));
}

/// Two books with the same ids and prices at every place.
pub open spec fn same_shape(b: BookModel, b1: BookModel) -> bool {
    &&& b1.bids.len() == b.bids.len()
    &&& b1.asks.len() == b.asks.len()
    &&& forall|j: int| 0 <= j < b.bids.len() ==> (#[trigger] b1.bids[j]).order.id == b.bids[j].order.id && b1.bids[j].order.price == b.bids[j].order.price
    &&& forall|j: int| 0 <= j < b.asks.len() ==> (#[trigger] b1.asks[j]).order.id == b.asks[j].order.id && b1.asks[j].order.price == b.asks[j].order.price
}

pub proof fn lemma_same_shape(b: BookModel, b1: BookModel)
    requires
        ids_ok(b),
        same_shape(b, b1),
    ensures
        ids_ok(b1),
        loc_of(b1) == loc_of(b),
{
    assert forall|a: int, c: int| 0 <= a < c < b1.bids.len() implies (#[trigger] b1.bids[a]).order.id != (#[trigger] b1.bids[c]).order.id by {
        assert(b.bids[a].order.id != b.bids[c].order.id);
    }
    assert forall|a: int, c: int| 0 <= a < c < b1.asks.len() implies (#[trigger] b1.asks[a]).order.id != (#[trigger] b1.asks[c]).order.id by {
        assert(b.asks[a].order.id != b.asks[c].order.id);
    }
    assert forall|a: int, c: int| 0 <= a < b1.bids.len() && 0 <= c < b1.asks.len() implies (#[trigger] b1.bids[a]).order.id
        != (#[trigger] b1.asks[c]).order.id by {
        assert(b.bids[a].order.id != b.asks[c].order.id);
    }
    assert forall|sd: Side, j: int| 0 <= j < b1.side(sd).len() implies kept_entry(#[trigger] b1.side(sd)[j], b.side(sd)) by {
        assert(b.side(sd)[j].order.id == b1.side(sd)[j].order.id);
    }
    assert forall|sd: Side, j: int| 0 <= j < b.side(sd).len() implies kept_entry(#[trigger] b.side(sd)[j], b1.side(sd)) by {
        assert(b1.side(sd)[j].order.id == b.side(sd)[j].order.id);
    }
    assert forall|x: OrderId| #[trigger] loc_of(b1).contains_key(x) <==> loc_of(b).contains_key(x) by {
        if contains_spec(b1, x) {
            lemma_loc_kept(b, b1, x);
        }
        if contains_spec(b, x) {
            lemma_loc_kept(b1, b, x);
        }
    }
    assert forall|x: OrderId| #[trigger] loc_of(b1).contains_key(x) implies loc_of(b1)[x] == loc_of(b)[x] by {
        lemma_loc_kept(b, b1, x);
    }
    assert(loc_of(b1) =~= loc_of(b));
}

/// Shrinking order `id` in place changes its own level only and keeps every order where it
/// was.
pub proof fn lemma_reduce_frame(b: BookModel, id: OrderId, q: Qty)
    requires
        book_inv(b),
        contains_spec(b, id),
    ensures
        ids_ok(reduce_spec(b, id, q).0),
        book_volume(reduce_spec(b, id, q).0) <= book_volume(b),
        loc_of(reduce_spec(b, id, q).0) == loc_of(b),
        loc_of(b).contains_key(id),
        get_spec(reduce_spec(b, id, q).0, id) is Some,
        get_spec(reduce_spec(b, id, q).0, id).unwrap().0 == loc_of(b)[id].0,
        forall|s: Side, p: Price|
            !(s == loc_of(b)[id].0 && p == loc_of(b)[id].1) ==> #[trigger] level_now(reduce_spec(b, id, q).0, s, p)
                == level_now(b, s, p),
{
    lemma_locate(b, id);
    let (side, i) = locate(b, id).unwrap();
    let b1 = reduce_spec(b, id, q).0;
    crate::book::model::lemma_reduce_facts(b, id, q);
    let s0 = b.side(side);
    let s1 = b1.side(side);
    assert(same_shape(b, b1)) by {
        match side {
            Side::Buy => {
                assert(forall|j: int| 0 <= j < s1.len() ==> (#[trigger] s1[j]).order.id == s0[j].order.id && s1[j].order.price == s0[j].order.price);
            },
            Side::Sell => {
                assert(forall|j: int| 0 <= j < s1.len() ==> (#[trigger] s1[j]).order.id == s0[j].order.id && s1[j].order.price == s0[j].order.price);
            },
        }
    }
    lemma_same_shape(b, b1);
    lemma_entry_loc(b1, side, i);
    let price = s0[i].order.price;
    assert forall|sd: Side, p: Price| !(sd == side && p == price) implies #[trigger] level_now(b1, sd, p) == level_now(b, sd, p) by {
        if sd == side {
            if s1 != s0 {
                lemma_sum_update(s0, i, s1[i], level_fn(p));
                assert(s1 == s0.update(i, s1[i]));
            }
        } else {
            assert(sd == side.opposite()) by {
                match side {
                    Side::Buy => assert(sd == Side::Sell),
                    Side::Sell => assert(sd == Side::Buy),
                }
            }
        }
    }
}

/// One for an entry with id `x`, zero for any other.
pub open spec fn id_fn(x: OrderId) -> spec_fn(BookEntry) -> nat {
    |e: BookEntry| if e.order.id == x { 1nat } else { 0nat }
}

proof fn lemma_has_id_sum(s: Seq<BookEntry>, x: OrderId)
    ensures
        has_id(s, x) <==> sum_by(s, id_fn(x)) > 0,
{
    if has_id(s, x) {
        let k = choose|k: int| 0 <= k < s.len() && s[k].order.id == x;
        lemma_sum_elem(s, k, id_fn(x));
    } else {
        assert forall|i: int| 0 <= i < s.len() implies (id_fn(x))(#[trigger] s[i]) == 0 by {
            assert(s[i].order.id != x);
        }
        lemma_sum_zero(s, id_fn(x));
    }
}

/// A fill against the front entry keeps every other entry of the queue.
proof fn lemma_fill_keeps_others(s: Seq<BookEntry>, side: Side, traded: Qty, x: OrderId)
    requires
        s.len() > 0,
        traded <= s[0].order.qty,
        crate::book::model::sorted(s, side),
        ids_distinct(s),
        crate::book::model::reserves_ok(s),
        has_id(s, x),
        x != s[0].order.id,
    ensures
        has_id(after_fill(s, side, s[0], traded), x),
{
    lemma_after_fill(s, side, traded, id_fn(x));
    lemma_has_id_sum(s, x);
    lemma_has_id_sum(after_fill(s, side, s[0], traded), x);
    match fill_replacement(s[0], traded) {
        Some(r) => assert(r.order.id == s[0].order.id),
        None => {},
    }
}

/// An order executed against in `fills`.
pub open spec fn traded_id(fills: Seq<Fill>, x: OrderId) -> bool {
    exists|i: int| 0 <= i < fills.len() && fills[i].maker.id == x
}

/// Some entry of `s0` has id `x` and price `p`.
pub open spec fn from_start(s0: Seq<BookEntry>, x: OrderId, p: Price) -> bool {
    exists|k: int| 0 <= k < s0.len() && s0[k].order.id == x && s0[k].order.price == p
}

/// What a match in progress did to each maker it started with: every execution was against
/// one of them at its price, every pulled one is gone, and every one still there, executed
/// against or pulled.
pub open spec fn match_trace(start: MatchState, ms: MatchState, t: Taker) -> bool {
    let side = t.side.opposite();
    let s0 = start.book.side(side);
    let s = ms.book.side(side);
    &&& forall|i: int| 0 <= i < ms.fills.len() ==> from_start(s0, (#[trigger] ms.fills[i]).maker.id, ms.fills[i].price)
    &&& forall|j: int|
        0 <= j < ms.self_canceled.len() ==> has_id(s0, #[trigger] ms.self_canceled[j]) && !has_id(s, ms.self_canceled[j])
    &&& forall|k: int|
        0 <= k < s0.len() ==> has_id(s, (#[trigger] s0[k]).order.id) || traded_id(ms.fills, s0[k].order.id)
            || ms.self_canceled.contains(s0[k].order.id)
}

#[verifier::rlimit(80)]
pub proof fn lemma_match_trace(start: MatchState, t: Taker, n: nat, slack: nat)
    requires
        book_inv(start.book),
        nets_within(start.book.accounts, start.qty as nat + slack),
        start.qty as nat + slack <= i128::MAX,
        start.fills.len() == 0,
        start.self_canceled.len() == 0,
    ensures
        match_trace(start, match_run(start, t, n), t),
    decreases n,
{
    let side = t.side.opposite();
    let s0 = start.book.side(side);
    if n == 0 {
        assert forall|k: int| 0 <= k < s0.len() implies has_id(s0, (#[trigger] s0[k]).order.id) by {}
        return;
    }
    lemma_match_trace(start, t, (n - 1) as nat, slack);
    lemma_run(start, t, (n - 1) as nat, slack);
    lemma_match_levels(start, t, (n - 1) as nat, slack);
    let prev = match_run(start, t, (n - 1) as nat);
    let next = match_step(prev, t);
    assert(next == match_run(start, t, n));
    lemma_step(prev, t, slack);
    if match_done(prev, t) {
        return;
    }
    let opp = prev.book.side(side);
    let e = opp[0];
    assert(crate::book::model::sorted(opp, side) && ids_distinct(opp) && crate::book::model::reserves_ok(opp)) by {
        match side {
            Side::Buy => {},
            Side::Sell => {},
        }
    }
    let k0 = choose|k: int| 0 <= k < s0.len() && opp[0].order.id == s0[k].order.id && opp[0].order.price == s0[k].order.price;
    assert(from_start(s0, e.order.id, e.order.price));
    let ns = next.book.side(side);
    if self_match(t, e) {
        if t.stp == StpMode::CancelMaker || t.stp == StpMode::CancelBoth {
            assert(ns == opp.remove(0));
            assert(next.fills == prev.fills);
            let sc = prev.self_canceled;
            let sc1 = next.self_canceled;
            assert(sc1 == sc.push(e.order.id));
            assert(!has_id(ns, e.order.id)) by {
                if has_id(ns, e.order.id) {
                    let j = choose|j: int| 0 <= j < ns.len() && ns[j].order.id == e.order.id;
                    assert(ns[j] == opp[j + 1]);
                    assert(opp[0].order.id != opp[j + 1].order.id);
                }
            }
            assert forall|j: int| 0 <= j < sc1.len() implies has_id(s0, #[trigger] sc1[j]) && !has_id(ns, sc1[j]) by {
                if j < sc.len() {
                    assert(sc1[j] == sc[j]);
                    assert(!has_id(opp, sc[j]));
                } else {
                    assert(sc1[j] == e.order.id);
                    assert(s0[k0].order.id == e.order.id);
                }
            }
            assert forall|k: int| 0 <= k < s0.len() implies has_id(ns, (#[trigger] s0[k]).order.id)
                || traded_id(next.fills, s0[k].order.id) || sc1.contains(s0[k].order.id) by {
                let x = s0[k].order.id;
                if has_id(opp, x) {
                    if x == e.order.id {
                        assert(sc1[sc.len() as int] == x);
                    } else {
                        let j = choose|j: int| 0 <= j < opp.len() && opp[j].order.id == x;
                        assert(j != 0);
                        assert(ns[j - 1] == opp[j]);
                    }
                } else if sc.contains(x) {
                    let j = choose|j: int| 0 <= j < sc.len() && sc[j] == x;
                    assert(sc1[j] == x);
                }
            }
        } else {
            assert(next.book == prev.book && next.fills == prev.fills && next.self_canceled == prev.self_canceled);
        }
    } else {
        let traded = min_qty(prev.qty, e.order.qty);
        assert(ns == after_fill(opp, side, e, traded));
        assert(next.self_canceled == prev.self_canceled);
        let f = next.fills;
        assert(f.len() == prev.fills.len() + 1);
        assert(f[prev.fills.len() as int].maker.id == e.order.id && f[prev.fills.len() as int].price == e.order.price);
        assert forall|i: int| 0 <= i < f.len() implies from_start(s0, (#[trigger] f[i]).maker.id, f[i].price) by {
            if i < prev.fills.len() {
                assert(f[i] == prev.fills[i]);
            }
        }
        assert forall|j: int| 0 <= j < next.self_canceled.len() implies has_id(s0, #[trigger] next.self_canceled[j])
            && !has_id(ns, next.self_canceled[j]) by {
            assert(!has_id(opp, prev.self_canceled[j]));
        }
        assert forall|k: int| 0 <= k < s0.len() implies has_id(ns, (#[trigger] s0[k]).order.id)
            || traded_id(f, s0[k].order.id) || next.self_canceled.contains(s0[k].order.id) by {
            let x = s0[k].order.id;
            if has_id(opp, x) {
                if x == e.order.id {
                    assert(f[prev.fills.len() as int].maker.id == x);
                } else {
                    lemma_fill_keeps_others(opp, side, traded, x);
                }
            } else if traded_id(prev.fills, x) {
                let i = choose|i: int| 0 <= i < prev.fills.len() && prev.fills[i].maker.id == x;
                assert(f[i] == prev.fills[i]);
            }
        }
    }
}

proof fn lemma_touch(t: Touched, side: Side, p: Price)
    ensures
        touched_on(touch(t, side, p), side) == touched_on(t, side).insert(p),
        grows(t, touch(t, side, p)),
        touch(t, side, p).loc == t.loc,
{
    match side {
        Side::Buy => {},
        Side::Sell => {},
    }
}

/// Reading the executions of a match touches the maker's level of each, and forgets the
/// makers the book no longer holds.
pub proof fn lemma_scan_fills(t: Touched, fills: Seq<Fill>, live: Live, fees: FeeConfig, bk: BookModel)
    ensures
        grows(t, l2_scan(t, fills_events(fills, live, fees), bk)),
        forall|i: int|
            0 <= i < fills.len() ==> touched_on(l2_scan(t, fills_events(fills, live, fees), bk), live.side.opposite()).contains(
                (#[trigger] fills[i]).price,
            ),
        forall|x: OrderId|
            #[trigger] l2_scan(t, fills_events(fills, live, fees), bk).loc.contains_key(x) <==> t.loc.contains_key(x)
                && !(traded_id(fills, x) && get_spec(bk, x) is None),
        forall|x: OrderId|
            #[trigger] l2_scan(t, fills_events(fills, live, fees), bk).loc.contains_key(x) ==> l2_scan(
                t,
                fills_events(fills, live, fees),
                bk,
            ).loc[x] == t.loc[x],
    decreases fills.len(),
{
    let evs = fills_events(fills, live, fees);
    if fills.len() == 0 {
        assert(evs.len() == 0);
        return;
    }
    let fp = fills.drop_last();
    let f = fills.last();
    assert(evs.drop_last() =~= fills_events(fp, live, fees));
    assert(evs.last() == fill_event(f, live, fees));
    lemma_scan_fills(t, fp, live, fees, bk);
    let t1 = l2_scan(t, fills_events(fp, live, fees), bk);
    let side = live.side.opposite();
    let t2 = touch(t1, side, f.price);
    lemma_touch(t1, side, f.price);
    let t3 = l2_scan(t, evs, bk);
    assert(t3 == l2_scan_event(t1, fill_event(f, live, fees), bk));
    assert(t3 == (if get_spec(bk, f.maker.id) is None { Touched { loc: t2.loc.remove(f.maker.id), ..t2 } } else { t2 }));
    assert(grows(t2, t3)) by {
        match side {
            Side::Buy => {},
            Side::Sell => {},
        }
    }
    assert(touched_on(t3, side) == touched_on(t2, side)) by {
        match side {
            Side::Buy => {},
            Side::Sell => {},
        }
    }
    assert forall|i: int| 0 <= i < fills.len() implies touched_on(t3, side).contains((#[trigger] fills[i]).price) by {
        if i < fp.len() {
            assert(fp[i] == fills[i]);
            assert(touched_on(t1, side).contains(fp[i].price));
        }
    }
    assert forall|x: OrderId| #[trigger] t3.loc.contains_key(x) <==> t.loc.contains_key(x) && !(traded_id(fills, x) && get_spec(bk, x) is None) by {
        if traded_id(fp, x) {
            let i = choose|i: int| 0 <= i < fp.len() && fp[i].maker.id == x;
            assert(fills[i] == fp[i]);
        }
        if traded_id(fills, x) && !traded_id(fp, x) {
            let i = choose|i: int| 0 <= i < fills.len() && fills[i].maker.id == x;
            if i < fp.len() {
                assert(fills[i] == fp[i]);
            }
            assert(x == f.maker.id);
        }
        if x == f.maker.id {
            assert(fills[fills.len() - 1].maker.id == x);
        }
    }
}

/// Reading the pulled makers forgets each and touches the level where the feed had it.
pub proof fn lemma_scan_cancels(t: Touched, ids: Seq<OrderId>, seq: SeqNum, bk: BookModel)
    ensures
        grows(t, l2_scan(t, canceled_events(ids, seq), bk)),
        forall|x: OrderId|
            #[trigger] l2_scan(t, canceled_events(ids, seq), bk).loc.contains_key(x) <==> t.loc.contains_key(x)
                && !ids.contains(x),
        forall|x: OrderId|
            #[trigger] l2_scan(t, canceled_events(ids, seq), bk).loc.contains_key(x) ==> l2_scan(
                t,
                canceled_events(ids, seq),
                bk,
            ).loc[x] == t.loc[x],
        forall|j: int|
            0 <= j < ids.len() && t.loc.contains_key(#[trigger] ids[j]) ==> touched_on(
                l2_scan(t, canceled_events(ids, seq), bk),
                t.loc[ids[j]].0,
            ).contains(t.loc[ids[j]].1),
    decreases ids.len(),
{
    let evs = canceled_events(ids, seq);
    if ids.len() == 0 {
        assert(evs.len() == 0);
        return;
    }
    let ip = ids.drop_last();
    let y = ids.last();
    assert(evs.drop_last() =~= canceled_events(ip, seq));
    assert(evs.last() == Event::Canceled { seq, order_id: y });
    lemma_scan_cancels(t, ip, seq, bk);
    let t1 = l2_scan(t, canceled_events(ip, seq), bk);
    let t3 = l2_scan(t, evs, bk);
    assert(t3 == forget(t1, y));
    if t1.loc.contains_key(y) {
        let t2 = Touched { loc: t1.loc.remove(y), ..t1 };
        lemma_touch(t2, t1.loc[y].0, t1.loc[y].1);
        assert(grows(t1, t2));
    }
    assert forall|x: OrderId| #[trigger] t3.loc.contains_key(x) <==> t.loc.contains_key(x) && !ids.contains(x) by {
        if ip.contains(x) {
            let j = choose|j: int| 0 <= j < ip.len() && ip[j] == x;
            assert(ids[j] == x);
        }
        if ids.contains(x) && !ip.contains(x) {
            let j = choose|j: int| 0 <= j < ids.len() && ids[j] == x;
            if j < ip.len() {
                assert(ip[j] == x);
            }
            assert(x == y);
        }
        if x == y {
            assert(ids[ids.len() - 1] == x);
        }
    }
    assert forall|j: int| 0 <= j < ids.len() && t.loc.contains_key(#[trigger] ids[j]) implies touched_on(t3, t.loc[ids[j]].0).contains(
        t.loc[ids[j]].1,
    ) by {
        if j < ip.len() {
            assert(ip[j] == ids[j]);
            let l = t.loc[ids[j]];
            assert(touched_on(t1, l.0).contains(l.1));
            match l.0 {
                Side::Buy => {},
                Side::Sell => {},
            }
        } else {
            assert(ids[j] == y);
            if t1.loc.contains_key(y) {
                assert(t1.loc[y] == t.loc[y]);
            } else {
                assert(ip.contains(y));
                let i = choose|i: int| 0 <= i < ip.len() && ip[i] == y;
                assert(ids[i] == y);
                assert(touched_on(t1, t.loc[ip[i]].0).contains(t.loc[ip[i]].1));
                match t.loc[y].0 {
                    Side::Buy => {},
                    Side::Sell => {},
                }
            }
        }
    }
}

/// The scan state `t` knows where every order of `b` rests.
pub open spec fn knows(t: Touched, b: BookModel) -> bool {
    forall|x: OrderId| #[trigger] contains_spec(b, x) ==> t.loc.contains_key(x) && t.loc[x] == loc_of(b)[x]
}

/// Where the match of `live` against `start` ends.
pub open spec fn fin_of(start: BookModel, live: Live) -> MatchState {
    match_final(match_start(start, live.qty), taker_of(live))
}

/// What matching `live` against `start` does to the book.
pub open spec fn fin_facts(start: BookModel, live: Live) -> bool {
    let fin = fin_of(start, live);
    let ms = live.side.opposite();
    &&& book_inv(fin.book)
    &&& book_volume(fin.book) <= book_volume(start)
    &&& fin.qty <= live.qty
    &&& fin.book.side(live.side) == start.side(live.side)
    &&& kept_in(fin.book, start)
    &&& forall|x: OrderId| #[trigger] contains_spec(fin.book, x) ==> contains_spec(start, x)
    &&& match_trace(match_start(start, live.qty), fin, taker_of(live))
    &&& forall|p: Price|
        !filled_at(fin.fills, p) && !pulled_at(start.side(ms), fin.self_canceled, p) ==> #[trigger] level_now(fin.book, ms, p)
            == level_now(start, ms, p)
}

pub proof fn lemma_fin_facts(start: BookModel, live: Live, slack: nat)
    requires
        book_inv(start),
        nets_within(start.accounts, live.qty as nat + slack),
        live.qty as nat + slack <= i128::MAX,
    ensures
        fin_facts(start, live),
{
    let ms0 = match_start(start, live.qty);
    let tk = taker_of(live);
    let n = choose|n: nat| match_done(#[trigger] match_run(ms0, tk, n), tk);
    let fin = fin_of(start, live);
    assert(fin == match_run(ms0, tk, n));
    lemma_run(ms0, tk, n, slack);
    lemma_match_levels(ms0, tk, n, slack);
    lemma_match_trace(ms0, tk, n, slack);
    let ms = live.side.opposite();
    assert(tk.side == live.side);
    assert(forall|p: Price| #[trigger] level_now(fin.book, ms, p) == sum_by(fin.book.side(ms), level_fn(p)));
    assert forall|sd: Side, j: int| 0 <= j < fin.book.side(sd).len() implies kept_entry(#[trigger] fin.book.side(sd)[j], start.side(sd)) by {
        if sd == live.side {
            assert(start.side(sd)[j] == fin.book.side(sd)[j]);
        } else {
            assert(sd == ms) by {
                match live.side {
                    Side::Buy => assert(sd == Side::Sell),
                    Side::Sell => assert(sd == Side::Buy),
                }
            }
            let k = choose|k: int| 0 <= k < start.side(ms).len() && (#[trigger] fin.book.side(ms)[j]).order.id
                == start.side(ms)[k].order.id && fin.book.side(ms)[j].order.price == start.side(ms)[k].order.price;
            assert(start.side(sd)[k].order.id == fin.book.side(sd)[j].order.id);
        }
    }
    assert forall|x: OrderId| #[trigger] contains_spec(fin.book, x) implies contains_spec(start, x) by {
        if live.side == Side::Buy {
            if has_id(fin.book.asks, x) {
                assert(has_id(fin.book.side(Side::Sell), x));
            }
        } else {
            if has_id(fin.book.bids, x) {
                assert(has_id(fin.book.side(Side::Buy), x));
            }
        }
    }
}

/// The events of a match: its executions, then the makers it pulled.
pub open spec fn match_events(start: BookModel, live: Live, fees: FeeConfig) -> Seq<Event> {
    fills_events(fin_of(start, live).fills, live, fees) + canceled_events(fin_of(start, live).self_canceled, live.seq)
}

/// What the final book `bk` of a command says of the makers of a match: those the match left
/// are there, those it took out are not.
pub open spec fn ends_in(start: BookModel, live: Live, bk: BookModel) -> bool {
    let fin = fin_of(start, live).book;
    &&& forall|x: OrderId| #[trigger] contains_spec(fin, x) ==> contains_spec(bk, x)
    &&& forall|x: OrderId| #[trigger] contains_spec(start, x) && !contains_spec(fin, x) ==> !contains_spec(bk, x)
}

proof fn lemma_get_none(b: BookModel, x: OrderId)
    ensures
        (get_spec(b, x) is None) <==> !contains_spec(b, x),
{
}

/// Reading the events of a match touches every level the match changed.
pub proof fn lemma_match_covers(start: BookModel, live: Live, fees: FeeConfig, t: Touched, bk: BookModel)
    requires
        book_inv(start),
        fin_facts(start, live),
        knows(t, start),
    ensures
        grows(t, l2_scan(t, match_events(start, live, fees), bk)),
        covers(l2_scan(t, match_events(start, live, fees), bk), start, fin_of(start, live).book, Side::Buy),
        covers(l2_scan(t, match_events(start, live, fees), bk), start, fin_of(start, live).book, Side::Sell),
{
    let fin = fin_of(start, live);
    let ms = live.side.opposite();
    let s0 = start.side(ms);
    let fe = fills_events(fin.fills, live, fees);
    let ce = canceled_events(fin.self_canceled, live.seq);
    lemma_scan_concat(t, fe, ce, bk);
    lemma_scan_fills(t, fin.fills, live, fees, bk);
    let t1 = l2_scan(t, fe, bk);
    lemma_scan_cancels(t1, fin.self_canceled, live.seq, bk);
    let tt = l2_scan(t1, ce, bk);
    assert(tt == l2_scan(t, match_events(start, live, fees), bk));
    let tr = match_start(start, live.qty);
    assert(fin.book.side(live.side) == start.side(live.side));
    assert forall|p: Price| #[trigger] level_now(fin.book, ms, p) != level_now(start, ms, p) implies touched_on(tt, ms).contains(p) by {
        if filled_at(fin.fills, p) {
            let i = choose|i: int| 0 <= i < fin.fills.len() && fin.fills[i].price == p;
            assert(touched_on(t1, ms).contains(fin.fills[i].price));
            match ms {
                Side::Buy => {},
                Side::Sell => {},
            }
        } else {
            assert(pulled_at(s0, fin.self_canceled, p));
            let (i, j) = choose|i: int, j: int| 0 <= i < s0.len() && 0 <= j < fin.self_canceled.len()
                && s0[i].order.id == fin.self_canceled[j] && s0[i].order.price == p;
            let x = fin.self_canceled[j];
            lemma_entry_loc(start, ms, i);
            assert(t.loc.contains_key(x) && t.loc[x] == (ms, p));
            if t1.loc.contains_key(x) {
                assert(t1.loc[x] == (ms, p));
                assert(touched_on(tt, t1.loc[fin.self_canceled[j]].0).contains(t1.loc[fin.self_canceled[j]].1));
            } else {
                assert(traded_id(fin.fills, x));
                let i2 = choose|i2: int| 0 <= i2 < fin.fills.len() && fin.fills[i2].maker.id == x;
                assert(from_start(s0, fin.fills[i2].maker.id, fin.fills[i2].price));
                let k = choose|k: int| 0 <= k < s0.len() && s0[k].order.id == fin.fills[i2].maker.id && s0[k].order.price == fin.fills[i2].price;
                assert(ids_distinct(s0)) by {
                    match ms {
                        Side::Buy => {},
                        Side::Sell => {},
                    }
                }
                if k != i {
                    if k < i {
                        assert(s0[k].order.id != s0[i].order.id);
                    } else {
                        assert(s0[i].order.id != s0[k].order.id);
                    }
                }
                assert(touched_on(t1, ms).contains(fin.fills[i2].price));
                match ms {
                    Side::Buy => {},
                    Side::Sell => {},
                }
            }
        }
    }
    assert(covers(tt, start, fin.book, live.side));
    match live.side {
        Side::Buy => {},
        Side::Sell => {},
    }
}

/// After the events of a match the feed knows where every order the match left rests,
/// has forgotten every one it took out, and still knows the rest as it did.
pub proof fn lemma_match_loc(start: BookModel, live: Live, fees: FeeConfig, t: Touched, bk: BookModel, x: OrderId)
    requires
        book_inv(start),
        fin_facts(start, live),
        knows(t, start),
        ends_in(start, live, bk),
    ensures
        contains_spec(start, x) ==> (l2_scan(t, match_events(start, live, fees), bk).loc.contains_key(x)
            == contains_spec(fin_of(start, live).book, x)),
        contains_spec(fin_of(start, live).book, x) ==> l2_scan(t, match_events(start, live, fees), bk).loc[x]
            == loc_of(fin_of(start, live).book)[x],
        !contains_spec(start, x) ==> (l2_scan(t, match_events(start, live, fees), bk).loc.contains_key(x)
            == t.loc.contains_key(x)),
        !contains_spec(start, x) && t.loc.contains_key(x) ==> l2_scan(t, match_events(start, live, fees), bk).loc[x]
            == t.loc[x],
{
    let fin = fin_of(start, live);
    let ms = live.side.opposite();
    let s0 = start.side(ms);
    let sc = fin.self_canceled;
    let fe = fills_events(fin.fills, live, fees);
    let ce = canceled_events(sc, live.seq);
    lemma_scan_concat(t, fe, ce, bk);
    lemma_scan_fills(t, fin.fills, live, fees, bk);
    let t1 = l2_scan(t, fe, bk);
    lemma_scan_cancels(t1, sc, live.seq, bk);
    let tt = l2_scan(t1, ce, bk);
    assert(tt == l2_scan(t, match_events(start, live, fees), bk));
    lemma_get_none(bk, x);
    assert(s0 == start.side(ms));
    // a pulled or executed order comes from the maker side of `start`
    if sc.contains(x) {
        let j = choose|j: int| 0 <= j < sc.len() && sc[j] == x;
        assert(has_id(s0, sc[j]) && !has_id(fin.book.side(ms), sc[j]));
        assert(contains_spec(start, x)) by {
            match ms {
                Side::Buy => assert(has_id(start.bids, x)),
                Side::Sell => assert(has_id(start.asks, x)),
            }
        }
        assert(!contains_spec(fin.book, x)) by {
            let k = choose|k: int| 0 <= k < s0.len() && s0[k].order.id == x;
            if contains_spec(fin.book, x) {
                if has_id(fin.book.side(live.side), x) {
                    let k2 = choose|k2: int| 0 <= k2 < fin.book.side(live.side).len() && fin.book.side(live.side)[k2].order.id == x;
                    assert(start.side(live.side)[k2].order.id == x);
                    match ms {
                        Side::Buy => assert(start.bids[k].order.id != start.asks[k2].order.id),
                        Side::Sell => assert(start.bids[k2].order.id != start.asks[k].order.id),
                    }
                } else {
                    match ms {
                        Side::Buy => assert(has_id(fin.book.bids, x)),
                        Side::Sell => assert(has_id(fin.book.asks, x)),
                    }
                }
            }
        }
    }
    if traded_id(fin.fills, x) {
        let i = choose|i: int| 0 <= i < fin.fills.len() && fin.fills[i].maker.id == x;
        assert(from_start(s0, fin.fills[i].maker.id, fin.fills[i].price));
        let k = choose|k: int| 0 <= k < s0.len() && s0[k].order.id == fin.fills[i].maker.id && s0[k].order.price == fin.fills[i].price;
        assert(contains_spec(start, x)) by {
            match ms {
                Side::Buy => assert(has_id(start.bids, x)),
                Side::Sell => assert(has_id(start.asks, x)),
            }
        }
    }
    if contains_spec(fin.book, x) {
        assert(contains_spec(start, x));
        assert(contains_spec(bk, x));
        assert(!sc.contains(x));
        assert(t1.loc.contains_key(x));
        assert(tt.loc.contains_key(x));
        lemma_loc_kept(start, fin.book, x);
    }
    if !contains_spec(start, x) && t.loc.contains_key(x) {
        assert(!traded_id(fin.fills, x));
        assert(t1.loc.contains_key(x) && t1.loc[x] == t.loc[x]);
        assert(!sc.contains(x));
        assert(tt.loc.contains_key(x) && tt.loc[x] == t1.loc[x]);
    }
    if contains_spec(start, x) && !contains_spec(fin.book, x) {
        assert(!contains_spec(bk, x));
        if !sc.contains(x) && t1.loc.contains_key(x) {
            // the order left the book: it was executed against or pulled
            if has_id(start.side(live.side), x) {
                assert(has_id(fin.book.side(live.side), x));
                match live.side {
                    Side::Buy => assert(has_id(fin.book.bids, x)),
                    Side::Sell => assert(has_id(fin.book.asks, x)),
                }
            } else {
                assert(has_id(s0, x)) by {
                    match ms {
                        Side::Buy => assert(has_id(start.bids, x)),
                        Side::Sell => assert(has_id(start.asks, x)),
                    }
                }
                let k = choose|k: int| 0 <= k < s0.len() && s0[k].order.id == x;
                assert(has_id(fin.book.side(ms), (#[trigger] s0[k]).order.id) || traded_id(fin.fills, s0[k].order.id)
                    || sc.contains(s0[k].order.id));
                if has_id(fin.book.side(ms), x) {
                    match ms {
                        Side::Buy => assert(has_id(fin.book.bids, x)),
                        Side::Sell => assert(has_id(fin.book.asks, x)),
                    }
                }
            }
        }
    }
}

/// Putting entry `e` in at place `k` of `side` changes its level only, keeps every order
/// where it was, and the book learns where `e` rests.
pub proof fn lemma_insert_at(b: BookModel, b1: BookModel, side: Side, k: int, e: BookEntry)
    requires
        ids_ok(b),
        0 <= k <= b.side(side).len(),
        b1.side(side) == b.side(side).insert(k, e),
        b1.side(side.opposite()) == b.side(side.opposite()),
        !contains_spec(b, e.order.id),
    ensures
        ids_ok(b1),
        loc_of(b1) == loc_of(b).insert(e.order.id, (side, e.order.price)),
        get_spec(b1, e.order.id) == Some((side, e.order)),
        locate(b1, e.order.id) == Some((side, k)),
        book_volume(b1) == book_volume(b) + vol(e),
        forall|x: OrderId| #[trigger] contains_spec(b1, x) <==> contains_spec(b, x) || x == e.order.id,
        forall|s: Side, p: Price| !(s == side && p == e.order.price) ==> #[trigger] level_now(b1, s, p) == level_now(b, s, p),
{
    let s0 = b.side(side);
    let s1 = b1.side(side);
    let id = e.order.id;
    assert(side.opposite() != side) by {
        match side {
            Side::Buy => {},
            Side::Sell => {},
        }
    }
    assert(forall|j: int| 0 <= j < s0.len() ==> (#[trigger] s0[j]).order.id != id) by {
        assert forall|j: int| 0 <= j < s0.len() implies (#[trigger] s0[j]).order.id != id by {
            if s0[j].order.id == id {
                assert(has_id(s0, id));
                match side {
                    Side::Buy => assert(has_id(b.bids, id)),
                    Side::Sell => assert(has_id(b.asks, id)),
                }
            }
        }
    }
    let so = b.side(side.opposite());
    assert(forall|j: int| 0 <= j < so.len() ==> (#[trigger] so[j]).order.id != id) by {
        assert forall|j: int| 0 <= j < so.len() implies (#[trigger] so[j]).order.id != id by {
            if so[j].order.id == id {
                assert(has_id(so, id));
                match side {
                    Side::Buy => assert(has_id(b.asks, id)),
                    Side::Sell => assert(has_id(b.bids, id)),
                }
            }
        }
    }
    assert(forall|j: int| 0 <= j < k ==> #[trigger] s1[j] == s0[j]);
    assert(forall|j: int| k < j < s1.len() ==> #[trigger] s1[j] == s0[j - 1]);
    assert(s1[k] == e);
    assert(ids_distinct(s1)) by {
        assert forall|a: int, c: int| 0 <= a < c < s1.len() implies (#[trigger] s1[a]).order.id != (#[trigger] s1[c]).order.id by {
            if a < k && c < k {
                assert(s0[a].order.id != s0[c].order.id);
            } else if a < k && c == k {
            } else if a < k {
                assert(s0[a].order.id != s0[c - 1].order.id);
            } else if a == k {
                assert(s1[c] == s0[c - 1]);
            } else {
                assert(s0[a - 1].order.id != s0[c - 1].order.id);
            }
        }
    }
    assert(ids_ok(b1)) by {
        let ob = b1.side(side.opposite());
        assert forall|a: int, c: int| 0 <= a < s1.len() && 0 <= c < ob.len() implies (#[trigger] s1[a]).order.id
            != (#[trigger] ob[c]).order.id by {
            if a < k {
                match side {
                    Side::Buy => assert(b.bids[a].order.id != b.asks[c].order.id),
                    Side::Sell => assert(b.bids[c].order.id != b.asks[a].order.id),
                }
            } else if a > k {
                match side {
                    Side::Buy => assert(b.bids[a - 1].order.id != b.asks[c].order.id),
                    Side::Sell => assert(b.bids[c].order.id != b.asks[a - 1].order.id),
                }
            }
        }
        match side {
            Side::Buy => {
                assert(ids_disjoint(b1.bids, b1.asks));
            },
            Side::Sell => {
                assert forall|a: int, c: int| 0 <= a < b1.bids.len() && 0 <= c < b1.asks.len() implies (#[trigger] b1.bids[a]).order.id
                    != (#[trigger] b1.asks[c]).order.id by {
                    assert(s1[c].order.id != ob[a].order.id);
                }
            },
        }
    }
    lemma_entry_loc(b1, side, k);
    lemma_index_of_id(s1, k);
    assert forall|sd: Side, j: int| 0 <= j < b.side(sd).len() implies kept_entry(#[trigger] b.side(sd)[j], b1.side(sd)) by {
        if sd == side {
            if j < k {
                assert(s1[j] == s0[j]);
            } else {
                assert(s1[j + 1] == s0[j]);
            }
        } else {
            assert(sd == side.opposite()) by {
                match side {
                    Side::Buy => assert(sd == Side::Sell),
                    Side::Sell => assert(sd == Side::Buy),
                }
            }
            assert(b1.side(sd)[j] == b.side(sd)[j]);
        }
    }
    assert forall|x: OrderId| #[trigger] contains_spec(b1, x) <==> contains_spec(b, x) || x == id by {
        if contains_spec(b, x) {
            lemma_loc_kept(b1, b, x);
        }
        if contains_spec(b1, x) && x != id {
            let sx = if has_id(b1.bids, x) { Side::Buy } else { Side::Sell };
            let j = choose|j: int| 0 <= j < b1.side(sx).len() && b1.side(sx)[j].order.id == x;
            assert(0 <= j < b1.side(sx).len() && b1.side(sx)[j].order.id == x);
            if sx == side {
                if j < k {
                    assert(has_id(b.side(sx), x));
                } else {
                    assert(j != k);
                    assert(s0[j - 1].order.id == x);
                    assert(has_id(b.side(sx), x));
                }
            } else {
                assert(sx == side.opposite()) by {
                    match side {
                        Side::Buy => assert(sx == Side::Sell),
                        Side::Sell => assert(sx == Side::Buy),
                    }
                }
                assert(has_id(b.side(sx), x));
            }
            match sx {
                Side::Buy => assert(has_id(b.bids, x)),
                Side::Sell => assert(has_id(b.asks, x)),
            }
        }
    }
    assert forall|x: OrderId| #[trigger] loc_of(b1).contains_key(x) implies loc_of(b1)[x] == loc_of(b).insert(id, (side, e.order.price))[x] by {
        if x != id {
            lemma_loc_kept(b1, b, x);
        }
    }
    assert(loc_of(b1) =~= loc_of(b).insert(id, (side, e.order.price)));
    lemma_sum_insert(s0, k, e, vol_fn());
    assert forall|sd: Side, p: Price| !(sd == side && p == e.order.price) implies #[trigger] level_now(b1, sd, p) == level_now(b, sd, p) by {
        if sd == side {
            lemma_sum_insert(s0, k, e, level_fn(p));
        } else {
            assert(sd == side.opposite()) by {
                match side {
                    Side::Buy => assert(sd == Side::Sell),
                    Side::Sell => assert(sd == Side::Buy),
                }
            }
        }
    }
    match side {
        Side::Buy => {},
        Side::Sell => {},
    }
}

/// Giving the order at place `k` of `side` a reserve changes no visible level and no place.
proof fn lemma_reserve_at(b: BookModel, side: Side, k: int, d: Qty, h: Qty)
    requires
        ids_ok(b),
        locate(b, b.side(side)[k].order.id) == Some((side, k)),
        0 <= k < b.side(side).len(),
        b.side(side)[k].reserve is None,
    ensures
        ids_ok(add_reserve_spec(b, b.side(side)[k].order.id, d, h)),
        loc_of(add_reserve_spec(b, b.side(side)[k].order.id, d, h)) == loc_of(b),
        book_volume(add_reserve_spec(b, b.side(side)[k].order.id, d, h)) == book_volume(b) + h,
        forall|x: OrderId| #[trigger] contains_spec(add_reserve_spec(b, b.side(side)[k].order.id, d, h), x) <==> contains_spec(b, x),
        forall|s: Side, p: Price| #[trigger] level_now(add_reserve_spec(b, b.side(side)[k].order.id, d, h), s, p) == level_now(b, s, p),
{
    let e = b.side(side)[k];
    let b2 = add_reserve_spec(b, e.order.id, d, h);
    let e2 = BookEntry { reserve: Some((d, h)), ..e };
    assert(b2.side(side) == b.side(side).update(k, e2));
    assert(b2.side(side.opposite()) == b.side(side.opposite()));
    assert(same_shape(b, b2)) by {
        match side {
            Side::Buy => {},
            Side::Sell => {},
        }
    }
    lemma_same_shape(b, b2);
    assert forall|x: OrderId| #[trigger] contains_spec(b2, x) <==> contains_spec(b, x) by {
        assert(loc_of(b2).contains_key(x) == loc_of(b).contains_key(x));
    }
    lemma_sum_update(b.side(side), k, e2, vol_fn());
    assert forall|s: Side, p: Price| #[trigger] level_now(b2, s, p) == level_now(b, s, p) by {
        if s == side {
            lemma_sum_update(b.side(side), k, e2, level_fn(p));
        } else {
            assert(s == side.opposite()) by {
                match side {
                    Side::Buy => assert(s == Side::Sell),
                    Side::Sell => assert(s == Side::Buy),
                }
            }
        }
    }
    match side {
        Side::Buy => {},
        Side::Sell => {},
    }
}

/// The book after a fresh order rests in it, with a reserve when `h` is positive.
pub open spec fn rest_book(b: BookModel, side: Side, order: RestingOrder, d: Qty, h: Qty) -> BookModel {
    if h > 0 {
        add_reserve_spec(insert_spec(b, side, order), order.id, d, h)
    } else {
        insert_spec(b, side, order)
    }
}

/// Resting a fresh order (with its reserve, if any) changes its own level only, and the book
/// learns where it rests.
pub proof fn lemma_rest_frame(b: BookModel, side: Side, order: RestingOrder, d: Qty, h: Qty)
    requires
        ids_ok(b),
        !contains_spec(b, order.id),
    ensures
        ids_ok(rest_book(b, side, order, d, h)),
        loc_of(rest_book(b, side, order, d, h)) == loc_of(b).insert(order.id, (side, order.price)),
        get_spec(rest_book(b, side, order, d, h), order.id) is Some,
        get_spec(rest_book(b, side, order, d, h), order.id).unwrap().0 == side,
        book_volume(rest_book(b, side, order, d, h)) == book_volume(b) + order.qty + h,
        forall|x: OrderId| #[trigger] contains_spec(rest_book(b, side, order, d, h), x) <==> contains_spec(b, x) || x == order.id,
        forall|s: Side, p: Price|
            !(s == side && p == order.price) ==> #[trigger] level_now(rest_book(b, side, order, d, h), s, p) == level_now(b, s, p),
{
    let b1 = insert_spec(b, side, order);
    let e = BookEntry { order, reserve: None };
    let k = insert_pos(b.side(side), side, order.price);
    lemma_insert_pos(b.side(side), side, order.price);
    assert(b1.side(side) == b.side(side).insert(k, e)) by {
        match side {
            Side::Buy => {},
            Side::Sell => {},
        }
    }
    assert(b1.side(side.opposite()) == b.side(side.opposite())) by {
        match side {
            Side::Buy => {},
            Side::Sell => {},
        }
    }
    lemma_insert_at(b, b1, side, k, e);
    assert(vol(e) == order.qty);
    if h > 0 {
        assert(b1.side(side)[k] == e);
        lemma_reserve_at(b1, side, k, d, h);
        let b2 = add_reserve_spec(b1, order.id, d, h);
        assert(get_spec(b2, order.id) == Some((side, order))) by {
            lemma_entry_loc(b2, side, k);
            assert(b2.side(side)[k].order == order) by {
                match side {
                    Side::Buy => {},
                    Side::Sell => {},
                }
            }
        }
    }
}

/// The feed knows where the orders of `b` rest, and of nothing else but possibly `id`.
pub open spec fn knows_only(t: Touched, b: BookModel, id: OrderId) -> bool {
    &&& knows(t, b)
    &&& forall|x: OrderId| #[trigger] t.loc.contains_key(x) ==> contains_spec(b, x) || x == id
}

proof fn lemma_scan_one(t: Touched, e: Event, bk: BookModel)
    ensures
        l2_scan(t, seq![e], bk) == l2_scan_event(t, e, bk),
{
    assert(seq![e].drop_last() =~= Seq::<Event>::empty());
    assert(seq![e].last() == e);
    assert(l2_scan(t, Seq::<Event>::empty(), bk) == t);
}

/// What the feed holds after the events of a match, as far as the settlement needs it.
proof fn lemma_after_match(start: BookModel, live: Live, fees: FeeConfig, t: Touched, bk: BookModel)
    requires
        book_inv(start),
        fin_facts(start, live),
        knows_only(t, start, live.order_id),
        !contains_spec(start, live.order_id),
        ends_in(start, live, bk),
    ensures
        ({
            let t1 = l2_scan(t, match_events(start, live, fees), bk);
            let fin = fin_of(start, live).book;
            &&& grows(t, t1)
            &&& covers(t1, start, fin, Side::Buy)
            &&& covers(t1, start, fin, Side::Sell)
            &&& knows_only(t1, fin, live.order_id)
            &&& !contains_spec(fin, live.order_id)
        }),
{
    let fin = fin_of(start, live).book;
    lemma_match_covers(start, live, fees, t, bk);
    let t1 = l2_scan(t, match_events(start, live, fees), bk);
    assert forall|x: OrderId| #[trigger] contains_spec(fin, x) implies t1.loc.contains_key(x) && t1.loc[x] == loc_of(fin)[x] by {
        lemma_match_loc(start, live, fees, t, bk, x);
    }
    assert forall|x: OrderId| #[trigger] t1.loc.contains_key(x) implies contains_spec(fin, x) || x == live.order_id by {
        lemma_match_loc(start, live, fees, t, bk, x);
    }
}

proof fn lemma_end_plain(start: BookModel, live: Live, fees: FeeConfig, t: Touched, e: Event)
    requires
        book_inv(start),
        fin_facts(start, live),
        knows_only(t, start, live.order_id),
        !contains_spec(start, live.order_id),
        e == (Event::Canceled { seq: live.seq, order_id: live.order_id }) || e == (Event::Filled { seq: live.seq, order_id: live.order_id }),
    ensures
        ({
            let bk = fin_of(start, live).book;
            let tt = l2_scan(t, match_events(start, live, fees) + seq![e], bk);
            &&& grows(t, tt)
            &&& covers(tt, start, bk, Side::Buy)
            &&& covers(tt, start, bk, Side::Sell)
            &&& tt.loc == loc_of(bk)
        }),
{
    let id = live.order_id;
    let bk = fin_of(start, live).book;
    assert(ends_in(start, live, bk));
    lemma_after_match(start, live, fees, t, bk);
    let t1 = l2_scan(t, match_events(start, live, fees), bk);
    lemma_scan_concat(t, match_events(start, live, fees), seq![e], bk);
    lemma_scan_one(t1, e, bk);
    let tt = l2_scan(t, match_events(start, live, fees) + seq![e], bk);
    assert(tt == forget(t1, id));
    if t1.loc.contains_key(id) {
        let t2 = Touched { loc: t1.loc.remove(id), ..t1 };
        lemma_touch(t2, t1.loc[id].0, t1.loc[id].1);
    }
    assert(grows(t1, tt));
    lemma_covers_grow(t1, tt, start, bk, Side::Buy);
    lemma_covers_grow(t1, tt, start, bk, Side::Sell);
    assert forall|x: OrderId| #[trigger] tt.loc.contains_key(x) <==> loc_of(bk).contains_key(x) by {
        if x != id && contains_spec(bk, x) {
            assert(t1.loc.contains_key(x));
        }
    }
    assert forall|x: OrderId| #[trigger] tt.loc.contains_key(x) implies tt.loc[x] == loc_of(bk)[x] by {
        assert(contains_spec(bk, x));
    }
    assert(tt.loc =~= loc_of(bk));
}

proof fn lemma_end_rested(start: BookModel, live: Live, fees: FeeConfig, t: Touched, order: RestingOrder, d: Qty, h: Qty)
    requires
        book_inv(start),
        fin_facts(start, live),
        knows_only(t, start, live.order_id),
        !contains_spec(start, live.order_id),
        order.id == live.order_id,
    ensures
        ({
            let bk = rest_book(fin_of(start, live).book, live.side, order, d, h);
            let e = Event::Resting { seq: live.seq, order_id: order.id, price: order.price, qty: order.qty };
            let tt = l2_scan(t, match_events(start, live, fees) + seq![e], bk);
            &&& grows(t, tt)
            &&& covers(tt, start, bk, Side::Buy)
            &&& covers(tt, start, bk, Side::Sell)
            &&& tt.loc == loc_of(bk)
            &&& book_volume(bk) == book_volume(fin_of(start, live).book) + order.qty + h
        }),
{
    let id = live.order_id;
    let fin = fin_of(start, live).book;
    let price = order.price;
    let side = live.side;
    assert(ids_ok(fin));
    assert(!contains_spec(fin, id));
    lemma_rest_frame(fin, side, order, d, h);
    let bk = rest_book(fin, side, order, d, h);
    let e = Event::Resting { seq: live.seq, order_id: order.id, price: order.price, qty: order.qty };
    assert(ends_in(start, live, bk));
    lemma_after_match(start, live, fees, t, bk);
    let t1 = l2_scan(t, match_events(start, live, fees), bk);
    lemma_scan_concat(t, match_events(start, live, fees), seq![e], bk);
    lemma_scan_one(t1, e, bk);
    let tt = l2_scan(t, match_events(start, live, fees) + seq![e], bk);
    let t2 = Touched { loc: t1.loc.insert(id, (side, price)), ..t1 };
    assert(tt == touch(t2, side, price));
    lemma_touch(t2, side, price);
    assert(grows(t1, tt));
    assert(side.opposite() != side) by {
        match side {
            Side::Buy => {},
            Side::Sell => {},
        }
    }
    assert(covers(tt, fin, bk, side)) by {
        assert forall|p: Price| #[trigger] level_now(bk, side, p) != level_now(fin, side, p) implies touched_on(tt, side).contains(p) by {
            assert(p == price);
        }
    }
    assert(covers(tt, fin, bk, side.opposite()));
    lemma_covers_trans(t1, tt, start, fin, bk, side);
    lemma_covers_trans(t1, tt, start, fin, bk, side.opposite());
    match side {
        Side::Buy => {},
        Side::Sell => {},
    }
    assert forall|x: OrderId| #[trigger] tt.loc.contains_key(x) <==> loc_of(bk).contains_key(x) by {
        if x != id && contains_spec(fin, x) {
            assert(t1.loc.contains_key(x));
        }
    }
    assert forall|x: OrderId| #[trigger] tt.loc.contains_key(x) implies tt.loc[x] == loc_of(bk)[x] by {
        if x != id {
            assert(contains_spec(fin, x));
        }
    }
    assert(tt.loc =~= loc_of(bk));
}

/// Settling an order: the events of its match and of what became of its remainder touch
/// every level it changed, and leave the feed knowing exactly where each order rests.
pub proof fn lemma_settle_sync(em: EngineModel, live: Live, slack: nat, t: Touched)
    requires
        book_inv(em.book),
        nets_within(em.book.accounts, live.qty as nat + slack),
        live.qty as nat + slack <= i128::MAX,
        !contains_spec(em.book, live.order_id),
        knows_only(t, em.book, live.order_id),
    ensures
        ({
            let r = settle_spec(em, live);
            let tt = l2_scan(t, r.1, r.0.book);
            &&& grows(t, tt)
            &&& covers(tt, em.book, r.0.book, Side::Buy)
            &&& covers(tt, em.book, r.0.book, Side::Sell)
            &&& tt.loc == loc_of(r.0.book)
            &&& book_volume(r.0.book) <= book_volume(em.book) + live.qty
            &&& r.0.stops == em.stops
        }),
{
    let start = em.book;
    lemma_fin_facts(start, live, slack);
    let fin = fin_of(start, live);
    let fees = em.fees;
    let last = if fin.fills.len() > 0 { Some(fin.fills.last().price) } else { em.last };
    let em1 = EngineModel { book: fin.book, last, ..em };
    let rest = settle_rest(em1, live, fin.qty, fin.taker_canceled);
    let r = settle_spec(em, live);
    assert(r.0 == rest.0 && r.1 == match_events(start, live, fees) + rest.1);
    let id = live.order_id;
    let resting = !fin.taker_canceled && fin.qty != 0 && live.limit_price is Some && (live.tif == TimeInForce::Gtc
        || live.tif == TimeInForce::PostOnly);
    if resting {
        let price = live.limit_price.unwrap();
        let (visible, hidden) = rest_split(live.display, fin.qty);
        let order = RestingOrder {
            id,
            seq: live.seq,
            price,
            qty: visible,
            timestamp: live.timestamp,
            owner: live.owner,
        };
        assert(rest.0.book == rest_book(fin.book, live.side, order, live.display, hidden));
        assert(rest.1 == seq![Event::Resting { seq: live.seq, order_id: id, price, qty: visible }]);
        lemma_end_rested(start, live, fees, t, order, live.display, hidden);
    } else {
        assert(rest.0.book == fin.book);
        let e = rest.1[0];
        assert(rest.1 == seq![e]);
        lemma_end_plain(start, live, fees, t, e);
    }
}

/// No event of `evs` reports a triggered stop.
pub open spec fn quiet(evs: Seq<Event>) -> bool {
    forall|i: int| 0 <= i < evs.len() ==> !(#[trigger] evs[i] is Triggered)
}

/// Stop activation only adds events, and the first activation reports its stop triggered.
pub proof fn lemma_drive_trace(st: (EngineModel, Seq<Event>), seq: SeqNum, ts: Timestamp, n: nat)
    ensures
        drive_run(st, seq, ts, n).1.len() >= st.1.len(),
        forall|i: int| 0 <= i < st.1.len() ==> #[trigger] drive_run(st, seq, ts, n).1[i] == st.1[i],
        n > 0 && !drive_done(st.0) ==> drive_run(st, seq, ts, n).1.len() > st.1.len() && drive_run(st, seq, ts, n).1[st.1.len() as int] is Triggered,
    decreases n,
{
    if n > 0 {
        lemma_drive_trace(st, seq, ts, (n - 1) as nat);
        let prev = drive_run(st, seq, ts, (n - 1) as nat);
        if !drive_done(prev.0) {
            let em = prev.0;
            let (stops, taken) = take_first(em.stops, crate::stops::fires_fn(em.last.unwrap()));
            let stop = taken.unwrap();
            reveal(fire_spec);
            let live = crate::engine::stop_live(stop, seq, ts);
            let em1 = EngineModel { stops, ..em };
            let pushed = prev.1.push(Event::Triggered { seq, order_id: stop.id });
            let next = drive_run(st, seq, ts, n);
            match precheck_spec(em1.book, live.side, live.limit_price, live.qty, live.tif) {
                Err(reason) => {
                    assert(next.1 == pushed.push(Event::Rejected { seq, reason }));
                },
                Ok(()) => {
                    assert(next.1 == pushed + settle_spec(em1, live).1);
                },
            }
            assert(next.1.len() >= pushed.len());
            assert(forall|i: int| 0 <= i < pushed.len() ==> next.1[i] == pushed[i]);
            if n == 1 {
                assert(prev == st);
                assert(pushed[st.1.len() as int] is Triggered);
            }
        }
    }
}

/// When no stop fires, stop activation leaves the state and the events as they were.
proof fn lemma_drive_quiet(st: (EngineModel, Seq<Event>), seq: SeqNum, ts: Timestamp)
    requires
        quiet(drive_final(st, seq, ts).1),
    ensures
        drive_final(st, seq, ts) == st,
{
    let n = choose|n: nat| drive_done((#[trigger] drive_run(st, seq, ts, n)).0);
    assert(drive_final(st, seq, ts) == drive_run(st, seq, ts, n));
    if drive_done(st.0) {
        lemma_drive_done_stable(st, seq, ts, 0, n);
    } else if n > 0 {
        lemma_drive_trace(st, seq, ts, n);
        let evs = drive_run(st, seq, ts, n).1;
        assert(evs[st.1.len() as int] is Triggered);
        assert(!(evs[st.1.len() as int] is Triggered));
    }
}

/// The scan of a command's events by a feed that knows where the orders of `b` rest.
pub open spec fn scan_from(b: BookModel, evs: Seq<Event>, b1: BookModel) -> Touched {
    l2_scan(Touched { loc: loc_of(b), bids: Set::empty(), asks: Set::empty() }, evs, b1)
}

/// The events of a command that took the book from `b0` to `b1` touch every level it
/// changed, and leave the feed knowing exactly where each order rests.
pub open spec fn synced(b0: BookModel, evs: Seq<Event>, b1: BookModel) -> bool {
    &&& covers(scan_from(b0, evs, b1), b0, b1, Side::Buy)
    &&& covers(scan_from(b0, evs, b1), b0, b1, Side::Sell)
    &&& scan_from(b0, evs, b1).loc == loc_of(b1)
}

proof fn lemma_sync_idle(b0: BookModel, e: Event)
    requires
        match e {
            Event::Rejected { .. } => true,
            Event::Accepted { .. } => true,
            _ => false,
        },
    ensures
        synced(b0, seq![e], b0),
{
    let t0 = Touched { loc: loc_of(b0), bids: Set::empty(), asks: Set::empty() };
    lemma_scan_one(t0, e, b0);
}

proof fn lemma_sync_cancel(b0: BookModel, id: OrderId, seq: SeqNum)
    requires
        book_inv(b0),
        contains_spec(b0, id),
    ensures
        synced(b0, seq![Event::Canceled { seq, order_id: id }], cancel_spec(b0, id).0),
{
    let b1 = cancel_spec(b0, id).0;
    lemma_cancel_frame(b0, id);
    let t0 = Touched { loc: loc_of(b0), bids: Set::empty(), asks: Set::empty() };
    let e = Event::Canceled { seq, order_id: id };
    lemma_scan_one(t0, e, b1);
    let l = loc_of(b0)[id];
    let t2 = Touched { loc: t0.loc.remove(id), ..t0 };
    lemma_touch(t2, l.0, l.1);
    let tt = scan_from(b0, seq![e], b1);
    assert(tt == touch(t2, l.0, l.1));
    assert forall|sd: Side, p: Price| #[trigger] level_now(b1, sd, p) != level_now(b0, sd, p) implies touched_on(tt, sd).contains(p) by {
        assert(sd == l.0 && p == l.1);
    }
}

proof fn lemma_sync_reduce(b0: BookModel, id: OrderId, q: Qty, seq: SeqNum)
    requires
        book_inv(b0),
        contains_spec(b0, id),
        q <= get_spec(b0, id).unwrap().1.qty,
    ensures
        ({
            let (side, current) = get_spec(b0, id).unwrap();
            let b1 = if q < current.qty { reduce_spec(b0, id, q).0 } else { b0 };
            &&& synced(b0, seq![Event::Modified { seq, order_id: id }, Event::Resting { seq, order_id: id, price: current.price, qty: q }], b1)
            &&& book_volume(b1) <= book_volume(b0)
        }),
{
    let (side, current) = get_spec(b0, id).unwrap();
    let b1 = if q < current.qty { reduce_spec(b0, id, q).0 } else { b0 };
    lemma_reduce_frame(b0, id, q);
    lemma_locate(b0, id);
    let l = loc_of(b0)[id];
    assert(l == (side, current.price));
    assert(loc_of(b1) == loc_of(b0));
    assert(get_spec(b1, id) is Some && get_spec(b1, id).unwrap().0 == side);
    crate::book::model::lemma_reduce_facts(b0, id, q);
    let e1 = Event::Modified { seq, order_id: id };
    let e2 = Event::Resting { seq, order_id: id, price: current.price, qty: q };
    let evs = seq![e1, e2];
    let t0 = Touched { loc: loc_of(b0), bids: Set::empty(), asks: Set::empty() };
    lemma_scan_concat(t0, seq![e1], seq![e2], b1);
    assert(seq![e1] + seq![e2] =~= evs);
    lemma_scan_one(t0, e1, b1);
    let t1 = touch(t0, side, current.price);
    lemma_touch(t0, side, current.price);
    assert(l2_scan(t0, seq![e1], b1) == t1);
    lemma_scan_one(t1, e2, b1);
    let t2 = Touched { loc: t1.loc.insert(id, (side, current.price)), ..t1 };
    lemma_touch(t2, side, current.price);
    let tt = scan_from(b0, evs, b1);
    assert(tt == touch(t2, side, current.price));
    assert(tt.loc =~= loc_of(b1));
    assert forall|sd: Side, p: Price| #[trigger] level_now(b1, sd, p) != level_now(b0, sd, p) implies touched_on(tt, sd).contains(p) by {
        assert(sd == side && p == current.price);
    }
}

proof fn lemma_sync_new(em: EngineModel, live: Live, slack: nat, seq: SeqNum)
    requires
        book_inv(em.book),
        nets_within(em.book.accounts, live.qty as nat + slack),
        live.qty as nat + slack <= i128::MAX,
        !contains_spec(em.book, live.order_id),
    ensures
        synced(em.book, seq![Event::Accepted { seq, order_id: live.order_id }] + settle_spec(em, live).1, settle_spec(em, live).0.book),
        book_volume(settle_spec(em, live).0.book) <= book_volume(em.book) + live.qty,
        settle_spec(em, live).0.stops == em.stops,
{
    let b0 = em.book;
    let r = settle_spec(em, live);
    let t0 = Touched { loc: loc_of(b0), bids: Set::empty(), asks: Set::empty() };
    let a = seq![Event::Accepted { seq, order_id: live.order_id }];
    lemma_settle_sync(em, live, slack, t0);
    lemma_scan_concat(t0, a, r.1, r.0.book);
    lemma_scan_one(t0, a[0], r.0.book);
    assert(a == seq![a[0]]);
}

proof fn lemma_sync_replace(em: EngineModel, live: Live, slack: nat, seq: SeqNum)
    requires
        book_inv(em.book),
        nets_within(em.book.accounts, live.qty as nat + slack),
        live.qty as nat + slack <= i128::MAX,
        contains_spec(em.book, live.order_id),
    ensures
        ({
            let em1 = EngineModel { book: cancel_spec(em.book, live.order_id).0, ..em };
            let r = settle_spec(em1, live);
            &&& synced(em.book, seq![Event::Modified { seq, order_id: live.order_id }] + r.1, r.0.book)
            &&& book_volume(r.0.book) <= book_volume(em.book) + live.qty
            &&& r.0.stops == em.stops
        }),
{
    let b0 = em.book;
    let mid = live.order_id;
    lemma_cancel_frame(b0, mid);
    let em1 = EngineModel { book: cancel_spec(b0, mid).0, ..em };
    let b1 = em1.book;
    let r = settle_spec(em1, live);
    let t0 = Touched { loc: loc_of(b0), bids: Set::empty(), asks: Set::empty() };
    let m = seq![Event::Modified { seq, order_id: mid }];
    let l = loc_of(b0)[mid];
    let t1 = touch(t0, l.0, l.1);
    lemma_touch(t0, l.0, l.1);
    lemma_scan_one(t0, m[0], r.0.book);
    assert(m == seq![m[0]]);
    assert(l2_scan(t0, m, r.0.book) == t1);
    lemma_scan_concat(t0, m, r.1, r.0.book);
    assert forall|x: OrderId| #[trigger] contains_spec(b1, x) implies t1.loc.contains_key(x) && t1.loc[x] == loc_of(b1)[x] by {
        assert(loc_of(b1).contains_key(x));
    }
    assert forall|x: OrderId| #[trigger] t1.loc.contains_key(x) implies contains_spec(b1, x) || x == mid by {
        if x != mid {
            assert(loc_of(b1).contains_key(x));
        }
    }
    assert(knows_only(t1, b1, mid));
    assert(!contains_spec(b1, mid)) by {
        assert(!loc_of(b1).contains_key(mid));
    }
    lemma_settle_sync(em1, live, slack, t1);
    let tt = l2_scan(t1, r.1, r.0.book);
    assert forall|sd: Side, p: Price| #[trigger] level_now(b1, sd, p) != level_now(b0, sd, p) implies touched_on(t1, sd).contains(p) by {
        assert(sd == l.0 && p == l.1);
    }
    lemma_covers_trans(t1, tt, b0, b1, r.0.book, Side::Buy);
    lemma_covers_trans(t1, tt, b0, b1, r.0.book, Side::Sell);
}

proof fn lemma_new_sync(em: EngineModel, seq: SeqNum, id: OrderId, order: crate::order::NewOrder)
    requires
        book_inv(em.book),
        nets_within(em.book.accounts, 2 * (u64::MAX as nat)),
        book_volume(em.book) + order.qty <= u64::MAX,
        !contains_spec(em.book, id),
        quiet(new_spec(em, seq, id, order, seq).1),
    ensures
        synced(em.book, new_spec(em, seq, id, order, seq).1, new_spec(em, seq, id, order, seq).0.book),
        synced3(em.book, new_spec(em, seq, id, order, seq).1, new_spec(em, seq, id, order, seq).0.book),
        book_volume(new_spec(em, seq, id, order, seq).0.book) <= u64::MAX,
{
    let r = new_spec(em, seq, id, order, seq);
    let accepted = seq![Event::Accepted { seq, order_id: id }];
    match order.order_type {
        OrderType::Stop { .. } => {
            let em2 = r.0;
            lemma_drive_quiet((EngineModel { stops: em.stops.push(crate::stops::PendingStop {
                id,
                side: order.side,
                trigger: order.order_type->Stop_trigger,
                activates_to: OrderType::Market,
                limit_price: 0,
                qty: order.qty,
                tif: order.tif,
                owner: order.owner,
                stp: order.stp,
            }), ..em }, accepted), seq, seq);
            lemma_sync_idle(em.book, Event::Accepted { seq, order_id: id });
        },
        OrderType::StopLimit { .. } => {
            lemma_drive_quiet((EngineModel { stops: em.stops.push(crate::stops::PendingStop {
                id,
                side: order.side,
                trigger: order.order_type->StopLimit_trigger,
                activates_to: OrderType::Limit,
                limit_price: order.price,
                qty: order.qty,
                tif: order.tif,
                owner: order.owner,
                stp: order.stp,
            }), ..em }, accepted), seq, seq);
            lemma_sync_idle(em.book, Event::Accepted { seq, order_id: id });
        },
        _ => {
            let (limit, display) = match order.order_type {
                OrderType::Limit => (Some(order.price), 0u64),
                OrderType::Iceberg { display } => (Some(order.price), display),
                _ => (None, 0u64),
            };
            match precheck_spec(em.book, order.side, limit, order.qty, order.tif) {
                Err(reason) => {
                    assert(r == (em, seq![Event::Rejected { seq, reason }]));
                    lemma_sync_idle(em.book, Event::Rejected { seq, reason });
                },
                Ok(()) => {
                    let live = Live {
                        seq,
                        order_id: id,
                        side: order.side,
                        limit_price: limit,
                        qty: order.qty,
                        tif: order.tif,
                        timestamp: seq,
                        display,
                        owner: order.owner,
                        stp: order.stp,
                    };
                    let (em1, evs) = settle_spec(em, live);
                    let slack = (2 * (u64::MAX as nat) - order.qty) as nat;
                    lemma_sync_new(em, live, slack, seq);
                    lemma_queues_new(em, live, slack, seq);
                    lemma_drive_quiet((em1, accepted + evs), seq, seq);
                    assert(r == (em1, accepted + evs));
                },
            }
        },
    }
}

proof fn lemma_cancel_sync(em: EngineModel, seq: SeqNum, id: OrderId)
    requires
        book_inv(em.book),
        crate::engine::stops_ok(em),
        book_volume(em.book) <= u64::MAX,
    ensures
        synced(em.book, cancel_cmd_spec(em, seq, id).1, cancel_cmd_spec(em, seq, id).0.book),
        synced3(em.book, cancel_cmd_spec(em, seq, id).1, cancel_cmd_spec(em, seq, id).0.book),
        book_volume(cancel_cmd_spec(em, seq, id).0.book) <= u64::MAX,
{
    crate::book::model::lemma_cancel_facts(em.book, id);
    if contains_spec(em.book, id) {
        lemma_sync_cancel(em.book, id, seq);
        lemma_queues_cancel(em.book, id, seq);
    } else {
        let (stops, taken) = take_first(em.stops, crate::stops::has_id_fn(id));
        if taken is Some {
            // a dormant stop is cancelled: the book does not change, and the feed knows nothing of it
            let e = Event::Canceled { seq, order_id: id };
            let t0 = Touched { loc: loc_of(em.book), bids: Set::empty(), asks: Set::empty() };
            lemma_scan_one(t0, e, em.book);
            lemma_l3_one(t0, e, em.book);
            assert(!loc_of(em.book).contains_key(id));
        } else {
            lemma_sync_idle(em.book, Event::Rejected { seq, reason: crate::error::RejectReason::UnknownOrder });
        }
    }
}

proof fn lemma_modify_sync(em: EngineModel, seq: SeqNum, modify: crate::order::ModifyOrder)
    requires
        book_inv(em.book),
        nets_within(em.book.accounts, 2 * (u64::MAX as nat)),
        book_volume(em.book) + modify.qty <= u64::MAX,
        quiet(modify_spec(em, seq, modify, seq).1),
    ensures
        synced(em.book, modify_spec(em, seq, modify, seq).1, modify_spec(em, seq, modify, seq).0.book),
        synced3(em.book, modify_spec(em, seq, modify, seq).1, modify_spec(em, seq, modify, seq).0.book),
        book_volume(modify_spec(em, seq, modify, seq).0.book) <= u64::MAX,
{
    let mid = modify.order_id;
    let r = modify_spec(em, seq, modify, seq);
    lemma_get_none(em.book, mid);
    match get_spec(em.book, mid) {
        None => {
            lemma_sync_idle(em.book, Event::Rejected { seq, reason: crate::error::RejectReason::UnknownOrder });
        },
        Some((side, current)) => {
            let slack = (2 * (u64::MAX as nat) - modify.qty) as nat;
            let display: Qty = match crate::book::model::reserve_spec(em.book, mid) {
                Some((d, _)) => d,
                None => 0,
            };
            let live = Live {
                seq,
                order_id: mid,
                side,
                limit_price: Some(modify.price),
                qty: modify.qty,
                tif: TimeInForce::Gtc,
                timestamp: seq,
                display,
                owner: current.owner,
                stp: StpMode::Off,
            };
            let em1 = EngineModel { book: cancel_spec(em.book, mid).0, ..em };
            let plain = crate::book::model::reserve_spec(em.book, mid) is None && modify.price == current.price
                && modify.qty <= current.qty;
            if plain {
                lemma_sync_reduce(em.book, mid, modify.qty, seq);
                lemma_queues_reduce(em.book, mid, modify.qty, seq);
            } else {
                lemma_sync_replace(em, live, slack, seq);
                lemma_queues_replace(em, live, slack, seq);
                let (em2, evs) = settle_spec(em1, live);
                assert(r == replace_spec(em, seq, modify, seq, side, current.owner, display));
                lemma_drive_quiet((em2, seq![Event::Modified { seq, order_id: mid }] + evs), seq, seq);
            }
        },
    }
}

/// The events of one command during which no stop fires touch every level the command
/// changed (in quantity and in queue), and leave the feed knowing where each order rests.
pub proof fn lemma_submit_sync(c: ClobModel, command: Command)
    requires
        restorable(c.engine, c.next_id),
        capacity_for(c, command),
        quiet(submit_spec(c, command).1),
    ensures
        synced(c.engine.book, submit_spec(c, command).1, submit_spec(c, command).0.engine.book),
        synced3(c.engine.book, submit_spec(c, command).1, submit_spec(c, command).0.engine.book),
        book_volume(submit_spec(c, command).0.engine.book) <= u64::MAX,
{
    let seq = (c.seq + 1) as u64;
    let em = c.engine;
    match check_spec(c, command) {
        Err(reason) => {
            lemma_sync_idle(em.book, Event::Rejected { seq, reason });
        },
        Ok(()) => match command {
            Command::New(order) => {
                assert(!contains_spec(em.book, c.next_id)) by {
                    if contains_spec(em.book, c.next_id) {
                        assert(known_id(em, c.next_id));
                    }
                }
                lemma_new_sync(em, seq, c.next_id, order);
            },
            Command::Cancel(cancel) => {
                lemma_cancel_sync(em, seq, cancel.order_id);
            },
            Command::Modify(modify) => {
                lemma_modify_sync(em, seq, modify);
            },
        },
    }
}

/// The level map of a side, as `L2Feed::from_book` builds it, mirrors that side.
pub proof fn lemma_level_map_mirrors(b: BookModel, side: Side)
    requires
        book_volume(b) <= u64::MAX,
    ensures
        mirrors(level_map(b.side(side)), b, side),
{
    assert forall|p: Price| #[trigger] level_was(level_map(b.side(side)), p) == level_now(b, side, p) by {
        lemma_level_bound(b, side, p);
        if !has_price(b.side(side), p) {
            let s = b.side(side);
            assert forall|i: int| 0 <= i < s.len() implies (level_fn(p))(#[trigger] s[i]) == 0 by {
                assert(s[i].order.price != p);
            }
            lemma_sum_zero(s, level_fn(p));
        }
    }
}

/// Feed law (market by price): a feed that mirrors the book of a valid venue, and knows
/// where each of its orders rests, still does after `L2Feed::apply` reads the events of the
/// venue's next command, when no stop fires during that command (none of its events reports
/// a triggered stop).
/// Every level then shows the book's visible quantity (none: zero), and the feed knows
/// exactly where each order of the new book rests.
pub proof fn lemma_l2_sync(c: Clob, command: Command, bids: Map<Price, Qty>, asks: Map<Price, Qty>)
    requires
        c.wf(),
        capacity_for(c@, command),
        quiet(submit_spec(c@, command).1),
        mirrors(bids, c@.engine.book, Side::Buy),
        mirrors(asks, c@.engine.book, Side::Sell),
    ensures
        ({
            let b0 = c@.engine.book;
            let r = submit_spec(c@, command);
            let b1 = r.0.engine.book;
            let t = l2_scan(Touched { loc: loc_of(b0), bids: Set::empty(), asks: Set::empty() }, r.1, b1);
            &&& t.loc == loc_of(b1)
            &&& mirrors(diff_map(bids, t.bids, b1, Side::Buy), b1, Side::Buy)
            &&& mirrors(diff_map(asks, t.asks, b1, Side::Sell), b1, Side::Sell)
        }),
{
    c.lemma_restorable();
    lemma_submit_sync(c@, command);
    let b0 = c@.engine.book;
    let r = submit_spec(c@, command);
    let b1 = r.0.engine.book;
    let t = scan_from(b0, r.1, b1);
    lemma_mirror_step(bids, t, b0, b1, Side::Buy);
    lemma_mirror_step(asks, t, b0, b1, Side::Sell);
}

/// What one entry adds to the queue of orders at price `p`.
pub open spec fn at_p(e: BookEntry, p: Price) -> Seq<(OrderId, Qty)> {
    if e.order.price == p {
        seq![(e.order.id, e.order.qty)]
    } else {
        Seq::empty()
    }
}

proof fn lemma_orders_concat(a: Seq<BookEntry>, b: Seq<BookEntry>, p: Price)
    ensures
        orders_at(a + b, p) == orders_at(a, p) + orders_at(b, p),
    decreases b.len(),
{
    if b.len() == 0 {
        assert(a + b =~= a);
        assert(orders_at(a, p) + orders_at(b, p) =~= orders_at(a, p));
    } else {
        lemma_orders_concat(a, b.drop_last(), p);
        assert((a + b).drop_last() =~= a + b.drop_last());
        assert((a + b).last() == b.last());
        if b.last().order.price == p {
            assert(orders_at(a, p) + orders_at(b.drop_last(), p).push((b.last().order.id, b.last().order.qty)) =~= (orders_at(a, p)
                + orders_at(b.drop_last(), p)).push((b.last().order.id, b.last().order.qty)));
        }
    }
}

proof fn lemma_orders_one(e: BookEntry, p: Price)
    ensures
        orders_at(seq![e], p) == at_p(e, p),
{
    assert(seq![e].drop_last() =~= Seq::<BookEntry>::empty());
    assert(orders_at(Seq::<BookEntry>::empty(), p) == Seq::<(OrderId, Qty)>::empty());
    if e.order.price == p {
        assert(Seq::<(OrderId, Qty)>::empty().push((e.order.id, e.order.qty)) =~= seq![(e.order.id, e.order.qty)]);
    }
}

/// The queue at `p` splits around place `i`.
proof fn lemma_orders_split(s: Seq<BookEntry>, i: int, p: Price)
    requires
        0 <= i < s.len(),
    ensures
        orders_at(s, p) == orders_at(s.take(i), p) + at_p(s[i], p) + orders_at(s.skip(i + 1), p),
{
    assert(s =~= s.take(i) + seq![s[i]] + s.skip(i + 1));
    lemma_orders_concat(s.take(i) + seq![s[i]], s.skip(i + 1), p);
    lemma_orders_concat(s.take(i), seq![s[i]], p);
    lemma_orders_one(s[i], p);
}

/// Taking out, putting in or replacing an entry that shows nothing at `p` leaves the queue at
/// `p` as it was.
proof fn lemma_orders_remove(s: Seq<BookEntry>, i: int, p: Price)
    requires
        0 <= i < s.len(),
        s[i].order.price != p,
    ensures
        orders_at(s.remove(i), p) == orders_at(s, p),
{
    lemma_orders_split(s, i, p);
    assert(s.remove(i) =~= s.take(i) + s.skip(i + 1));
    lemma_orders_concat(s.take(i), s.skip(i + 1), p);
    assert(orders_at(s.take(i), p) + at_p(s[i], p) =~= orders_at(s.take(i), p));
}

proof fn lemma_orders_insert(s: Seq<BookEntry>, k: int, e: BookEntry, p: Price)
    requires
        0 <= k <= s.len(),
        e.order.price != p,
    ensures
        orders_at(s.insert(k, e), p) == orders_at(s, p),
{
    lemma_orders_remove(s.insert(k, e), k, p);
    assert(s.insert(k, e).remove(k) =~= s);
}

proof fn lemma_orders_update(s: Seq<BookEntry>, i: int, e: BookEntry, p: Price)
    requires
        0 <= i < s.len(),
        at_p(e, p) == at_p(s[i], p),
    ensures
        orders_at(s.update(i, e), p) == orders_at(s, p),
{
    lemma_orders_split(s, i, p);
    lemma_orders_split(s.update(i, e), i, p);
    assert(s.update(i, e).take(i) =~= s.take(i));
    assert(s.update(i, e).skip(i + 1) =~= s.skip(i + 1));
}

proof fn lemma_orders_after_fill(s: Seq<BookEntry>, side: Side, traded: Qty, p: Price)
    requires
        s.len() > 0,
        s[0].order.price != p,
    ensures
        orders_at(after_fill(s, side, s[0], traded), p) == orders_at(s, p),
{
    let e = s[0];
    let left = (e.order.qty - traded) as u64;
    if left > 0 {
        lemma_orders_update(s, 0, BookEntry { order: RestingOrder { qty: left, ..e.order }, ..e }, p);
    } else {
        match e.reserve {
            Some((d, h)) => {
                let peak = min_qty(d, h);
                let rest = (h - peak) as u64;
                let refilled = BookEntry {
                    order: RestingOrder { qty: peak, ..e.order },
                    reserve: if rest == 0 { None } else { Some((d, rest)) },
                };
                let r = s.remove(0);
                lemma_insert_pos(r, side, refilled.order.price);
                lemma_orders_insert(r, insert_pos(r, side, refilled.order.price), refilled, p);
                lemma_orders_remove(s, 0, p);
            },
            None => {
                lemma_orders_remove(s, 0, p);
            },
        }
    }
}

/// Queue law of matching: a match changes the queue of orders only at prices where it
/// executed or where it pulled one of the taker's own resting orders.
pub open spec fn queue_frame(start: MatchState, ms: MatchState, t: Taker) -> bool {
    let side = t.side.opposite();
    forall|p: Price|
        !filled_at(ms.fills, p) && !pulled_at(start.book.side(side), ms.self_canceled, p) ==> #[trigger] orders_at(
            ms.book.side(side),
            p,
        ) == orders_at(start.book.side(side), p)
}

#[verifier::rlimit(40)]
pub proof fn lemma_match_queues(start: MatchState, t: Taker, n: nat, slack: nat)
    requires
        book_inv(start.book),
        nets_within(start.book.accounts, start.qty as nat + slack),
        start.qty as nat + slack <= i128::MAX,
        start.fills.len() == 0,
        start.self_canceled.len() == 0,
    ensures
        queue_frame(start, match_run(start, t, n), t),
    decreases n,
{
    let side = t.side.opposite();
    let s0 = start.book.side(side);
    if n == 0 {
        return;
    }
    lemma_match_queues(start, t, (n - 1) as nat, slack);
    lemma_match_levels(start, t, (n - 1) as nat, slack);
    let prev = match_run(start, t, (n - 1) as nat);
    let next = match_step(prev, t);
    assert(next == match_run(start, t, n));
    if match_done(prev, t) {
        return;
    }
    let opp = prev.book.side(side);
    let e = opp[0];
    let k0 = choose|k: int| 0 <= k < s0.len() && opp[0].order.id == s0[k].order.id && opp[0].order.price == s0[k].order.price;
    let ns = next.book.side(side);
    if self_match(t, e) {
        if t.stp == StpMode::CancelMaker || t.stp == StpMode::CancelBoth {
            assert(ns == opp.remove(0));
            assert(next.fills == prev.fills);
            let sc1 = next.self_canceled;
            assert(sc1 == prev.self_canceled.push(e.order.id));
            assert(pulled_at(s0, sc1, e.order.price)) by {
                assert(sc1[prev.self_canceled.len() as int] == e.order.id);
            }
            assert forall|p: Price| !filled_at(next.fills, p) && !pulled_at(s0, sc1, p) implies #[trigger] orders_at(ns, p)
                == orders_at(s0, p) by {
                if pulled_at(s0, prev.self_canceled, p) {
                    let (i, j) = choose|i: int, j: int| 0 <= i < s0.len() && 0 <= j < prev.self_canceled.len()
                        && s0[i].order.id == prev.self_canceled[j] && s0[i].order.price == p;
                    assert(sc1[j] == prev.self_canceled[j]);
                }
                lemma_orders_remove(opp, 0, p);
            }
        } else {
            assert(next.book == prev.book && next.fills == prev.fills && next.self_canceled == prev.self_canceled);
        }
    } else {
        let traded = min_qty(prev.qty, e.order.qty);
        assert(ns == after_fill(opp, side, e, traded));
        assert(next.self_canceled == prev.self_canceled);
        assert(filled_at(next.fills, e.order.price)) by {
            assert(next.fills[next.fills.len() - 1].price == e.order.price);
        }
        assert forall|p: Price| !filled_at(next.fills, p) && !pulled_at(s0, next.self_canceled, p) implies #[trigger] orders_at(ns, p)
            == orders_at(s0, p) by {
            if filled_at(prev.fills, p) {
                let i = choose|i: int| 0 <= i < prev.fills.len() && prev.fills[i].price == p;
                assert(next.fills[i] == prev.fills[i]);
            }
            lemma_orders_after_fill(opp, side, traded, p);
        }
    }
}

/// Every level of `side` whose queue of orders differs between `b0` and `b1` is touched.
pub open spec fn covers_queues(t: Touched, b0: BookModel, b1: BookModel, side: Side) -> bool {
    forall|p: Price| #[trigger] orders_at(b1.side(side), p) != orders_at(b0.side(side), p) ==> touched_on(t, side).contains(p)
}

proof fn lemma_cq_trans(t1: Touched, t2: Touched, b0: BookModel, b1: BookModel, b2: BookModel, side: Side)
    requires
        covers_queues(t1, b0, b1, side),
        covers_queues(t2, b1, b2, side),
        grows(t1, t2),
    ensures
        covers_queues(t2, b0, b2, side),
{
    assert forall|p: Price| #[trigger] orders_at(b2.side(side), p) != orders_at(b0.side(side), p) implies touched_on(t2, side).contains(p) by {
        if orders_at(b1.side(side), p) != orders_at(b0.side(side), p) {
            assert(touched_on(t1, side).contains(p));
        }
    }
}

proof fn lemma_cq_grow(t1: Touched, t2: Touched, b0: BookModel, b1: BookModel, side: Side)
    requires
        covers_queues(t1, b0, b1, side),
        grows(t1, t2),
    ensures
        covers_queues(t2, b0, b1, side),
{
    assert forall|p: Price| #[trigger] orders_at(b1.side(side), p) != orders_at(b0.side(side), p) implies touched_on(t2, side).contains(p) by {
        assert(touched_on(t1, side).contains(p));
    }
}

proof fn lemma_l3_concat(t: Touched, a: Seq<Event>, b: Seq<Event>, bk: BookModel)
    ensures
        l3_scan(t, a + b, bk) == l3_scan(l3_scan(t, a, bk), b, bk),
    decreases b.len(),
{
    if b.len() == 0 {
        assert(a + b =~= a);
    } else {
        lemma_l3_concat(t, a, b.drop_last(), bk);
        assert((a + b).drop_last() =~= a + b.drop_last());
        assert((a + b).last() == b.last());
    }
}

proof fn lemma_l3_event(t: Touched, e: Event, bk: BookModel)
    ensures
        grows(t, l3_scan_event(t, e, bk)),
        l3_scan_event(t, e, bk).loc == t.loc,
{
    match e {
        Event::Trade { price, taker_side, .. } => lemma_touch(t, taker_side.opposite(), price),
        Event::Resting { order_id, price, .. } => match get_spec(bk, order_id) {
            Some((side, _)) => lemma_touch(t, side, price),
            None => {},
        },
        Event::Modified { order_id, .. } => if t.loc.contains_key(order_id) {
            lemma_touch(t, t.loc[order_id].0, t.loc[order_id].1);
        },
        Event::Canceled { order_id, .. } => if t.loc.contains_key(order_id) {
            lemma_touch(t, t.loc[order_id].0, t.loc[order_id].1);
        },
        Event::Filled { order_id, .. } => if t.loc.contains_key(order_id) {
            lemma_touch(t, t.loc[order_id].0, t.loc[order_id].1);
        },
        _ => {},
    }
}

proof fn lemma_l3_grows(t: Touched, evs: Seq<Event>, bk: BookModel)
    ensures
        grows(t, l3_scan(t, evs, bk)),
        l3_scan(t, evs, bk).loc == t.loc,
    decreases evs.len(),
{
    if evs.len() > 0 {
        lemma_l3_grows(t, evs.drop_last(), bk);
        lemma_l3_event(l3_scan(t, evs.drop_last(), bk), evs.last(), bk);
    }
}

proof fn lemma_l3_one(t: Touched, e: Event, bk: BookModel)
    ensures
        l3_scan(t, seq![e], bk) == l3_scan_event(t, e, bk),
{
    assert(seq![e].drop_last() =~= Seq::<Event>::empty());
    assert(seq![e].last() == e);
    assert(l3_scan(t, Seq::<Event>::empty(), bk) == t);
}

proof fn lemma_l3_fills(t: Touched, fills: Seq<Fill>, live: Live, fees: FeeConfig, bk: BookModel)
    ensures
        forall|i: int|
            0 <= i < fills.len() ==> touched_on(l3_scan(t, fills_events(fills, live, fees), bk), live.side.opposite()).contains(
                (#[trigger] fills[i]).price,
            ),
    decreases fills.len(),
{
    let evs = fills_events(fills, live, fees);
    if fills.len() == 0 {
        return;
    }
    let fp = fills.drop_last();
    let f = fills.last();
    assert(evs.drop_last() =~= fills_events(fp, live, fees));
    assert(evs.last() == fill_event(f, live, fees));
    lemma_l3_fills(t, fp, live, fees, bk);
    let t1 = l3_scan(t, fills_events(fp, live, fees), bk);
    let side = live.side.opposite();
    lemma_touch(t1, side, f.price);
    let t3 = l3_scan(t, evs, bk);
    assert(t3 == touch(t1, side, f.price));
    assert forall|i: int| 0 <= i < fills.len() implies touched_on(t3, side).contains((#[trigger] fills[i]).price) by {
        if i < fp.len() {
            assert(fp[i] == fills[i]);
            assert(touched_on(t1, side).contains(fp[i].price));
        }
    }
}

proof fn lemma_l3_cancels(t: Touched, ids: Seq<OrderId>, seq: SeqNum, bk: BookModel)
    ensures
        forall|j: int|
            0 <= j < ids.len() && t.loc.contains_key(#[trigger] ids[j]) ==> touched_on(
                l3_scan(t, canceled_events(ids, seq), bk),
                t.loc[ids[j]].0,
            ).contains(t.loc[ids[j]].1),
    decreases ids.len(),
{
    let evs = canceled_events(ids, seq);
    if ids.len() == 0 {
        return;
    }
    let ip = ids.drop_last();
    let y = ids.last();
    assert(evs.drop_last() =~= canceled_events(ip, seq));
    assert(evs.last() == Event::Canceled { seq, order_id: y });
    lemma_l3_cancels(t, ip, seq, bk);
    let t1 = l3_scan(t, canceled_events(ip, seq), bk);
    lemma_l3_grows(t, canceled_events(ip, seq), bk);
    let t3 = l3_scan(t, evs, bk);
    assert(t3 == touch_loc(t1, y));
    if t1.loc.contains_key(y) {
        lemma_touch(t1, t1.loc[y].0, t1.loc[y].1);
    }
    assert forall|j: int| 0 <= j < ids.len() && t.loc.contains_key(#[trigger] ids[j]) implies touched_on(t3, t.loc[ids[j]].0).contains(
        t.loc[ids[j]].1,
    ) by {
        if j < ip.len() {
            assert(ip[j] == ids[j]);
            let l = t.loc[ids[j]];
            assert(touched_on(t1, l.0).contains(l.1));
            match l.0 {
                Side::Buy => {},
                Side::Sell => {},
            }
        }
    }
}

proof fn lemma_rest_queues(b: BookModel, side: Side, order: RestingOrder, d: Qty, h: Qty)
    requires
        ids_ok(b),
        !contains_spec(b, order.id),
    ensures
        forall|s: Side, p: Price|
            !(s == side && p == order.price) ==> #[trigger] orders_at(rest_book(b, side, order, d, h).side(s), p) == orders_at(
                b.side(s),
                p,
            ),
{
    let b1 = insert_spec(b, side, order);
    let e = BookEntry { order, reserve: None };
    let k = insert_pos(b.side(side), side, order.price);
    lemma_insert_pos(b.side(side), side, order.price);
    assert(b1.side(side) == b.side(side).insert(k, e)) by {
        match side {
            Side::Buy => {},
            Side::Sell => {},
        }
    }
    assert(b1.side(side.opposite()) == b.side(side.opposite())) by {
        match side {
            Side::Buy => {},
            Side::Sell => {},
        }
    }
    lemma_insert_at(b, b1, side, k, e);
    let b2 = rest_book(b, side, order, d, h);
    assert forall|s: Side, p: Price| !(s == side && p == order.price) implies #[trigger] orders_at(b2.side(s), p) == orders_at(b.side(s), p) by {
        if s == side {
            lemma_orders_insert(b.side(side), k, e, p);
            if h > 0 {
                let e2 = BookEntry { reserve: Some((d, h)), ..e };
                assert(b2.side(side) == b1.side(side).update(k, e2)) by {
                    match side {
                        Side::Buy => {},
                        Side::Sell => {},
                    }
                }
                lemma_orders_update(b1.side(side), k, e2, p);
            }
        } else {
            assert(s == side.opposite()) by {
                match side {
                    Side::Buy => assert(s == Side::Sell),
                    Side::Sell => assert(s == Side::Buy),
                }
            }
            if h > 0 {
                assert(b2.side(s) == b1.side(s)) by {
                    match side {
                        Side::Buy => {},
                        Side::Sell => {},
                    }
                }
            }
        }
    }
}

proof fn lemma_fin_queues(start: BookModel, live: Live, slack: nat)
    requires
        book_inv(start),
        nets_within(start.accounts, live.qty as nat + slack),
        live.qty as nat + slack <= i128::MAX,
    ensures
        forall|p: Price|
            !filled_at(fin_of(start, live).fills, p) && !pulled_at(start.side(live.side.opposite()), fin_of(start, live).self_canceled, p)
                ==> #[trigger] orders_at(fin_of(start, live).book.side(live.side.opposite()), p) == orders_at(
                start.side(live.side.opposite()),
                p,
            ),
{
    let ms0 = match_start(start, live.qty);
    let tk = taker_of(live);
    let n = choose|n: nat| match_done(#[trigger] match_run(ms0, tk, n), tk);
    assert(fin_of(start, live) == match_run(ms0, tk, n));
    lemma_match_queues(ms0, tk, n, slack);
}

/// Settling an order: its events touch every level whose queue it changed.
proof fn lemma_settle_queues(em: EngineModel, live: Live, slack: nat, t: Touched)
    requires
        book_inv(em.book),
        nets_within(em.book.accounts, live.qty as nat + slack),
        live.qty as nat + slack <= i128::MAX,
        !contains_spec(em.book, live.order_id),
        knows(t, em.book),
    ensures
        grows(t, l3_scan(t, settle_spec(em, live).1, settle_spec(em, live).0.book)),
        covers_queues(l3_scan(t, settle_spec(em, live).1, settle_spec(em, live).0.book), em.book, settle_spec(em, live).0.book, Side::Buy),
        covers_queues(l3_scan(t, settle_spec(em, live).1, settle_spec(em, live).0.book), em.book, settle_spec(em, live).0.book, Side::Sell),
{
    let start = em.book;
    lemma_fin_facts(start, live, slack);
    lemma_fin_queues(start, live, slack);
    let fin = fin_of(start, live);
    let fees = em.fees;
    let last = if fin.fills.len() > 0 { Some(fin.fills.last().price) } else { em.last };
    let em1 = EngineModel { book: fin.book, last, ..em };
    let rest = settle_rest(em1, live, fin.qty, fin.taker_canceled);
    let r = settle_spec(em, live);
    let bk = r.0.book;
    assert(r.0 == rest.0 && r.1 == match_events(start, live, fees) + rest.1);
    let ms = live.side.opposite();
    let s0 = start.side(ms);
    let fe = fills_events(fin.fills, live, fees);
    let ce = canceled_events(fin.self_canceled, live.seq);
    lemma_l3_concat(t, fe, ce, bk);
    lemma_l3_concat(t, match_events(start, live, fees), rest.1, bk);
    lemma_l3_fills(t, fin.fills, live, fees, bk);
    lemma_l3_grows(t, fe, bk);
    let tf = l3_scan(t, fe, bk);
    lemma_l3_cancels(tf, fin.self_canceled, live.seq, bk);
    lemma_l3_grows(tf, ce, bk);
    let t1 = l3_scan(tf, ce, bk);
    assert(t1 == l3_scan(t, match_events(start, live, fees), bk));
    lemma_l3_grows(t1, rest.1, bk);
    let tt = l3_scan(t1, rest.1, bk);
    assert(tt == l3_scan(t, r.1, bk));
    // the match changed the maker side only where it executed or pulled
    assert(covers_queues(t1, start, fin.book, ms)) by {
        assert forall|p: Price| #[trigger] orders_at(fin.book.side(ms), p) != orders_at(start.side(ms), p) implies touched_on(t1, ms).contains(p) by {
            if filled_at(fin.fills, p) {
                let i = choose|i: int| 0 <= i < fin.fills.len() && fin.fills[i].price == p;
                assert(touched_on(tf, ms).contains(fin.fills[i].price));
                match ms {
                    Side::Buy => {},
                    Side::Sell => {},
                }
            } else {
                let (i, j) = choose|i: int, j: int| 0 <= i < s0.len() && 0 <= j < fin.self_canceled.len()
                    && s0[i].order.id == fin.self_canceled[j] && s0[i].order.price == p;
                lemma_entry_loc(start, ms, i);
                assert(tf.loc.contains_key(fin.self_canceled[j]) && tf.loc[fin.self_canceled[j]] == (ms, p));
            }
        }
    }
    assert(covers_queues(t1, start, fin.book, live.side));
    let resting = !fin.taker_canceled && fin.qty != 0 && live.limit_price is Some && (live.tif == TimeInForce::Gtc
        || live.tif == TimeInForce::PostOnly);
    if resting {
        let price = live.limit_price.unwrap();
        let (visible, hidden) = rest_split(live.display, fin.qty);
        let order = RestingOrder {
            id: live.order_id,
            seq: live.seq,
            price,
            qty: visible,
            timestamp: live.timestamp,
            owner: live.owner,
        };
        assert(bk == rest_book(fin.book, live.side, order, live.display, hidden));
        assert(!contains_spec(fin.book, live.order_id));
        lemma_rest_frame(fin.book, live.side, order, live.display, hidden);
        lemma_rest_queues(fin.book, live.side, order, live.display, hidden);
        let e = Event::Resting { seq: live.seq, order_id: live.order_id, price, qty: visible };
        assert(rest.1 == seq![e]);
        lemma_l3_one(t1, e, bk);
        assert(tt == touch(t1, live.side, price));
        lemma_touch(t1, live.side, price);
        assert(live.side.opposite() != live.side) by {
            match live.side {
                Side::Buy => {},
                Side::Sell => {},
            }
        }
        assert(covers_queues(tt, fin.book, bk, live.side)) by {
            assert forall|p: Price| #[trigger] orders_at(bk.side(live.side), p) != orders_at(fin.book.side(live.side), p)
                implies touched_on(tt, live.side).contains(p) by {
                assert(p == price);
            }
        }
        assert(covers_queues(tt, fin.book, bk, ms));
        lemma_cq_trans(t1, tt, start, fin.book, bk, live.side);
        lemma_cq_trans(t1, tt, start, fin.book, bk, ms);
    } else {
        assert(bk == fin.book);
        lemma_cq_grow(t1, tt, start, bk, live.side);
        lemma_cq_grow(t1, tt, start, bk, ms);
    }
    match live.side {
        Side::Buy => {},
        Side::Sell => {},
    }
}

/// Taking out or shrinking order `id` changes the queue of its own level only.
proof fn lemma_edit_queues(b: BookModel, id: OrderId, q: Qty)
    requires
        book_inv(b),
        contains_spec(b, id),
    ensures
        forall|s: Side, p: Price|
            !(s == loc_of(b)[id].0 && p == loc_of(b)[id].1) ==> #[trigger] orders_at(cancel_spec(b, id).0.side(s), p)
                == orders_at(b.side(s), p),
        forall|s: Side, p: Price|
            !(s == loc_of(b)[id].0 && p == loc_of(b)[id].1) ==> #[trigger] orders_at(reduce_spec(b, id, q).0.side(s), p)
                == orders_at(b.side(s), p),
{
    lemma_locate(b, id);
    let (side, i) = locate(b, id).unwrap();
    let s0 = b.side(side);
    let e = s0[i];
    let c = cancel_spec(b, id).0;
    let r = reduce_spec(b, id, q).0;
    assert(c.side(side) == s0.remove(i) && c.side(side.opposite()) == b.side(side.opposite())) by {
        match side {
            Side::Buy => {},
            Side::Sell => {},
        }
    }
    assert(r.side(side.opposite()) == b.side(side.opposite())) by {
        match side {
            Side::Buy => {},
            Side::Sell => {},
        }
    }
    assert forall|sd: Side, p: Price| !(sd == side && p == e.order.price) implies #[trigger] orders_at(c.side(sd), p) == orders_at(b.side(sd), p) by {
        if sd == side {
            lemma_orders_remove(s0, i, p);
        } else {
            assert(sd == side.opposite()) by {
                match side {
                    Side::Buy => assert(sd == Side::Sell),
                    Side::Sell => assert(sd == Side::Buy),
                }
            }
        }
    }
    assert forall|sd: Side, p: Price| !(sd == side && p == e.order.price) implies #[trigger] orders_at(r.side(sd), p) == orders_at(b.side(sd), p) by {
        if sd == side {
            if q < e.order.qty {
                let e2 = BookEntry { order: RestingOrder { qty: q, ..e.order }, ..e };
                assert(r.side(side) == s0.update(i, e2)) by {
                    match side {
                        Side::Buy => {},
                        Side::Sell => {},
                    }
                }
                lemma_orders_update(s0, i, e2, p);
            } else {
                assert(r == b);
            }
        } else {
            assert(sd == side.opposite()) by {
                match side {
                    Side::Buy => assert(sd == Side::Sell),
                    Side::Sell => assert(sd == Side::Buy),
                }
            }
        }
    }
}

/// The order-level scan of a command's events by a feed that knows where the orders of `b`
/// rest.
pub open spec fn scan3_from(b: BookModel, evs: Seq<Event>, b1: BookModel) -> Touched {
    l3_scan(Touched { loc: loc_of(b), bids: Set::empty(), asks: Set::empty() }, evs, b1)
}

/// The events of a command that took the book from `b0` to `b1` touch every level whose
/// queue of orders it changed.
pub open spec fn synced3(b0: BookModel, evs: Seq<Event>, b1: BookModel) -> bool {
    &&& covers_queues(scan3_from(b0, evs, b1), b0, b1, Side::Buy)
    &&& covers_queues(scan3_from(b0, evs, b1), b0, b1, Side::Sell)
}

proof fn lemma_queues_cancel(b0: BookModel, id: OrderId, seq: SeqNum)
    requires
        book_inv(b0),
        contains_spec(b0, id),
    ensures
        synced3(b0, seq![Event::Canceled { seq, order_id: id }], cancel_spec(b0, id).0),
{
    let b1 = cancel_spec(b0, id).0;
    lemma_edit_queues(b0, id, 0);
    lemma_locate(b0, id);
    let t0 = Touched { loc: loc_of(b0), bids: Set::empty(), asks: Set::empty() };
    let e = Event::Canceled { seq, order_id: id };
    lemma_l3_one(t0, e, b1);
    let l = loc_of(b0)[id];
    lemma_touch(t0, l.0, l.1);
    let tt = scan3_from(b0, seq![e], b1);
    assert(tt == touch(t0, l.0, l.1));
    assert forall|sd: Side, p: Price| #[trigger] orders_at(b1.side(sd), p) != orders_at(b0.side(sd), p) implies touched_on(tt, sd).contains(p) by {
        assert(sd == l.0 && p == l.1);
    }
}

proof fn lemma_queues_reduce(b0: BookModel, id: OrderId, q: Qty, seq: SeqNum)
    requires
        book_inv(b0),
        contains_spec(b0, id),
        q <= get_spec(b0, id).unwrap().1.qty,
    ensures
        ({
            let (side, current) = get_spec(b0, id).unwrap();
            let b1 = if q < current.qty { reduce_spec(b0, id, q).0 } else { b0 };
            synced3(b0, seq![Event::Modified { seq, order_id: id }, Event::Resting { seq, order_id: id, price: current.price, qty: q }], b1)
        }),
{
    let (side, current) = get_spec(b0, id).unwrap();
    let b1 = if q < current.qty { reduce_spec(b0, id, q).0 } else { b0 };
    lemma_edit_queues(b0, id, q);
    lemma_locate(b0, id);
    let l = loc_of(b0)[id];
    let e1 = Event::Modified { seq, order_id: id };
    let e2 = Event::Resting { seq, order_id: id, price: current.price, qty: q };
    let t0 = Touched { loc: loc_of(b0), bids: Set::empty(), asks: Set::empty() };
    lemma_l3_concat(t0, seq![e1], seq![e2], b1);
    assert(seq![e1] + seq![e2] =~= seq![e1, e2]);
    lemma_l3_one(t0, e1, b1);
    let t1 = touch(t0, l.0, l.1);
    lemma_touch(t0, l.0, l.1);
    lemma_l3_one(t1, e2, b1);
    lemma_l3_event(t1, e2, b1);
    let tt = scan3_from(b0, seq![e1, e2], b1);
    assert(grows(t1, tt));
    assert forall|sd: Side, p: Price| #[trigger] orders_at(b1.side(sd), p) != orders_at(b0.side(sd), p) implies touched_on(tt, sd).contains(p) by {
        assert(sd == l.0 && p == l.1);
        assert(touched_on(t1, sd).contains(p));
        match sd {
            Side::Buy => {},
            Side::Sell => {},
        }
    }
}

proof fn lemma_queues_new(em: EngineModel, live: Live, slack: nat, seq: SeqNum)
    requires
        book_inv(em.book),
        nets_within(em.book.accounts, live.qty as nat + slack),
        live.qty as nat + slack <= i128::MAX,
        !contains_spec(em.book, live.order_id),
    ensures
        synced3(em.book, seq![Event::Accepted { seq, order_id: live.order_id }] + settle_spec(em, live).1, settle_spec(em, live).0.book),
{
    let b0 = em.book;
    let r = settle_spec(em, live);
    let t0 = Touched { loc: loc_of(b0), bids: Set::empty(), asks: Set::empty() };
    let a = seq![Event::Accepted { seq, order_id: live.order_id }];
    lemma_settle_queues(em, live, slack, t0);
    lemma_l3_concat(t0, a, r.1, r.0.book);
    lemma_l3_one(t0, a[0], r.0.book);
    assert(a == seq![a[0]]);
}

proof fn lemma_queues_replace(em: EngineModel, live: Live, slack: nat, seq: SeqNum)
    requires
        book_inv(em.book),
        nets_within(em.book.accounts, live.qty as nat + slack),
        live.qty as nat + slack <= i128::MAX,
        contains_spec(em.book, live.order_id),
    ensures
        ({
            let em1 = EngineModel { book: cancel_spec(em.book, live.order_id).0, ..em };
            let r = settle_spec(em1, live);
            synced3(em.book, seq![Event::Modified { seq, order_id: live.order_id }] + r.1, r.0.book)
        }),
{
    let b0 = em.book;
    let mid = live.order_id;
    lemma_cancel_frame(b0, mid);
    lemma_edit_queues(b0, mid, 0);
    let em1 = EngineModel { book: cancel_spec(b0, mid).0, ..em };
    let b1 = em1.book;
    let r = settle_spec(em1, live);
    let t0 = Touched { loc: loc_of(b0), bids: Set::empty(), asks: Set::empty() };
    let m = seq![Event::Modified { seq, order_id: mid }];
    let l = loc_of(b0)[mid];
    let t1 = touch(t0, l.0, l.1);
    lemma_touch(t0, l.0, l.1);
    lemma_l3_one(t0, m[0], r.0.book);
    assert(m == seq![m[0]]);
    lemma_l3_concat(t0, m, r.1, r.0.book);
    assert forall|x: OrderId| #[trigger] contains_spec(b1, x) implies t1.loc.contains_key(x) && t1.loc[x] == loc_of(b1)[x] by {
        assert(loc_of(b1).contains_key(x));
    }
    assert(!contains_spec(b1, mid)) by {
        assert(!loc_of(b1).contains_key(mid));
    }
    lemma_settle_queues(em1, live, slack, t1);
    let tt = l3_scan(t1, r.1, r.0.book);
    assert forall|sd: Side, p: Price| #[trigger] orders_at(b1.side(sd), p) != orders_at(b0.side(sd), p) implies touched_on(t1, sd).contains(p) by {
        assert(sd == l.0 && p == l.1);
    }
    lemma_cq_trans(t1, tt, b0, b1, r.0.book, Side::Buy);
    lemma_cq_trans(t1, tt, b0, b1, r.0.book, Side::Sell);
}

/// An order-level mirror of one side holds, at every price where the book has orders, that
/// price's queue of `(id, visible qty)` in priority order, and no other level.
pub open spec fn mirrors_queues(levels: Map<Price, Level>, b: BookModel, side: Side) -> bool {
    forall|p: Price|
        #![trigger levels.contains_key(p)]
        #![trigger orders_at(b.side(side), p)]
        levels.contains_key(p) == (orders_at(b.side(side), p).len() > 0) && (levels.contains_key(p) ==> levels[p] == orders_at(
            b.side(side),
            p,
        ))
}

/// The levels `L3Feed::from_book` builds mirror the book.
pub proof fn lemma_level_seqs_mirror(b: BookModel, side: Side)
    ensures
        mirrors_queues(Map::new(|p: Price| has_price(b.side(side), p), |p: Price| orders_at(b.side(side), p)), b, side),
{
    assert forall|p: Price| #[trigger] has_price(b.side(side), p) == (orders_at(b.side(side), p).len() > 0) by {
        crate::book::views::lemma_orders_at_nonempty(b.side(side), p);
    }
}

/// Feed law (market by order), one command: a feed whose levels mirror the book of a valid
/// venue, and which knows where each of its orders rests, holds after `L3Feed::apply` reads
/// the events of the venue's next command, at every price of each side, the new book's queue
/// of orders there (no level where there is none), when no stop fires during that command. `tb` and `ta` are the touched bid and ask prices that `apply`
/// diffs.
pub proof fn lemma_l3_step(c: Clob, command: Command, st: L3State, tb: Seq<Price>, ta: Seq<Price>)
    requires
        c.wf(),
        capacity_for(c@, command),
        quiet(submit_spec(c@, command).1),
        st.loc == loc_of(c@.engine.book),
        mirrors_queues(st.bids, c@.engine.book, Side::Buy),
        mirrors_queues(st.asks, c@.engine.book, Side::Sell),
        tb.to_set() == l3_scan(
            Touched { loc: st.loc, bids: Set::empty(), asks: Set::empty() },
            submit_spec(c@, command).1,
            submit_spec(c@, command).0.engine.book,
        ).bids,
        ta.to_set() == l3_scan(
            Touched { loc: st.loc, bids: Set::empty(), asks: Set::empty() },
            submit_spec(c@, command).1,
            submit_spec(c@, command).0.engine.book,
        ).asks,
    ensures
        mirrors_queues(l3_result(st, submit_spec(c@, command).0.engine.book, tb, ta).bids, submit_spec(c@, command).0.engine.book, Side::Buy),
        mirrors_queues(l3_result(st, submit_spec(c@, command).0.engine.book, tb, ta).asks, submit_spec(c@, command).0.engine.book, Side::Sell),
{
    c.lemma_restorable();
    lemma_submit_sync(c@, command);
    let b0 = c@.engine.book;
    let r = submit_spec(c@, command);
    let b1 = r.0.engine.book;
    let t = scan3_from(b0, r.1, b1);
    let res = l3_result(st, b1, tb, ta);
    assert forall|p: Price| #[trigger] res.bids.contains_key(p) == (orders_at(b1.side(Side::Buy), p).len() > 0)
        && (res.bids.contains_key(p) ==> res.bids[p] == orders_at(b1.side(Side::Buy), p)) by {
        lemma_l3_levels(st, b1, tb, ta, Side::Buy, p);
        assert(tb.contains(p) == t.bids.contains(p)) by {
            assert(tb.to_set().contains(p) == tb.contains(p));
        }
        assert(side_levels(res, Side::Buy) == res.bids);
        assert(side_levels(st, Side::Buy) == st.bids);
        if !t.bids.contains(p) {
            assert(orders_at(b1.side(Side::Buy), p) == orders_at(b0.side(Side::Buy), p));
            assert(st.bids.contains_key(p) == (orders_at(b0.side(Side::Buy), p).len() > 0));
        }
    }
    assert forall|p: Price| #[trigger] res.asks.contains_key(p) == (orders_at(b1.side(Side::Sell), p).len() > 0)
        && (res.asks.contains_key(p) ==> res.asks[p] == orders_at(b1.side(Side::Sell), p)) by {
        lemma_l3_levels(st, b1, tb, ta, Side::Sell, p);
        assert(ta.contains(p) == t.asks.contains(p)) by {
            assert(ta.to_set().contains(p) == ta.contains(p));
        }
        assert(side_levels(res, Side::Sell) == res.asks);
        assert(side_levels(st, Side::Sell) == st.asks);
        if !t.asks.contains(p) {
            assert(orders_at(b1.side(Side::Sell), p) == orders_at(b0.side(Side::Sell), p));
            assert(st.asks.contains_key(p) == (orders_at(b0.side(Side::Sell), p).len() > 0));
        }
    }
}

/// Taking out the entry at place `i` of `side`: the book forgets where it rested and keeps
/// every other order where it was.
pub proof fn lemma_loc_remove(b: BookModel, b1: BookModel, side: Side, i: int)
    requires
        ids_ok(b),
        0 <= i < b.side(side).len(),
        b1.side(side) == b.side(side).remove(i),
        b1.side(side.opposite()) == b.side(side.opposite()),
    ensures
        ids_ok(b1),
        loc_of(b1) == loc_of(b).remove(b.side(side)[i].order.id),
{
    let s0 = b.side(side);
    let s1 = b1.side(side);
    let id = s0[i].order.id;
    assert(ids_distinct(s0)) by {
        match side {
            Side::Buy => {},
            Side::Sell => {},
        }
    }
    assert(ids_ok(b1)) by {
        assert forall|a: int, c: int| 0 <= a < c < s1.len() implies (#[trigger] s1[a]).order.id != (#[trigger] s1[c]).order.id by {
            let a0 = if a < i { a } else { a + 1 };
            let c0 = if c < i { c } else { c + 1 };
            assert(s1[a] == s0[a0] && s1[c] == s0[c0]);
            assert(s0[a0].order.id != s0[c0].order.id);
        }
        match side {
            Side::Buy => {
                assert forall|a: int, c: int| 0 <= a < b1.bids.len() && 0 <= c < b1.asks.len() implies (#[trigger] b1.bids[a]).order.id
                    != (#[trigger] b1.asks[c]).order.id by {
                    let a0 = if a < i { a } else { a + 1 };
                    assert(b1.bids[a] == b.bids[a0]);
                    assert(b.bids[a0].order.id != b.asks[c].order.id);
                }
            },
            Side::Sell => {
                assert forall|a: int, c: int| 0 <= a < b1.bids.len() && 0 <= c < b1.asks.len() implies (#[trigger] b1.bids[a]).order.id
                    != (#[trigger] b1.asks[c]).order.id by {
                    let c0 = if c < i { c } else { c + 1 };
                    assert(b1.asks[c] == b.asks[c0]);
                    assert(b.bids[a].order.id != b.asks[c0].order.id);
                }
            },
        }
    }
    lemma_remove_levels(b, b1, side, i);
    assert forall|x: OrderId| #[trigger] loc_of(b1).contains_key(x) <==> loc_of(b).remove(id).contains_key(x) by {
        if contains_spec(b1, x) {
            assert(ids_distinct(b.side(side)) && ids_disjoint(b.bids, b.asks));
            lemma_remove_ids_sub(b, b1, side, i, id, x);
        }
        if contains_spec(b, x) && x != id {
            lemma_remove_ids_sup(b, b1, side, i, id, x);
        }
    }
    assert forall|x: OrderId| #[trigger] loc_of(b1).contains_key(x) implies loc_of(b1)[x] == loc_of(b)[x] by {
        lemma_loc_kept(b, b1, x);
    }
    assert(loc_of(b1) =~= loc_of(b).remove(id));
}

/// Sending the front entry of `side` back into its queue (as a refilled iceberg peak, with
/// the same id and price) keeps every order where the book has it.
pub proof fn lemma_loc_requeue(b: BookModel, b1: BookModel, side: Side, k: int, x: BookEntry)
    requires
        ids_ok(b),
        b.side(side).len() > 0,
        x.order.id == b.side(side)[0].order.id,
        x.order.price == b.side(side)[0].order.price,
        0 <= k <= b.side(side).len() - 1,
        b1.side(side) == b.side(side).remove(0).insert(k, x),
        b1.side(side.opposite()) == b.side(side.opposite()),
    ensures
        ids_ok(b1),
        loc_of(b1) == loc_of(b),
{
    let bm = b.with_side(side, b.side(side).remove(0));
    assert(bm.side(side) == b.side(side).remove(0) && bm.side(side.opposite()) == b.side(side.opposite())) by {
        match side {
            Side::Buy => {},
            Side::Sell => {},
        }
    }
    lemma_loc_remove(b, bm, side, 0);
    let id = x.order.id;
    assert(!contains_spec(bm, id)) by {
        assert(!loc_of(bm).contains_key(id));
    }
    lemma_insert_at(bm, b1, side, k, x);
    lemma_entry_loc(b, side, 0);
    assert(loc_of(b1) =~= loc_of(b));
}

} // verus!

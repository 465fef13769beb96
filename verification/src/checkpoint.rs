use vstd::prelude::*;

use crate::book::accounts::{add_open_spec, state_of};
use crate::book::model::{
    add_reserve_spec, better_eq, contains_spec, entries_of, has_id, ids_distinct, insert_pos,
    insert_spec, lemma_index_of_id, lemma_owner_vol_le, lemma_sum_concat, lemma_sum_push, locate,
    owner_vol_fn, reserves_ok, side_insert, sorted, sum_by, vol, vol_fn, BookEntry,
};
use crate::book::accounts::{nets_within, restore_net_spec, AccountState};
use crate::book::model::{book_inv, book_volume, ids_disjoint, BookModel};
use crate::clob::{
    empty_engine, ids_below, nets_listed, restore_engine, restore_net_step, restore_nets,
    restore_order_step, restore_orders, restore_stop_step, restore_stops, volume_of,
};
use crate::engine::{known_id, room, stops_ok, EngineModel};
use crate::snapshot::SnapshotModel;
use crate::stops::{lemma_stops_volume_prefix, lemma_stops_volume_push, PendingStop};
use crate::snapshot::RestingEntry;
use crate::stops::stops_volume;
use crate::types::{AccountId, OrderId, Price, Side};

verus! {

/// A queue whose prices are all at least as good as `p` takes an entry at `p` at its back.
proof fn lemma_insert_pos_end(s: Seq<BookEntry>, side: Side, p: Price)
    requires
        forall|j: int| 0 <= j < s.len() ==> better_eq(side, (#[trigger] s[j]).order.price, p),
    ensures
        insert_pos(s, side, p) == s.len(),
    decreases s.len(),
{
    if s.len() > 0 {
        let t = s.drop_first();
        assert forall|j: int| 0 <= j < t.len() implies better_eq(side, (#[trigger] t[j]).order.price, p) by {
            assert(t[j] == s[j + 1]);
        }
        lemma_insert_pos_end(t, side, p);
        assert(better_eq(side, s[0].order.price, p));
    }
}

/// Restoring `a` and then `b` is restoring `a + b`.
proof fn lemma_orders_concat(em: Option<EngineModel>, a: Seq<RestingEntry>, b: Seq<RestingEntry>, next_id: OrderId)
    ensures
        restore_orders(em, a + b, next_id) == restore_orders(restore_orders(em, a, next_id), b, next_id),
    decreases b.len(),
{
    if b.len() == 0 {
        assert(a + b =~= a);
    } else {
        lemma_orders_concat(em, a, b.drop_last(), next_id);
        assert((a + b).drop_last() =~= a + b.drop_last());
        assert((a + b).last() == b.last());
    }
}

/// What restoring the queue `s` on `side` needs from the engine it starts from.
pub open spec fn rebuild_ok(e0: EngineModel, side: Side, s: Seq<BookEntry>, next_id: OrderId) -> bool {
    &&& e0.book.side(side).len() == 0
    &&& e0.stops.len() == 0
    &&& !e0.book.accounts.contains_key(0)
    &&& forall|o: AccountId| #[trigger] state_of(e0.book.accounts, o).open_on(side) == 0
    &&& sorted(s, side)
    &&& ids_distinct(s)
    &&& reserves_ok(s)
    &&& forall|i: int| 0 <= i < s.len() ==> (#[trigger] s[i]).order.id < next_id
    &&& forall|i: int, j: int|
        0 <= i < s.len() && 0 <= j < e0.book.side(side.opposite()).len() ==> (#[trigger] s[i]).order.id
            != (#[trigger] e0.book.side(side.opposite())[j]).order.id
    &&& sum_by(e0.book.side(side.opposite()), vol_fn()) + sum_by(s, vol_fn()) <= u64::MAX
}

/// `e` is `e0` with the first `k` entries of `s` restored on `side`.
pub open spec fn rebuilt(e0: EngineModel, side: Side, s: Seq<BookEntry>, k: int, e: EngineModel) -> bool {
    &&& e.book.side(side) == s.take(k)
    &&& e.book.side(side.opposite()) == e0.book.side(side.opposite())
    &&& e.stops == e0.stops
    &&& e.last == e0.last
    &&& e.fees == e0.fees
    &&& !e.book.accounts.contains_key(0)
    &&& forall|o: AccountId|
        #![trigger state_of(e.book.accounts, o)]
        o != 0 ==> {
            &&& state_of(e.book.accounts, o).open_on(side) == sum_by(s.take(k), owner_vol_fn(o))
            &&& state_of(e.book.accounts, o).open_on(side.opposite()) == state_of(e0.book.accounts, o).open_on(
                side.opposite(),
            )
            &&& state_of(e.book.accounts, o).net == state_of(e0.book.accounts, o).net
        }
}

/// Restoring entry `k` of `s` on top of its first `k` entries.
#[verifier::rlimit(80)]
proof fn lemma_rebuild_step(e0: EngineModel, side: Side, s: Seq<BookEntry>, next_id: OrderId, k: int, e: EngineModel)
    requires
        rebuild_ok(e0, side, s, next_id),
        0 <= k < s.len(),
        rebuilt(e0, side, s, k, e),
    ensures
        restore_order_step(e, (side, s[k].order, s[k].reserve), next_id) matches Some(e2) && rebuilt(
            e0,
            side,
            s,
            k + 1,
            e2,
        ),
{
    let x = s[k];
    let o = x.order;
    let opp = side.opposite();
    let entry = BookEntry { order: o, reserve: None };
    let pre = s.take(k);
    let next = s.take(k + 1);
    assert(next =~= pre.push(x));
    // The id is new and issued.
    assert(!has_id(e.book.side(side), o.id)) by {
        if has_id(e.book.side(side), o.id) {
            let j = choose|j: int| 0 <= j < pre.len() && pre[j].order.id == o.id;
            assert(pre[j] == s[j]);
        }
    }
    assert(!has_id(e.book.side(opp), o.id)) by {
        if has_id(e.book.side(opp), o.id) {
            let j = choose|j: int| 0 <= j < e0.book.side(opp).len() && e0.book.side(opp)[j].order.id == o.id;
            assert(s[k].order.id != e0.book.side(opp)[j].order.id);
        }
    }
    assert(!contains_spec(e.book, o.id)) by {
        match side {
            Side::Buy => {},
            Side::Sell => {},
        }
    }
    assert(!known_id(e, o.id));
    // The volume fits.
    assert(s =~= next + s.skip(k + 1));
    lemma_sum_concat(next, s.skip(k + 1), vol_fn());
    lemma_sum_push(pre, x, vol_fn());
    assert(stops_volume(e.stops) == 0);
    assert(volume_of(e) == sum_by(pre, vol_fn()) + sum_by(e0.book.side(opp), vol_fn())) by {
        match side {
            Side::Buy => {},
            Side::Sell => {},
        }
    }
    assert(vol(x) == o.qty + crate::book::model::hidden_of(x));
    // The entry joins the back of the queue.
    assert forall|j: int| 0 <= j < pre.len() implies better_eq(side, (#[trigger] pre[j]).order.price, o.price) by {
        assert(pre[j] == s[j]);
    }
    lemma_insert_pos_end(pre, side, o.price);
    assert(side_insert(pre, side, entry) =~= pre.push(entry));
    let m1 = insert_spec(e.book, side, o);
    let acc1 = add_open_spec(e.book.accounts, o.owner, side, o.qty);
    assert(m1.side(side) == pre.push(entry));
    assert(m1.side(opp) == e0.book.side(opp)) by {
        match side {
            Side::Buy => {},
            Side::Sell => {},
        }
    }
    assert(m1.accounts == acc1);
    match x.reserve {
        None => {
            assert(entry == x);
            let e2 = restore_order_step(e, (side, o, x.reserve), next_id)->Some_0;
            assert(e2.book == m1);
            assert forall|w: AccountId| w != 0 implies {
                &&& state_of(e2.book.accounts, w).open_on(side) == sum_by(next, owner_vol_fn(w))
                &&& state_of(e2.book.accounts, w).open_on(opp) == state_of(e0.book.accounts, w).open_on(opp)
                &&& state_of(e2.book.accounts, w).net == state_of(e0.book.accounts, w).net
            } by {
                lemma_sum_push(pre, x, owner_vol_fn(w));
                lemma_owner_vol_le(next, w);
                assert(state_of(e.book.accounts, w).open_on(side) == sum_by(pre, owner_vol_fn(w)));
            }
            assert(rebuilt(e0, side, s, k + 1, e2));
        },
        Some((d, h)) => {
            let upd = BookEntry { reserve: Some((d, h)), ..entry };
            assert(upd == x);
            assert(ids_distinct(pre.push(entry))) by {
                assert forall|i: int, j: int| 0 <= i < j < pre.push(entry).len() implies (#[trigger] pre.push(
                    entry,
                )[i]).order.id != (#[trigger] pre.push(entry)[j]).order.id by {
                    assert(pre.push(entry)[i].order.id == s[i].order.id);
                    assert(pre.push(entry)[j].order.id == s[j].order.id);
                }
            }
            lemma_index_of_id(pre.push(entry), k);
            assert(locate(m1, o.id) == Some((side, k))) by {
                match side {
                    Side::Buy => {},
                    Side::Sell => {},
                }
            }
            let m2 = add_reserve_spec(m1, o.id, d, h);
            assert(pre.push(entry).update(k, upd) =~= next);
            assert(m2.side(side) == next);
            assert(m2.side(opp) == e0.book.side(opp)) by {
                match side {
                    Side::Buy => {},
                    Side::Sell => {},
                }
            }
            let e2 = restore_order_step(e, (side, o, x.reserve), next_id)->Some_0;
            assert(e2.book == m2);
            assert forall|w: AccountId| w != 0 implies {
                &&& state_of(e2.book.accounts, w).open_on(side) == sum_by(next, owner_vol_fn(w))
                &&& state_of(e2.book.accounts, w).open_on(opp) == state_of(e0.book.accounts, w).open_on(opp)
                &&& state_of(e2.book.accounts, w).net == state_of(e0.book.accounts, w).net
            } by {
                lemma_sum_push(pre, x, owner_vol_fn(w));
                lemma_owner_vol_le(next, w);
                assert(state_of(e.book.accounts, w).open_on(side) == sum_by(pre, owner_vol_fn(w)));
            }
            assert(e2.book.side(side) == s.take(k + 1));
            assert(e2.book.side(opp) == e0.book.side(opp));
            assert(e2.stops == e0.stops);
            assert(!e2.book.accounts.contains_key(0));
            assert(e2.last == e0.last);
            assert(e2.fees == e0.fees);
            assert(forall|w: AccountId|
                #![trigger state_of(e2.book.accounts, w)]
                w != 0 ==> {
                    &&& state_of(e2.book.accounts, w).open_on(side) == sum_by(s.take(k + 1), owner_vol_fn(w))
                    &&& state_of(e2.book.accounts, w).open_on(side.opposite()) == state_of(e0.book.accounts, w).open_on(
                        side.opposite(),
                    )
                    &&& state_of(e2.book.accounts, w).net == state_of(e0.book.accounts, w).net
                });
            assert(rebuilt(e0, side, s, k + 1, e2));
        },
    }
}

/// Restoring the first `k` entries of `s` on `side`.
proof fn lemma_rebuild(e0: EngineModel, side: Side, s: Seq<BookEntry>, next_id: OrderId, k: int)
    requires
        rebuild_ok(e0, side, s, next_id),
        0 <= k <= s.len(),
    ensures
        restore_orders(Some(e0), entries_of(s, side).take(k), next_id) matches Some(e) && rebuilt(
            e0,
            side,
            s,
            k,
            e,
        ),
    decreases k,
{
    let es = entries_of(s, side);
    if k == 0 {
        assert(es.take(0) =~= Seq::<RestingEntry>::empty());
        assert(s.take(0) =~= Seq::<BookEntry>::empty());
        assert(e0.book.side(side) =~= s.take(0));
    } else {
        lemma_rebuild(e0, side, s, next_id, k - 1);
        let e = restore_orders(Some(e0), es.take(k - 1), next_id)->Some_0;
        lemma_rebuild_step(e0, side, s, next_id, k - 1, e);
        assert(es.take(k).drop_last() =~= es.take(k - 1));
        assert(es.take(k).last() == (side, s[k - 1].order, s[k - 1].reserve));
    }
}

/// Restoring the first `k` stops of `em` onto `e`, which holds its book and no stops.
proof fn lemma_restore_stops_prefix(em: EngineModel, e: EngineModel, next_id: OrderId, k: int)
    requires
        book_inv(em.book),
        stops_ok(em),
        room(em, 0),
        ids_below(em, next_id),
        e.book.bids == em.book.bids,
        e.book.asks == em.book.asks,
        e.stops.len() == 0,
        0 <= k <= em.stops.len(),
    ensures
        restore_stops(Some(e), em.stops.take(k), next_id) == Some(EngineModel { stops: em.stops.take(k), ..e }),
    decreases k,
{
    if k == 0 {
        assert(em.stops.take(0) =~= Seq::<PendingStop>::empty());
        assert(e.stops =~= em.stops.take(0));
    } else {
        lemma_restore_stops_prefix(em, e, next_id, k - 1);
        let st = em.stops[k - 1];
        let prev = EngineModel { stops: em.stops.take(k - 1), ..e };
        assert(em.stops.take(k).drop_last() =~= em.stops.take(k - 1));
        assert(em.stops.take(k).last() == st);
        assert(!contains_spec(prev.book, st.id));
        assert(!known_id(prev, st.id)) by {
            if exists|i: int| 0 <= i < prev.stops.len() && prev.stops[i].id == st.id {
                let i = choose|i: int| 0 <= i < prev.stops.len() && prev.stops[i].id == st.id;
                assert(em.stops[i].id != em.stops[k - 1].id);
            }
        }
        assert(known_id(em, st.id));
        assert(book_volume(prev.book) == book_volume(em.book));
        lemma_stops_volume_push(em.stops.take(k - 1), st);
        assert(em.stops.take(k - 1).push(st) =~= em.stops.take(k));
        lemma_stops_volume_prefix(em.stops, k);
        assert(prev.stops.push(st) =~= em.stops.take(k));
    }
}

/// The net position the list `v` gives `o`: its last entry for `o`, or zero.
pub open spec fn listed_net(v: Seq<(AccountId, i128)>, o: AccountId) -> i128
    decreases v.len(),
{
    if v.len() == 0 {
        0
    } else if v.last().0 == o {
        v.last().1
    } else {
        listed_net(v.drop_last(), o)
    }
}

proof fn lemma_listed_net(v: Seq<(AccountId, i128)>, o: AccountId)
    requires
        forall|i: int, j: int| 0 <= i < j < v.len() ==> (#[trigger] v[i]).0 < (#[trigger] v[j]).0,
    ensures
        forall|i: int| 0 <= i < v.len() && (#[trigger] v[i]).0 == o ==> listed_net(v, o) == v[i].1,
        (forall|i: int| 0 <= i < v.len() ==> (#[trigger] v[i]).0 != o) ==> listed_net(v, o) == 0,
    decreases v.len(),
{
    if v.len() > 0 {
        let init = v.drop_last();
        assert forall|i: int, j: int| 0 <= i < j < init.len() implies (#[trigger] init[i]).0 < (#[trigger] init[j]).0 by {
            assert(init[i] == v[i] && init[j] == v[j]);
        }
        lemma_listed_net(init, o);
        assert forall|i: int| 0 <= i < v.len() && (#[trigger] v[i]).0 == o implies listed_net(v, o) == v[i].1 by {
            if i < v.len() - 1 {
                assert(v[i].0 < v[v.len() - 1].0);
                assert(init[i] == v[i]);
            }
        }
        if forall|i: int| 0 <= i < v.len() ==> (#[trigger] v[i]).0 != o {
            assert(v[v.len() - 1].0 != o);
            assert forall|i: int| 0 <= i < init.len() implies (#[trigger] init[i]).0 != o by {
                assert(init[i] == v[i]);
            }
        }
    }
}

/// Restoring the first `k` net positions of `v`: each owner gets its listed position, and
/// the open volumes stay.
proof fn lemma_restore_nets_prefix(e: EngineModel, v: Seq<(AccountId, i128)>, k: int)
    requires
        0 <= k <= v.len(),
        !e.book.accounts.contains_key(0),
        forall|o: AccountId| #[trigger] state_of(e.book.accounts, o).net == 0,
        forall|i: int| 0 <= i < v.len() ==> (#[trigger] v[i]).0 != 0 && v[i].1 != 0,
        forall|i: int|
            0 <= i < v.len() ==> -(i128::MAX - stops_volume(e.stops)) <= (#[trigger] v[i]).1 <= i128::MAX
                - stops_volume(e.stops),
    ensures
        restore_nets(Some(e), v.take(k)) matches Some(r) && {
            &&& r.book.bids == e.book.bids
            &&& r.book.asks == e.book.asks
            &&& r.stops == e.stops
            &&& r.last == e.last
            &&& r.fees == e.fees
            &&& !r.book.accounts.contains_key(0)
            &&& forall|o: AccountId|
                #[trigger] state_of(r.book.accounts, o) == (AccountState {
                    net: listed_net(v.take(k), o),
                    ..state_of(e.book.accounts, o)
                })
        },
    decreases k,
{
    if k == 0 {
        assert(v.take(0) =~= Seq::<(AccountId, i128)>::empty());
        assert forall|o: AccountId| #[trigger] state_of(e.book.accounts, o) == (AccountState {
            net: listed_net(v.take(0), o),
            ..state_of(e.book.accounts, o)
        }) by {
            assert(listed_net(v.take(0), o) == 0);
            assert(state_of(e.book.accounts, o).net == 0);
        }
    } else {
        lemma_restore_nets_prefix(e, v, k - 1);
        let r = restore_nets(Some(e), v.take(k - 1))->Some_0;
        let a = v[k - 1];
        assert(v.take(k).drop_last() =~= v.take(k - 1));
        assert(v.take(k).last() == a);
        let r2 = restore_net_step(r, a)->Some_0;
        assert(r2.book.accounts == restore_net_spec(r.book.accounts, a.0, a.1));
        assert forall|o: AccountId| #[trigger] state_of(r2.book.accounts, o) == (AccountState {
            net: listed_net(v.take(k), o),
            ..state_of(e.book.accounts, o)
        }) by {
            assert(state_of(r.book.accounts, o) == (AccountState {
                net: listed_net(v.take(k - 1), o),
                ..state_of(e.book.accounts, o)
            }));
        }
    }
}

/// What a well-formed venue's engine keeps, with `next_id` its next order id: the book
/// invariant, dormant stops apart from the book, room for its volumes and net positions, and
/// every id it knows issued already.
pub open spec fn restorable(em: EngineModel, next_id: OrderId) -> bool {
    &&& book_inv(em.book)
    &&& stops_ok(em)
    &&& room(em, 0)
    &&& ids_below(em, next_id)
}

/// Snapshot law: what a snapshot records of a venue restores to the same book queues (every
/// order with its priority and its reserve), the same dormant stops, the same last trade
/// price, and the same net position and open volume for every account.
#[verifier::rlimit(80)]
pub proof fn lemma_restore_snapshot(em: EngineModel, m: SnapshotModel)
    requires
        restorable(em, m.next_order_id),
        m.last_trade_price == em.last,
        m.orders == entries_of(em.book.bids, Side::Buy) + entries_of(em.book.asks, Side::Sell),
        m.stops == em.stops,
        nets_listed(m.account_net, em.book.accounts),
    ensures
        restore_engine(m) matches Some(r) && {
            &&& r.book.bids == em.book.bids
            &&& r.book.asks == em.book.asks
            &&& r.stops == em.stops
            &&& r.last == em.last
            &&& r.fees == empty_engine().fees
            &&& forall|o: AccountId| #[trigger] state_of(r.book.accounts, o) == state_of(em.book.accounts, o)
        },
{
    let next_id = m.next_order_id;
    let e0 = EngineModel { last: m.last_trade_price, ..empty_engine() };
    let bids = em.book.bids;
    let asks = em.book.asks;
    let eb = entries_of(bids, Side::Buy);
    let ea = entries_of(asks, Side::Sell);
    assert forall|i: int| 0 <= i < bids.len() implies (#[trigger] bids[i]).order.id < next_id by {
        assert(has_id(bids, bids[i].order.id));
        assert(known_id(em, bids[i].order.id));
    }
    assert forall|i: int| 0 <= i < asks.len() implies (#[trigger] asks[i]).order.id < next_id by {
        assert(has_id(asks, asks[i].order.id));
        assert(known_id(em, asks[i].order.id));
    }
    assert(sum_by(Seq::<BookEntry>::empty(), vol_fn()) == 0);
    assert(rebuild_ok(e0, Side::Buy, bids, next_id));
    lemma_rebuild(e0, Side::Buy, bids, next_id, bids.len() as int);
    assert(eb.take(bids.len() as int) =~= eb);
    assert(bids.take(bids.len() as int) =~= bids);
    let e1 = restore_orders(Some(e0), eb, next_id)->Some_0;
    assert forall|o: AccountId| #[trigger] state_of(e1.book.accounts, o).open_on(Side::Sell) == 0 by {
        if o != 0 {
            assert(state_of(e1.book.accounts, o).open_on(Side::Buy.opposite()) == state_of(e0.book.accounts, o).open_on(
                Side::Buy.opposite(),
            ));
        }
    }
    assert forall|i: int, j: int|
        0 <= i < asks.len() && 0 <= j < e1.book.side(Side::Sell.opposite()).len() implies (#[trigger] asks[i]).order.id
        != (#[trigger] e1.book.side(Side::Sell.opposite())[j]).order.id by {
        assert(e1.book.side(Side::Sell.opposite())[j] == bids[j]);
    }
    assert(rebuild_ok(e1, Side::Sell, asks, next_id));
    lemma_rebuild(e1, Side::Sell, asks, next_id, asks.len() as int);
    assert(ea.take(asks.len() as int) =~= ea);
    assert(asks.take(asks.len() as int) =~= asks);
    lemma_orders_concat(Some(e0), eb, ea, next_id);
    let e2 = restore_orders(Some(e1), ea, next_id)->Some_0;
    assert(restore_orders(Some(e0), m.orders, next_id) == Some(e2));
    lemma_restore_stops_prefix(em, e2, next_id, em.stops.len() as int);
    assert(em.stops.take(em.stops.len() as int) =~= em.stops);
    let e3 = EngineModel { stops: em.stops, ..e2 };
    assert(restore_stops(Some(e2), m.stops, next_id) == Some(e3));
    let v = m.account_net;
    assert forall|o: AccountId| #[trigger] state_of(e3.book.accounts, o).net == 0 by {
        if o != 0 {
            assert(state_of(e2.book.accounts, o).net == state_of(e1.book.accounts, o).net);
            assert(state_of(e1.book.accounts, o).net == state_of(e0.book.accounts, o).net);
        }
    }
    assert forall|i: int| 0 <= i < v.len() implies (#[trigger] v[i]).0 != 0 && v[i].1 != 0 by {
        assert(em.book.accounts.contains_key(v[i].0));
    }
    assert forall|i: int|
        0 <= i < v.len() implies -(i128::MAX - stops_volume(e3.stops)) <= (#[trigger] v[i]).1 <= i128::MAX
        - stops_volume(e3.stops) by {
        assert(em.book.accounts.contains_key(v[i].0));
        assert(em.book.accounts[v[i].0].net == v[i].1);
    }
    lemma_restore_nets_prefix(e3, v, v.len() as int);
    assert(v.take(v.len() as int) =~= v);
    let r = restore_nets(Some(e3), v)->Some_0;
    assert forall|o: AccountId| #[trigger] state_of(r.book.accounts, o) == state_of(em.book.accounts, o) by {
        lemma_listed_net(v, o);
        if o != 0 {
            assert(state_of(e2.book.accounts, o).open_on(Side::Sell) == sum_by(asks.take(asks.len() as int), owner_vol_fn(o)));
            assert(state_of(e2.book.accounts, o).open_on(Side::Sell.opposite()) == state_of(e1.book.accounts, o).open_on(
                Side::Sell.opposite(),
            ));
            assert(state_of(e1.book.accounts, o).open_on(Side::Buy) == sum_by(bids.take(bids.len() as int), owner_vol_fn(o)));
            assert(state_of(em.book.accounts, o).open_buy == sum_by(em.book.bids, owner_vol_fn(o)));
            assert(state_of(em.book.accounts, o).open_sell == sum_by(em.book.asks, owner_vol_fn(o)));
            if exists|i: int| 0 <= i < v.len() && v[i].0 == o {
                let i = choose|i: int| 0 <= i < v.len() && v[i].0 == o;
                assert(em.book.accounts.contains_key(v[i].0));
            } else {
                assert(forall|i: int| 0 <= i < v.len() ==> (#[trigger] v[i]).0 != o);
                if em.book.accounts.contains_key(o) && em.book.accounts[o].net != 0 {
                    assert(exists|i: int| 0 <= i < v.len() && v[i].0 == o);
                }
            }
        }
    }
}

} // verus!

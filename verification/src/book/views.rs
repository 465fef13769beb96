use vstd::prelude::*;

use crate::book::model::{
    book_inv, better_eq, contains_spec, crosses, crossing_fn, get_spec, has_id, index_of_id,
    level_fn, levels_of, locate, orders_at, reserve_spec, sorted, sum_by, BookEntry, BookModel,
};
use crate::marketdata::{has_price, lemma_get_entry, lemma_levels_match_orders};
use crate::types::{OrderId, Price, Qty, Side};

verus! {

/// Some order of `s` rests at `p` exactly when the queue of `p` is not empty.
pub proof fn lemma_orders_at_nonempty(s: Seq<BookEntry>, p: Price)
    ensures
        (orders_at(s, p).len() > 0) == has_price(s, p),
    decreases s.len(),
{
    if s.len() > 0 {
        let init = s.drop_last();
        lemma_orders_at_nonempty(init, p);
        if has_price(s, p) && s.last().order.price != p {
            let j = choose|j: int| 0 <= j < s.len() && s[j].order.price == p;
            assert(init[j] == s[j]);
        }
        if has_price(init, p) {
            let j = choose|j: int| 0 <= j < init.len() && init[j].order.price == p;
            assert(s[j] == init[j]);
        }
        if s.last().order.price == p {
            assert(s[s.len() - 1].order.price == p);
        }
    }
}

/// The first level of a queue is the price of its first order.
proof fn lemma_first_level(s: Seq<BookEntry>)
    ensures
        (levels_of(s).len() > 0) == (s.len() > 0),
        s.len() > 0 ==> levels_of(s)[0].0 == s[0].order.price,
    decreases s.len(),
{
    if s.len() > 0 {
        let init = s.drop_last();
        lemma_first_level(init);
        if init.len() > 0 {
            assert(init[0] == s[0]);
        }
    }
}

/// Level law: the quantity `level_qty` reports at a price is the quantity the depth view
/// shows for that price, and zero where no order rests; only visible peaks count.
pub proof fn lemma_level_qty_depth(b: BookModel, side: Side, p: Price)
    requires
        book_inv(b),
    ensures
        !has_price(b.side(side), p) ==> sum_by(b.side(side), level_fn(p)) == 0,
        has_price(b.side(side), p) <==> exists|k: int|
            0 <= k < levels_of(b.side(side)).len() && (#[trigger] levels_of(b.side(side))[k]).0 == p,
        forall|k: int|
            0 <= k < levels_of(b.side(side)).len() && (#[trigger] levels_of(b.side(side))[k]).0 == p ==> levels_of(
                b.side(side),
            )[k].1 == sum_by(b.side(side), level_fn(p)),
{
    let s = b.side(side);
    assert(sorted(s, side)) by {
        match side {
            Side::Buy => {},
            Side::Sell => {},
        }
    }
    lemma_levels_match_orders(s, side);
    if !has_price(s, p) {
        assert forall|i: int| 0 <= i < s.len() implies level_fn(p)(#[trigger] s[i]) == 0 by {
            assert(!(s[i].order.price == p));
        }
        crate::book::model::lemma_sum_zero(s, level_fn(p));
    }
}

/// Best-price law: the best price of a side is the price of its first depth level, the
/// best price at which an order rests, and `None` exactly when the side is empty.
pub proof fn lemma_best_price(b: BookModel, side: Side)
    requires
        book_inv(b),
    ensures
        crate::book::model::best_spec(b, side) == (if levels_of(b.side(side)).len() == 0 {
            None
        } else {
            Some(levels_of(b.side(side))[0].0)
        }),
        crate::book::model::best_spec(b, side) matches Some(x) ==> orders_at(b.side(side), x).len() > 0
            && forall|p: Price| #[trigger] orders_at(b.side(side), p).len() > 0 ==> better_eq(side, x, p),
        crate::book::model::best_spec(b, side) is None ==> forall|p: Price| #[trigger] orders_at(b.side(side), p).len() == 0,
{
    let s = b.side(side);
    assert(sorted(s, side)) by {
        match side {
            Side::Buy => {},
            Side::Sell => {},
        }
    }
    lemma_first_level(s);
    if s.len() > 0 {
        let x = s[0].order.price;
        lemma_orders_at_nonempty(s, x);
        assert(has_price(s, x));
        assert forall|p: Price| #[trigger] orders_at(s, p).len() > 0 implies better_eq(side, x, p) by {
            lemma_orders_at_nonempty(s, p);
            let j = choose|j: int| 0 <= j < s.len() && s[j].order.price == p;
            if j > 0 {
                assert(better_eq(side, s[0].order.price, s[j].order.price));
            }
        }
    } else {
        assert forall|p: Price| #[trigger] orders_at(s, p).len() == 0 by {
            lemma_orders_at_nonempty(s, p);
        }
    }
}

/// The visible quantity of the levels of `levels` that a taker on `taker_side` with limit
/// `limit` can reach.
pub open spec fn crossing_levels(levels: Seq<(Price, nat)>, taker_side: Side, limit: Option<Price>) -> nat
    decreases levels.len(),
{
    if levels.len() == 0 {
        0
    } else {
        crossing_levels(levels.drop_last(), taker_side, limit) + (if crosses(taker_side, limit, levels.last().0) {
            levels.last().1
        } else {
            0nat
        })
    }
}

/// Liquidity law: what `available_qty` reports is the sum, over the depth levels of the
/// opposite side that the limit reaches, of their visible quantity; hidden reserves never count.
pub proof fn lemma_available_by_level(s: Seq<BookEntry>, taker_side: Side, limit: Option<Price>)
    ensures
        sum_by(s, crossing_fn(taker_side, limit)) == crossing_levels(levels_of(s), taker_side, limit),
    decreases s.len(),
{
    if s.len() > 0 {
        let init = s.drop_last();
        lemma_available_by_level(init, taker_side, limit);
        let l0 = levels_of(init);
        let e = s.last();
        if l0.len() > 0 && l0.last().0 == e.order.price {
            let l = l0.update(l0.len() - 1, (e.order.price, l0.last().1 + e.order.qty as nat));
            assert(l.drop_last() =~= l0.drop_last());
        } else {
            assert(l0.push((e.order.price, e.order.qty as nat)).drop_last() =~= l0);
        }
    }
}

/// The total quantity of a list of `(id, qty)`.
pub open spec fn qty_total(l: Seq<(OrderId, Qty)>) -> nat
    decreases l.len(),
{
    if l.len() == 0 {
        0
    } else {
        qty_total(l.drop_last()) + l.last().1 as nat
    }
}

/// Every order of the queue at `p` is an entry of `s` at `p`; the ids differ and the
/// quantities add up to the level's quantity.
proof fn lemma_orders_at_entries(s: Seq<BookEntry>, p: Price)
    requires
        crate::book::model::ids_distinct(s),
    ensures
        forall|j: int|
            0 <= j < orders_at(s, p).len() ==> exists|i: int|
                0 <= i < s.len() && s[i].order.price == p && s[i].order.id == (#[trigger] orders_at(s, p)[j]).0
                    && s[i].order.qty == orders_at(s, p)[j].1,
        forall|j1: int, j2: int|
            0 <= j1 < j2 < orders_at(s, p).len() ==> (#[trigger] orders_at(s, p)[j1]).0 != (#[trigger] orders_at(
                s,
                p,
            )[j2]).0,
        qty_total(orders_at(s, p)) == sum_by(s, level_fn(p)),
    decreases s.len(),
{
    if s.len() > 0 {
        let init = s.drop_last();
        let e = s.last();
        assert forall|i: int, j: int| 0 <= i < j < init.len() implies (#[trigger] init[i]).order.id != (#[trigger] init[j]).order.id by {
            assert(init[i] == s[i] && init[j] == s[j]);
        }
        lemma_orders_at_entries(init, p);
        let l0 = orders_at(init, p);
        let l = orders_at(s, p);
        assert forall|j: int| 0 <= j < l0.len() implies exists|i: int|
            0 <= i < s.len() && s[i].order.price == p && s[i].order.id == (#[trigger] l0[j]).0 && s[i].order.qty == l0[j].1 by {
            let i = choose|i: int| 0 <= i < init.len() && init[i].order.price == p && init[i].order.id == l0[j].0 && init[i].order.qty == l0[j].1;
            assert(s[i] == init[i]);
        }
        if e.order.price == p {
            assert(l == l0.push((e.order.id, e.order.qty)));
            assert(l.drop_last() =~= l0);
            assert forall|j: int| 0 <= j < l.len() implies exists|i: int|
                0 <= i < s.len() && s[i].order.price == p && s[i].order.id == (#[trigger] l[j]).0 && s[i].order.qty == l[j].1 by {
                if j < l0.len() {
                    assert(l[j] == l0[j]);
                } else {
                    assert(s[s.len() - 1] == e);
                }
            }
            assert forall|j1: int, j2: int| 0 <= j1 < j2 < l.len() implies (#[trigger] l[j1]).0 != (#[trigger] l[j2]).0 by {
                if j2 < l0.len() {
                    assert(l[j1] == l0[j1] && l[j2] == l0[j2]);
                } else {
                    assert(l[j1] == l0[j1]);
                    let i = choose|i: int| 0 <= i < init.len() && init[i].order.price == p && init[i].order.id == l0[j1].0 && init[i].order.qty == l0[j1].1;
                    assert(s[i].order.id != s[s.len() - 1].order.id);
                }
            }
        } else {
            assert(l == l0);
        }
    }
}

/// An entry of `s` at `p` is listed in the queue of `p`.
proof fn lemma_entry_in_orders_at(s: Seq<BookEntry>, i: int)
    requires
        0 <= i < s.len(),
    ensures
        orders_at(s, s[i].order.price).contains((s[i].order.id, s[i].order.qty)),
    decreases s.len(),
{
    let p = s[i].order.price;
    let x = (s[i].order.id, s[i].order.qty);
    let init = s.drop_last();
    if i == s.len() - 1 {
        let l = orders_at(s, p);
        assert(l[l.len() - 1] == x);
    } else {
        assert(init[i] == s[i]);
        lemma_entry_in_orders_at(init, i);
        let l0 = orders_at(init, p);
        let j = choose|j: int| 0 <= j < l0.len() && l0[j] == x;
        if s.last().order.price == p {
            assert(orders_at(s, p)[j] == x);
        }
    }
}

/// Queue law: `level_orders` lists, in queue order, the orders resting at a price with their
/// visible quantities: each one `get` finds there, no id twice, their quantities adding up
/// to `level_qty`, and the list is empty exactly when no order rests at that price.
pub proof fn lemma_level_orders(b: BookModel, side: Side, p: Price)
    requires
        book_inv(b),
    ensures
        forall|j: int|
            0 <= j < orders_at(b.side(side), p).len() ==> (get_spec(b, (#[trigger] orders_at(b.side(side), p)[j]).0)
                matches Some((sd, o)) && sd == side && o.id == orders_at(b.side(side), p)[j].0 && o.price == p
                && o.qty == orders_at(b.side(side), p)[j].1),
        forall|j1: int, j2: int|
            0 <= j1 < j2 < orders_at(b.side(side), p).len() ==> (#[trigger] orders_at(b.side(side), p)[j1]).0
                != (#[trigger] orders_at(b.side(side), p)[j2]).0,
        qty_total(orders_at(b.side(side), p)) == sum_by(b.side(side), level_fn(p)),
        (orders_at(b.side(side), p).len() == 0) == !has_price(b.side(side), p),
{
    let s = b.side(side);
    assert(crate::book::model::ids_distinct(s)) by {
        match side {
            Side::Buy => {},
            Side::Sell => {},
        }
    }
    lemma_orders_at_entries(s, p);
    lemma_orders_at_nonempty(s, p);
    assert forall|j: int| 0 <= j < orders_at(s, p).len() implies (get_spec(b, (#[trigger] orders_at(s, p)[j]).0)
        matches Some((sd, o)) && sd == side && o.id == orders_at(s, p)[j].0 && o.price == p && o.qty == orders_at(s, p)[j].1) by {
        let i = choose|i: int|
            0 <= i < s.len() && s[i].order.price == p && s[i].order.id == orders_at(s, p)[j].0 && s[i].order.qty == orders_at(s, p)[j].1;
        lemma_get_entry(b, side, i);
    }
}

/// Lookup law: an order `get` finds is listed by `level_orders` at its side and price with its
/// visible quantity, and `contains` agrees with `get`.
pub proof fn lemma_get_in_level(b: BookModel, id: OrderId)
    requires
        book_inv(b),
    ensures
        contains_spec(b, id) == (get_spec(b, id) is Some),
        get_spec(b, id) matches Some((side, o)) ==> o.id == id && orders_at(b.side(side), o.price).contains(
            (id, o.qty),
        ),
{
    match locate(b, id) {
        Some((side, i)) => {
            let s = b.side(side);
            assert(has_id(s, id)) by {
                match side {
                    Side::Buy => {},
                    Side::Sell => {
                        assert(!has_id(b.bids, id));
                    },
                }
            }
            assert(0 <= i < s.len() && s[i].order.id == id);
            lemma_entry_in_orders_at(s, i);
        },
        None => {},
    }
}

/// Reserve law: a reserve belongs to a resting order, shows a positive peak and keeps a
/// non-empty hidden part.
pub proof fn lemma_reserve_rests(b: BookModel, id: OrderId)
    requires
        book_inv(b),
    ensures
        reserve_spec(b, id) matches Some((d, h)) ==> contains_spec(b, id) && d > 0 && h > 0,
{
    match locate(b, id) {
        Some((side, i)) => {
            let s = b.side(side);
            match side {
                Side::Buy => {},
                Side::Sell => {
                    assert(!has_id(b.bids, id));
                },
            }
            assert(0 <= i < s.len());
        },
        None => {},
    }
}

/// The ids of a queue.
pub open spec fn ids_of(s: Seq<BookEntry>) -> Seq<OrderId> {
    s.map_values(|e: BookEntry| e.order.id)
}

/// Count law: the orders `contains` finds are as many as `len` counts, each once however
/// large its hidden reserve.
pub proof fn lemma_len_counts(b: BookModel)
    requires
        book_inv(b),
    ensures
        Set::new(|id: OrderId| contains_spec(b, id)) == ids_of(b.bids).to_set() + ids_of(b.asks).to_set(),
        Set::new(|id: OrderId| contains_spec(b, id)).finite(),
        Set::new(|id: OrderId| contains_spec(b, id)).len() == b.bids.len() + b.asks.len(),
{
    let bi = ids_of(b.bids);
    let ai = ids_of(b.asks);
    assert forall|id: OrderId| #[trigger] contains_spec(b, id) == (bi.to_set() + ai.to_set()).contains(id) by {
        if has_id(b.bids, id) {
            let i = choose|i: int| 0 <= i < b.bids.len() && b.bids[i].order.id == id;
            assert(bi[i] == id);
        }
        if has_id(b.asks, id) {
            let i = choose|i: int| 0 <= i < b.asks.len() && b.asks[i].order.id == id;
            assert(ai[i] == id);
        }
        if bi.contains(id) {
            let i = choose|i: int| 0 <= i < bi.len() && bi[i] == id;
            assert(b.bids[i].order.id == id);
        }
        if ai.contains(id) {
            let i = choose|i: int| 0 <= i < ai.len() && ai[i] == id;
            assert(b.asks[i].order.id == id);
        }
    }
    assert(Set::new(|id: OrderId| contains_spec(b, id)) =~= bi.to_set() + ai.to_set());
    assert(bi.no_duplicates()) by {
        assert forall|i: int, j: int| 0 <= i < bi.len() && 0 <= j < bi.len() && i != j implies bi[i] != bi[j] by {
            if i < j {
                assert(b.bids[i].order.id != b.bids[j].order.id);
            } else {
                assert(b.bids[j].order.id != b.bids[i].order.id);
            }
        }
    }
    assert(ai.no_duplicates()) by {
        assert forall|i: int, j: int| 0 <= i < ai.len() && 0 <= j < ai.len() && i != j implies ai[i] != ai[j] by {
            if i < j {
                assert(b.asks[i].order.id != b.asks[j].order.id);
            } else {
                assert(b.asks[j].order.id != b.asks[i].order.id);
            }
        }
    }
    bi.unique_seq_to_set();
    ai.unique_seq_to_set();
    vstd::seq_lib::seq_to_set_is_finite(bi);
    vstd::seq_lib::seq_to_set_is_finite(ai);
    assert(bi.to_set().disjoint(ai.to_set())) by {
        assert forall|id: OrderId| !(bi.to_set().contains(id) && ai.to_set().contains(id)) by {
            if bi.contains(id) && ai.contains(id) {
                let i = choose|i: int| 0 <= i < bi.len() && bi[i] == id;
                let j = choose|j: int| 0 <= j < ai.len() && ai[j] == id;
                assert(b.bids[i].order.id != b.asks[j].order.id);
            }
        }
    }
    vstd::set_lib::lemma_set_disjoint_lens(bi.to_set(), ai.to_set());
}

} // verus!

use vstd::prelude::*;

pub mod accounts;
pub mod matching;
pub mod model;
pub mod views;

use std::collections::{HashMap, VecDeque};

use crate::marketdata::loc_of;
use crate::mirror::{lemma_insert_at, lemma_loc_remove, lemma_same_shape, same_shape};
use crate::types::{AccountId, OrderId, Price, Qty, Side};
use accounts::{state_of, AccountBook, AccountState};
use model::{
    add_reserve_spec, best_spec, entries_of, hidden_of, lemma_levels_bound, lemma_remove_keeps,
    lemma_sum_elem, lemma_sum_le, lemma_sum_take, lemma_sum_update, lemma_update_keeps, level_fn,
    levels_of, orders_at, reduce_spec, reserve_spec, visible_fn, would_cross_spec, crossing_fn,
    book_inv, book_volume, cancel_spec, contains_spec, get_spec, has_id, ids_disjoint,
    ids_distinct, index_of_id, insert_pos, insert_spec, lemma_accounts_shift, lemma_index_of_id,
    lemma_insert_pos, lemma_owner_vol_le, lemma_side_insert_sorted, lemma_sum_insert,
    lemma_sum_remove, locate, owner_vol_fn, reserves_ok, side_insert, sorted, sum_by, vol, vol_fn,
    BookEntry, BookModel, RestingOrder,
};

pub use model::{Fill, better_eq, crosses};

verus! {

broadcast use vstd::std_specs::hash::group_hash_axioms;

/// The outcome of running a taker against the book.
#[derive(Clone, Debug, PartialEq, Eq)]
pub struct MatchOutcome {
    pub remaining: Qty,
    pub taker_canceled: bool,
    pub self_canceled: Vec<OrderId>,
}

/// A price-time priority order book: one queue per side in priority order, iceberg
/// reserves kept with their orders, an index from order id to side and price, and
/// per-account aggregates.
#[derive(Debug)]
pub struct OrderBook {
    bids: VecDeque<BookEntry>,
    asks: VecDeque<BookEntry>,
    index: HashMap<OrderId, (Side, Price)>,
    accounts: AccountBook,
}

fn better_eq_exec(side: Side, a: Price, b: Price) -> (r: bool)
    ensures
        r == better_eq(side, a, b),
{
    match side {
        Side::Buy => a >= b,
        Side::Sell => a <= b,
    }
}

pub(crate) fn crosses_exec(taker_side: Side, limit: Option<Price>, price: Price) -> (r: bool)
    ensures
        r == crosses(taker_side, limit, price),
{
    match limit {
        None => true,
        Some(l) => match taker_side {
            Side::Buy => l >= price,
            Side::Sell => l <= price,
        },
    }
}

proof fn lemma_open_bound(m: BookModel, owner: AccountId, side: Side)
    requires
        book_inv(m),
    ensures
        state_of(m.accounts, owner).open_on(side) <= sum_by(m.side(side), vol_fn()),
{
    lemma_owner_vol_le(m.side(side), owner);
    if owner != 0 {
        assert(sum_by(m.bids, owner_vol_fn(owner)) == state_of(m.accounts, owner).open_buy);
        assert(sum_by(m.asks, owner_vol_fn(owner)) == state_of(m.accounts, owner).open_sell);
    }
}

impl OrderBook {
    pub closed spec fn view(&self) -> BookModel {
        BookModel { bids: self.bids@, asks: self.asks@, accounts: self.accounts@ }
    }

    pub closed spec fn wf(&self) -> bool {
        &&& self.accounts.wf()
        &&& book_inv(self@)
        &&& self.index@ == loc_of(self@)
    }

    /// A well-formed book satisfies the book invariant.
    pub proof fn lemma_wf(&self)
        requires
            self.wf(),
        ensures
            book_inv(self@),
    {
    }

    pub fn new() -> (r: Self)
        ensures
            r.wf(),
            r@.bids.len() == 0,
            r@.asks.len() == 0,
            r@.accounts == Map::<AccountId, AccountState>::empty(),
    {
        let r = OrderBook { bids: VecDeque::new(), asks: VecDeque::new(), index: HashMap::new(), accounts: AccountBook::new() };
        proof {
            assert(loc_of(r@) =~= Map::<OrderId, (Side, Price)>::empty());
            r.accounts.lemma_no_zero();
            assert forall|o: AccountId| o != 0 implies state_of(r@.accounts, o).open_buy == #[trigger] sum_by(
                r@.bids,
                owner_vol_fn(o),
            ) by {}
            assert forall|o: AccountId| o != 0 implies state_of(r@.accounts, o).open_sell == #[trigger] sum_by(
                r@.asks,
                owner_vol_fn(o),
            ) by {}
        }
        r
    }

    fn queue(&self, side: Side) -> (r: &VecDeque<BookEntry>)
        ensures
            r@ == self@.side(side),
    {
        match side {
            Side::Buy => &self.bids,
            Side::Sell => &self.asks,
        }
    }

    /// Where an entry with price `p` joins the queue of `side`: a binary search for the end
    /// of the entries priced at least as well.
    fn insert_position(&self, side: Side, p: Price) -> (r: usize)
        requires
            sorted(self@.side(side), side),
        ensures
            r == insert_pos(self@.side(side), side, p),
            r <= self@.side(side).len(),
    {
        let q = self.queue(side);
        let mut lo: usize = 0;
        let mut hi: usize = q.len();
        while lo < hi
            invariant
                q@ == self@.side(side),
                sorted(q@, side),
                lo <= hi <= q@.len(),
                forall|j: int| 0 <= j < lo ==> better_eq(side, (#[trigger] q@[j]).order.price, p),
                forall|j: int| hi <= j < q@.len() ==> !better_eq(side, (#[trigger] q@[j]).order.price, p),
            decreases hi - lo,
        {
            let mid = lo + (hi - lo) / 2;
            if better_eq_exec(side, q[mid].order.price, p) {
                proof {
                    assert forall|j: int| 0 <= j < mid + 1 implies better_eq(side, (#[trigger] q@[j]).order.price, p) by {
                        if j < mid {
                            assert(better_eq(side, q@[j].order.price, q@[mid as int].order.price));
                        }
                    }
                }
                lo = mid + 1;
            } else {
                proof {
                    assert forall|j: int| mid <= j < q@.len() implies !better_eq(side, (#[trigger] q@[j]).order.price, p) by {
                        if j > mid {
                            assert(better_eq(side, q@[mid as int].order.price, q@[j].order.price));
                        }
                    }
                }
                hi = mid;
            }
        }
        proof {
            lemma_insert_pos(q@, side, p);
            let k = insert_pos(q@, side, p);
            if (lo as int) < k {
                assert(better_eq(side, q@[lo as int].order.price, p));
            } else if (lo as int) > k {
                assert(better_eq(side, q@[k].order.price, p));
            }
        }
        lo
    }

    /// Where the level at `p` starts in the queue of `side`: a binary search for the end of
    /// the entries priced strictly better.
    fn level_start(&self, side: Side, p: Price) -> (r: usize)
        requires
            sorted(self@.side(side), side),
        ensures
            r <= self@.side(side).len(),
            forall|j: int| 0 <= j < r ==> !better_eq(side, p, (#[trigger] self@.side(side)[j]).order.price),
            forall|j: int| r <= j < self@.side(side).len() ==> better_eq(side, p, (#[trigger] self@.side(side)[j]).order.price),
    {
        let q = self.queue(side);
        let mut lo: usize = 0;
        let mut hi: usize = q.len();
        while lo < hi
            invariant
                q@ == self@.side(side),
                sorted(q@, side),
                lo <= hi <= q@.len(),
                forall|j: int| 0 <= j < lo ==> !better_eq(side, p, (#[trigger] q@[j]).order.price),
                forall|j: int| hi <= j < q@.len() ==> better_eq(side, p, (#[trigger] q@[j]).order.price),
            decreases hi - lo,
        {
            let mid = lo + (hi - lo) / 2;
            if better_eq_exec(side, p, q[mid].order.price) {
                proof {
                    assert forall|j: int| mid <= j < q@.len() implies better_eq(side, p, (#[trigger] q@[j]).order.price) by {
                        if j > mid {
                            assert(better_eq(side, q@[mid as int].order.price, q@[j].order.price));
                        }
                    }
                }
                hi = mid;
            } else {
                proof {
                    assert forall|j: int| 0 <= j < mid + 1 implies !better_eq(side, p, (#[trigger] q@[j]).order.price) by {
                        if j < mid {
                            assert(better_eq(side, q@[j].order.price, q@[mid as int].order.price));
                        }
                    }
                }
                lo = mid + 1;
            }
        }
        lo
    }

    /// Finds the side and queue position of order `id`: the index gives its side and price,
    /// and the search starts at that price level.
    fn find(&self, id: OrderId) -> (r: Option<(Side, usize)>)
        requires
            self.wf(),
        ensures
            match r {
                Some((side, i)) => locate(self@, id) == Some((side, i as int)) && i
                    < self@.side(side).len(),
                None => locate(self@, id) is None,
            },
    {
        match self.index.get(&id) {
            None => {
                proof {
                    assert(!contains_spec(self@, id));
                }
                None
            },
            Some(loc) => {
                let (side, price) = *loc;
                let ghost m = self@;
                proof {
                    assert(contains_spec(m, id));
                    assert(sorted(m.side(side), side)) by {
                        match side {
                            Side::Buy => {},
                            Side::Sell => {},
                        }
                    }
                }
                let q = self.queue(side);
                let ghost at = locate(m, id).unwrap().1;
                proof {
                    if has_id(m.bids, id) {
                        assert(side == Side::Buy);
                    } else {
                        assert(side == Side::Sell);
                    }
                    assert(0 <= at < q@.len() && q@[at].order.id == id && q@[at].order.price == price);
                }
                let start = self.level_start(side, price);
                proof {
                    if at < start {
                        assert(!better_eq(side, price, q@[at].order.price));
                    }
                }
                let mut k: usize = start;
                while k < q.len() && q[k].order.id != id
                    invariant
                        q@ == m.side(side),
                        start <= k <= q@.len(),
                        0 <= at < q@.len(),
                        q@[at].order.id == id,
                        forall|j: int| start <= j < k ==> (#[trigger] q@[j]).order.id != id,
                        start <= at,
                    decreases q@.len() - k,
                {
                    k = k + 1;
                }
                proof {
                    if k >= q.len() {
                        assert(q@[at].order.id != id);
                    }
                    assert(ids_distinct(q@)) by {
                        match side {
                            Side::Buy => {},
                            Side::Sell => {},
                        }
                    }
                    lemma_index_of_id(q@, k as int);
                }
                Some((side, k))
            },
        }
    }

    /// Rests `order` at the back of its price level on `side`.
    pub fn insert(&mut self, side: Side, order: RestingOrder)
        requires
            old(self).wf(),
            !contains_spec(old(self)@, order.id),
            book_volume(old(self)@) + order.qty <= u64::MAX,
        ensures
            final(self).wf(),
            final(self)@ == insert_spec(old(self)@, side, order),
    {
        let ghost m = self@;
        let pos = self.insert_position(side, order.price);
        let entry = BookEntry { order, reserve: None };
        proof {
            lemma_open_bound(m, order.owner, side);
            self.accounts.lemma_no_zero();
            lemma_sum_insert(m.side(side), pos as int, entry, vol_fn());
        }
        match side {
            Side::Buy => self.bids.insert(pos, entry),
            Side::Sell => self.asks.insert(pos, entry),
        }
        self.accounts.add_open(order.owner, side, order.qty);
        self.index.insert(order.id, (side, order.price));
        proof {
            let m2 = self@;
            let s = m.side(side);
            let s2 = m2.side(side);
            assert(s2 == side_insert(s, side, entry));
            lemma_side_insert_sorted(s, side, entry);
            lemma_insert_pos(s, side, order.price);
            assert(!has_id(m.bids, order.id) && !has_id(m.asks, order.id));
            assert(ids_distinct(s2)) by {
                assert forall|a: int, b: int| 0 <= a < b < s2.len() implies (#[trigger] s2[a]).order.id
                    != (#[trigger] s2[b]).order.id by {
                    if a == pos as int {
                        assert(s[b - 1].order.id != order.id);
                    } else if b == pos as int {
                        assert(s[a].order.id != order.id);
                    } else {
                        let a0 = if a < pos as int { a } else { a - 1 };
                        let b0 = if b < pos as int { b } else { b - 1 };
                        assert(s2[a] == s[a0] && s2[b] == s[b0]);
                    }
                }
            }
            let o_side = m.side(side.opposite());
            assert(ids_disjoint(m2.bids, m2.asks)) by {
                assert forall|a: int, b: int| 0 <= a < s2.len() && 0 <= b < o_side.len() implies (#[trigger] s2[a]).order.id
                    != (#[trigger] o_side[b]).order.id by {
                    if a != pos as int {
                        let a0 = if a < pos as int { a } else { a - 1 };
                        assert(s2[a] == s[a0]);
                    } else {
                        assert(o_side[b].order.id != order.id);
                    }
                }
            }
            assert(reserves_ok(s2)) by {
                assert forall|a: int| 0 <= a < s2.len() implies match (#[trigger] s2[a]).reserve {
                    Some((d, h)) => d > 0 && h > 0,
                    None => true,
                } by {
                    if a != pos as int {
                        let a0 = if a < pos as int { a } else { a - 1 };
                        assert(s2[a] == s[a0]);
                    }
                }
            }
            assert forall|o: AccountId| o != 0 && o != order.owner implies #[trigger] sum_by(
                s2,
                owner_vol_fn(o),
            ) == sum_by(s, owner_vol_fn(o)) by {
                lemma_sum_insert(s, pos as int, entry, owner_vol_fn(o));
            }
            lemma_sum_insert(s, pos as int, entry, owner_vol_fn(order.owner));
            self.accounts.lemma_no_zero();
            lemma_accounts_shift(m, m2, side, order.owner, order.qty as nat, 0);
            assert(m2.side(side.opposite()) == m.side(side.opposite())) by {
                match side {
                    Side::Buy => {},
                    Side::Sell => {},
                }
            }
            lemma_insert_at(m, m2, side, pos as int, entry);
        }
    }

    /// Removes order `order_id` with its reserve; `None` when it does not rest here.
    pub fn cancel(&mut self, order_id: OrderId) -> (r: Option<RestingOrder>)
        requires
            old(self).wf(),
        ensures
            final(self).wf(),
            (final(self)@, r) == cancel_spec(old(self)@, order_id),
    {
        let ghost m = self@;
        match self.find(order_id) {
            None => None,
            Some((side, i)) => {
                let e = self.queue(side)[i];
                let hidden = match e.reserve {
                    Some((_, h)) => h,
                    None => 0,
                };
                proof {
                    lemma_sum_elem(m.side(side), i as int, vol_fn());
                }
                let total = e.order.qty + hidden;
                match side {
                    Side::Buy => {
                        self.bids.remove(i);
                    },
                    Side::Sell => {
                        self.asks.remove(i);
                    },
                }
                self.accounts.sub_open(e.order.owner, side, total);
                self.index.remove(&order_id);
                proof {
                    self.lemma_after_remove(m, side, i as int);
                    assert(m.side(side)[i as int].order.id == order_id) by {
                        if has_id(m.bids, order_id) {
                            assert(side == Side::Buy);
                        } else {
                            assert(side == Side::Sell);
                        }
                    }
                    assert(self@.side(side.opposite()) == m.side(side.opposite())) by {
                        match side {
                            Side::Buy => {},
                            Side::Sell => {},
                        }
                    }
                    lemma_loc_remove(m, self@, side, i as int);
                }
                Some(e.order)
            },
        }
    }

    proof fn lemma_after_remove(&self, m: BookModel, side: Side, i: int)
        requires
            book_inv(m),
            self.accounts.wf(),
            0 <= i < m.side(side).len(),
            self@ == m.with_side(side, m.side(side).remove(i)).with_accounts(
                accounts::sub_open_spec(m.accounts, m.side(side)[i].order.owner, side, vol(m.side(side)[i]) as u64),
            ),
        ensures
            self.accounts.wf(),
            book_inv(self@),
    {
        let s = m.side(side);
        let e = s[i];
        let s2 = s.remove(i);
        let m2 = self@;
        lemma_remove_keeps(s, side, i);
        lemma_sum_remove(s, i, vol_fn());
        lemma_sum_elem(s, i, vol_fn());
        let o_side = m.side(side.opposite());
        assert(ids_disjoint(m2.bids, m2.asks)) by {
            assert forall|a: int, b: int| 0 <= a < s2.len() && 0 <= b < o_side.len() implies (#[trigger] s2[a]).order.id
                != (#[trigger] o_side[b]).order.id by {
                let a0 = if a < i { a } else { a + 1 };
                assert(s2[a] == s[a0]);
            }
        }
        assert forall|o: AccountId| o != 0 && o != e.order.owner implies #[trigger] sum_by(
            s2,
            owner_vol_fn(o),
        ) == sum_by(s, owner_vol_fn(o)) by {
            lemma_sum_remove(s, i, owner_vol_fn(o));
        }
        lemma_sum_remove(s, i, owner_vol_fn(e.order.owner));
        self.accounts.lemma_no_zero();
        if e.order.owner != 0 {
            assert(state_of(m.accounts, e.order.owner).open_on(side) == sum_by(s, owner_vol_fn(e.order.owner)));
            lemma_sum_elem(s, i, owner_vol_fn(e.order.owner));
        }
        lemma_accounts_shift(m, m2, side, e.order.owner, 0, vol(e));
    }

    /// Shrinks order `order_id` in place to `new_qty`, keeping its priority; `None` (and no
    /// change) when the order is unknown or `new_qty` is not below its quantity.
    pub fn reduce(&mut self, order_id: OrderId, new_qty: Qty) -> (r: Option<RestingOrder>)
        requires
            old(self).wf(),
        ensures
            final(self).wf(),
            (final(self)@, r) == reduce_spec(old(self)@, order_id, new_qty),
    {
        let ghost m = self@;
        match self.find(order_id) {
            None => None,
            Some((side, i)) => {
                let e = self.queue(side)[i];
                if new_qty >= e.order.qty {
                    return None;
                }
                let delta = e.order.qty - new_qty;
                let updated = RestingOrder { qty: new_qty, ..e.order };
                let e2 = BookEntry { order: updated, ..e };
                match side {
                    Side::Buy => {
                        self.bids.remove(i);
                        self.bids.insert(i, e2);
                    },
                    Side::Sell => {
                        self.asks.remove(i);
                        self.asks.insert(i, e2);
                    },
                }
                proof {
                    assert(m.side(side).remove(i as int).insert(i as int, e2) =~= m.side(side).update(i as int, e2));
                }
                self.accounts.sub_open(e.order.owner, side, delta);
                proof {
                    let s = m.side(side);
                    let s2 = s.update(i as int, e2);
                    let m2 = self@;
                    lemma_update_keeps(s, side, i as int, e2);
                    lemma_sum_update(s, i as int, e2, vol_fn());
                    let o_side = m.side(side.opposite());
                    assert(ids_disjoint(m2.bids, m2.asks)) by {
                        assert forall|a: int, b: int| 0 <= a < s2.len() && 0 <= b < o_side.len() implies (#[trigger] s2[a]).order.id
                            != (#[trigger] o_side[b]).order.id by {
                            assert(s[a].order.id != o_side[b].order.id);
                        }
                    }
                    assert forall|o: AccountId| o != 0 && o != e.order.owner implies #[trigger] sum_by(
                        s2,
                        owner_vol_fn(o),
                    ) == sum_by(s, owner_vol_fn(o)) by {
                        lemma_sum_update(s, i as int, e2, owner_vol_fn(o));
                    }
                    lemma_sum_update(s, i as int, e2, owner_vol_fn(e.order.owner));
                    self.accounts.lemma_no_zero();
                    if e.order.owner != 0 {
                        assert(state_of(m.accounts, e.order.owner).open_on(side) == sum_by(s, owner_vol_fn(e.order.owner)));
                        lemma_sum_elem(s, i as int, owner_vol_fn(e.order.owner));
                    }
                    lemma_accounts_shift(m, m2, side, e.order.owner, 0, delta as nat);
                    assert(same_shape(m, m2)) by {
                        match side {
                            Side::Buy => {},
                            Side::Sell => {},
                        }
                    }
                    lemma_same_shape(m, m2);
                }
                Some(updated)
            },
        }
    }

    /// Gives resting order `order_id` a hidden reserve of `hidden` shown `display` at a time.
    pub fn add_reserve(&mut self, order_id: OrderId, display: Qty, hidden: Qty)
        requires
            old(self).wf(),
            locate(old(self)@, order_id) is Some,
            reserve_spec(old(self)@, order_id) is None,
            display > 0,
            hidden > 0,
            book_volume(old(self)@) + hidden <= u64::MAX,
        ensures
            final(self).wf(),
            final(self)@ == add_reserve_spec(old(self)@, order_id, display, hidden),
    {
        let ghost m = self@;
        match self.find(order_id) {
            None => {},
            Some((side, i)) => {
                let e = self.queue(side)[i];
                let e2 = BookEntry { reserve: Some((display, hidden)), ..e };
                match side {
                    Side::Buy => {
                        self.bids.remove(i);
                        self.bids.insert(i, e2);
                    },
                    Side::Sell => {
                        self.asks.remove(i);
                        self.asks.insert(i, e2);
                    },
                }
                proof {
                    assert(m.side(side).remove(i as int).insert(i as int, e2) =~= m.side(side).update(i as int, e2));
                }
                proof {
                    lemma_open_bound(m, e.order.owner, side);
                    self.accounts.lemma_no_zero();
                }
                self.accounts.add_open(e.order.owner, side, hidden);
                proof {
                    let s = m.side(side);
                    let s2 = s.update(i as int, e2);
                    let m2 = self@;
                    lemma_update_keeps(s, side, i as int, e2);
                    lemma_sum_update(s, i as int, e2, vol_fn());
                    let o_side = m.side(side.opposite());
                    assert(ids_disjoint(m2.bids, m2.asks)) by {
                        assert forall|a: int, b: int| 0 <= a < s2.len() && 0 <= b < o_side.len() implies (#[trigger] s2[a]).order.id
                            != (#[trigger] o_side[b]).order.id by {
                            assert(s[a].order.id != o_side[b].order.id);
                        }
                    }
                    assert forall|o: AccountId| o != 0 && o != e.order.owner implies #[trigger] sum_by(
                        s2,
                        owner_vol_fn(o),
                    ) == sum_by(s, owner_vol_fn(o)) by {
                        lemma_sum_update(s, i as int, e2, owner_vol_fn(o));
                    }
                    lemma_sum_update(s, i as int, e2, owner_vol_fn(e.order.owner));
                    self.accounts.lemma_no_zero();
                    lemma_accounts_shift(m, m2, side, e.order.owner, hidden as nat, 0);
                    assert(same_shape(m, m2)) by {
                        match side {
                            Side::Buy => {},
                            Side::Sell => {},
                        }
                    }
                    lemma_same_shape(m, m2);
                }
            },
        }
    }
}

impl OrderBook {
    pub fn best_bid(&self) -> (r: Option<Price>)
        ensures
            r == best_spec(self@, Side::Buy),
    {
        if self.bids.len() == 0 {
            None
        } else {
            Some(self.bids[0].order.price)
        }
    }

    pub fn best_ask(&self) -> (r: Option<Price>)
        ensures
            r == best_spec(self@, Side::Sell),
    {
        if self.asks.len() == 0 {
            None
        } else {
            Some(self.asks[0].order.price)
        }
    }

    /// Best ask minus best bid (zero when crossed); `None` unless both sides have orders.
    pub fn spread(&self) -> (r: Option<Price>)
        ensures
            r == match (best_spec(self@, Side::Buy), best_spec(self@, Side::Sell)) {
                (Some(bid), Some(ask)) => Some(if ask >= bid { (ask - bid) as u64 } else { 0 }),
                _ => None,
            },
    {
        match (self.best_bid(), self.best_ask()) {
            (Some(bid), Some(ask)) => Some(ask.saturating_sub(bid)),
            _ => None,
        }
    }

    /// The mid price `(best bid + best ask) / 2`, rounded down; `None` unless both sides
    /// have orders.
    pub fn mid(&self) -> (r: Option<Price>)
        ensures
            r == match (best_spec(self@, Side::Buy), best_spec(self@, Side::Sell)) {
                (Some(bid), Some(ask)) => Some(((bid + ask) / 2) as u64),
                _ => None,
            },
    {
        match (self.best_bid(), self.best_ask()) {
            (Some(bid), Some(ask)) => {
                let sum: u128 = bid as u128 + ask as u128;
                Some((sum / 2) as u64)
            },
            _ => None,
        }
    }

    pub fn is_empty(&self) -> (r: bool)
        ensures
            r == (self@.bids.len() == 0 && self@.asks.len() == 0),
    {
        self.bids.len() == 0 && self.asks.len() == 0
    }

    /// The number of resting orders (saturating at `usize::MAX`).
    pub fn len(&self) -> (r: usize)
        ensures
            r == if self@.bids.len() + self@.asks.len() <= usize::MAX {
                (self@.bids.len() + self@.asks.len()) as int
            } else {
                usize::MAX as int
            },
    {
        self.bids.len().saturating_add(self.asks.len())
    }

    pub fn contains(&self, order_id: OrderId) -> (r: bool)
        requires
            self.wf(),
        ensures
            r == contains_spec(self@, order_id),
    {
        self.find(order_id).is_some()
    }

    /// The side and the resting order with id `order_id`.
    pub fn get(&self, order_id: OrderId) -> (r: Option<(Side, RestingOrder)>)
        requires
            self.wf(),
        ensures
            r == get_spec(self@, order_id),
    {
        match self.find(order_id) {
            Some((side, i)) => Some((side, self.queue(side)[i].order)),
            None => None,
        }
    }

    /// The `(display, hidden)` reserve of iceberg order `order_id`.
    pub fn reserve(&self, order_id: OrderId) -> (r: Option<(Qty, Qty)>)
        requires
            self.wf(),
        ensures
            r == reserve_spec(self@, order_id),
    {
        match self.find(order_id) {
            Some((side, i)) => self.queue(side)[i].reserve,
            None => None,
        }
    }

    /// The visible quantity resting at `price` on `side`.
    pub fn level_qty(&self, side: Side, price: Price) -> (r: Qty)
        requires
            self.wf(),
        ensures
            r == sum_by(self@.side(side), level_fn(price)),
    {
        let q = self.queue(side);
        let ghost s = q@;
        proof {
            lemma_sum_le(s, level_fn(price), vol_fn());
        }
        let mut total: Qty = 0;
        let mut i: usize = 0;
        while i < q.len()
            invariant
                s == q@,
                i <= s.len(),
                total == sum_by(s.take(i as int), level_fn(price)),
                sum_by(s, level_fn(price)) <= u64::MAX,
            decreases s.len() - i,
        {
            proof {
                lemma_sum_take(s, i as int, level_fn(price));
                assert(s =~= s.take(i + 1) + s.skip(i + 1));
                model::lemma_sum_concat(s.take(i + 1), s.skip(i + 1), level_fn(price));
            }
            if q[i].order.price == price {
                total = total + q[i].order.qty;
            }
            i = i + 1;
        }
        proof {
            assert(s.take(i as int) =~= s);
        }
        total
    }

    /// The orders resting at `price` on `side`, front to back, as `(id, visible qty)`.
    pub fn level_orders(&self, side: Side, price: Price) -> (r: Vec<(OrderId, Qty)>)
        ensures
            r@ == orders_at(self@.side(side), price),
    {
        let q = self.queue(side);
        let mut out: Vec<(OrderId, Qty)> = Vec::new();
        let mut i: usize = 0;
        while i < q.len()
            invariant
                i <= q@.len(),
                out@ == orders_at(q@.take(i as int), price),
            decreases q@.len() - i,
        {
            proof {
                assert(q@.take(i + 1).drop_last() =~= q@.take(i as int));
            }
            if q[i].order.price == price {
                out.push((q[i].order.id, q[i].order.qty));
            }
            i = i + 1;
        }
        proof {
            assert(q@.take(i as int) =~= q@);
        }
        out
    }

    /// The best `levels` price levels of `side` with their visible quantities.
    pub fn depth(&self, side: Side, levels: usize) -> (r: Vec<(Price, Qty)>)
        requires
            self.wf(),
        ensures
            r@.len() == if levels < levels_of(self@.side(side)).len() {
                levels as int
            } else {
                levels_of(self@.side(side)).len() as int
            },
            forall|k: int|
                0 <= k < r@.len() ==> (#[trigger] r@[k]).0 == levels_of(self@.side(side))[k].0
                    && r@[k].1 == levels_of(self@.side(side))[k].1,
    {
        let q = self.queue(side);
        let ghost s = q@;
        proof {
            lemma_sum_le(s, visible_fn(), vol_fn());
        }
        let mut out: Vec<(Price, Qty)> = Vec::new();
        let mut i: usize = 0;
        while i < q.len()
            invariant
                s == q@,
                i <= s.len(),
                sum_by(s, visible_fn()) <= u64::MAX,
                out@.len() == levels_of(s.take(i as int)).len(),
                forall|k: int|
                    0 <= k < out@.len() ==> (#[trigger] out@[k]).0 == levels_of(s.take(i as int))[k].0
                        && out@[k].1 == levels_of(s.take(i as int))[k].1,
            decreases s.len() - i,
        {
            let ghost t = s.take(i + 1);
            proof {
                assert(t.drop_last() =~= s.take(i as int));
                lemma_levels_bound(t);
                assert(t =~= s.take(i + 1));
                assert(s =~= t + s.skip(i + 1));
                model::lemma_sum_concat(t, s.skip(i + 1), visible_fn());
            }
            let e = q[i];
            let n = out.len();
            if n > 0 && out[n - 1].0 == e.order.price {
                proof {
                    assert(levels_of(t)[n - 1].1 == levels_of(s.take(i as int))[n - 1].1 + e.order.qty);
                }
                let v = out[n - 1].1 + e.order.qty;
                out.set(n - 1, (e.order.price, v));
            } else {
                out.push((e.order.price, e.order.qty));
            }
            i = i + 1;
        }
        proof {
            assert(s.take(i as int) =~= s);
        }
        if out.len() > levels {
            out.truncate(levels);
        }
        out
    }

    /// The visible quantity a taker on `taker_side` with `limit_price` could trade now.
    pub fn available_qty(&self, taker_side: Side, limit_price: Option<Price>) -> (r: Qty)
        requires
            self.wf(),
        ensures
            r == sum_by(self@.side(taker_side.opposite()), crossing_fn(taker_side, limit_price)),
    {
        let q = self.queue(taker_side.opposite());
        let ghost s = q@;
        let ghost g = crossing_fn(taker_side, limit_price);
        proof {
            lemma_sum_le(s, g, vol_fn());
        }
        let mut total: Qty = 0;
        let mut i: usize = 0;
        while i < q.len()
            invariant
                s == q@,
                g == crossing_fn(taker_side, limit_price),
                i <= s.len(),
                total == sum_by(s.take(i as int), g),
                sum_by(s, g) <= u64::MAX,
            decreases s.len() - i,
        {
            proof {
                lemma_sum_take(s, i as int, g);
                assert(s =~= s.take(i + 1) + s.skip(i + 1));
                model::lemma_sum_concat(s.take(i + 1), s.skip(i + 1), g);
            }
            if crosses_exec(taker_side, limit_price, q[i].order.price) {
                total = total + q[i].order.qty;
            }
            i = i + 1;
        }
        proof {
            assert(s.take(i as int) =~= s);
        }
        total
    }

    fn side_volume(q: &VecDeque<BookEntry>) -> (r: u64)
        requires
            sum_by(q@, vol_fn()) <= u64::MAX,
        ensures
            r == sum_by(q@, vol_fn()),
    {
        let ghost s = q@;
        let mut total: u64 = 0;
        let mut i: usize = 0;
        while i < q.len()
            invariant
                s == q@,
                i <= s.len(),
                total == sum_by(s.take(i as int), vol_fn()),
                sum_by(s, vol_fn()) <= u64::MAX,
            decreases s.len() - i,
        {
            proof {
                lemma_sum_take(s, i as int, vol_fn());
                assert(s =~= s.take(i + 1) + s.skip(i + 1));
                model::lemma_sum_concat(s.take(i + 1), s.skip(i + 1), vol_fn());
            }
            let hidden = match q[i].reserve {
                Some((_, h)) => h,
                None => 0,
            };
            total = total + q[i].order.qty + hidden;
            i = i + 1;
        }
        proof {
            assert(s.take(i as int) =~= s);
        }
        total
    }

    /// The total quantity resting in the book, reserves included.
    pub(crate) fn volume(&self) -> (r: u64)
        requires
            self.wf(),
        ensures
            r == book_volume(self@),
    {
        let b = Self::side_volume(&self.bids);
        let a = Self::side_volume(&self.asks);
        b + a
    }

    /// Whether a taker on `taker_side` with `limit_price` would trade on arrival (a market
    /// order always counts as crossing).
    pub fn would_cross(&self, taker_side: Side, limit_price: Option<Price>) -> (r: bool)
        ensures
            r == would_cross_spec(self@, taker_side, limit_price),
    {
        match limit_price {
            None => true,
            Some(_) => {
                let q = self.queue(taker_side.opposite());
                q.len() > 0 && crosses_exec(taker_side, limit_price, q[0].order.price)
            },
        }
    }

    /// The net position of `owner`.
    pub fn account_net(&self, owner: AccountId) -> (r: i128)
        requires
            self.wf(),
        ensures
            r == state_of(self@.accounts, owner).net,
    {
        self.accounts.net(owner)
    }

    /// The open volume of `owner` on `side`, hidden reserves included.
    pub fn account_open(&self, owner: AccountId, side: Side) -> (r: Qty)
        requires
            self.wf(),
        ensures
            r == state_of(self@.accounts, owner).open_on(side),
    {
        self.accounts.open(owner, side)
    }

    /// The accounts with a non-zero net position, ordered by account id.
    pub fn account_nets(&self) -> (r: Vec<(AccountId, i128)>)
        requires
            self.wf(),
        ensures
            forall|i: int, j: int| 0 <= i < j < r@.len() ==> (#[trigger] r@[i]).0 < (#[trigger] r@[j]).0,
            forall|i: int|
                0 <= i < r@.len() ==> self@.accounts.contains_key((#[trigger] r@[i]).0)
                    && self@.accounts[r@[i].0].net == r@[i].1 && r@[i].1 != 0,
            forall|o: AccountId|
                self@.accounts.contains_key(o) && #[trigger] self@.accounts[o].net != 0 ==> exists|i: int|
                    0 <= i < r@.len() && r@[i].0 == o,
    {
        self.accounts.nets_sorted()
    }

    /// Sets the net position of `owner` (a no-op for the anonymous account or a zero net).
    pub fn restore_account_net(&mut self, owner: AccountId, net: i128)
        requires
            old(self).wf(),
        ensures
            final(self).wf(),
            final(self)@ == old(self)@.with_accounts(accounts::restore_net_spec(old(self)@.accounts, owner, net)),
    {
        let ghost m = self@;
        self.accounts.restore_net(owner, net);
        proof {
            self.accounts.lemma_no_zero();
            lemma_accounts_shift(m, self@, Side::Buy, owner, 0, 0);
            assert(same_shape(m, self@));
            lemma_same_shape(m, self@);
        }
    }

    /// Every resting order as `(side, order, reserve)`: bids then asks, each in priority order.
    pub fn resting_orders(&self) -> (r: Vec<(Side, RestingOrder, Option<(Qty, Qty)>)>)
        ensures
            r@ == entries_of(self@.bids, Side::Buy) + entries_of(self@.asks, Side::Sell),
    {
        let mut out: Vec<(Side, RestingOrder, Option<(Qty, Qty)>)> = Vec::new();
        let mut i: usize = 0;
        while i < self.bids.len()
            invariant
                i <= self.bids@.len(),
                out@ == entries_of(self.bids@.take(i as int), Side::Buy),
            decreases self.bids@.len() - i,
        {
            let e = self.bids[i];
            out.push((Side::Buy, e.order, e.reserve));
            i = i + 1;
            proof {
                assert(out@ =~= entries_of(self.bids@.take(i as int), Side::Buy));
            }
        }
        proof {
            assert(self.bids@.take(i as int) =~= self.bids@);
        }
        let ghost first = out@;
        let mut k: usize = 0;
        while k < self.asks.len()
            invariant
                k <= self.asks@.len(),
                out@ == first + entries_of(self.asks@.take(k as int), Side::Sell),
            decreases self.asks@.len() - k,
        {
            let e = self.asks[k];
            out.push((Side::Sell, e.order, e.reserve));
            k = k + 1;
            proof {
                assert(out@ =~= first + entries_of(self.asks@.take(k as int), Side::Sell));
            }
        }
        proof {
            assert(self.asks@.take(k as int) =~= self.asks@);
        }
        out
    }
}

impl Default for OrderBook {
    fn default() -> (r: Self)
        ensures
            r.wf(),
            r@.bids.len() == 0,
            r@.asks.len() == 0,
            r@.accounts == Map::<AccountId, AccountState>::empty(),
    {
        OrderBook::new()
    }
}

} // verus!

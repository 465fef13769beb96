use vstd::prelude::*;

use super::accounts::{add_open_spec, fill_spec, nets_within, state_of, sub_open_spec, AccountState};
use crate::types::{AccountId, OrderId, Price, Qty, SeqNum, Side, StpMode, Timestamp};

verus! {

/// An order resting in the book.
#[derive(Clone, Copy, Debug, PartialEq, Eq, Structural)]
pub struct RestingOrder {
    pub id: OrderId,
    pub seq: SeqNum,
    pub price: Price,
    pub qty: Qty,
    pub timestamp: Timestamp,
    pub owner: AccountId,
}

/// A resting order together with its hidden iceberg reserve `(display, hidden)`, if any.
#[derive(Clone, Copy, Debug)]
pub struct BookEntry {
    pub order: RestingOrder,
    pub reserve: Option<(Qty, Qty)>,
}

/// One execution against a resting order: the maker (with the traded quantity), the
/// quantity and the price.
#[derive(Clone, Copy, Debug, PartialEq, Eq, Structural)]
pub struct Fill {
    pub maker: RestingOrder,
    pub qty: Qty,
    pub price: Price,
}

/// The abstract state of the book: each side as one queue in priority order (best price
/// first, arrival order within a price), and the account aggregates.
pub struct BookModel {
    pub bids: Seq<BookEntry>,
    pub asks: Seq<BookEntry>,
    pub accounts: Map<AccountId, AccountState>,
}

impl BookModel {
    pub open spec fn side(self, side: Side) -> Seq<BookEntry> {
        match side {
            Side::Buy => self.bids,
            Side::Sell => self.asks,
        }
    }

    pub open spec fn with_side(self, side: Side, s: Seq<BookEntry>) -> BookModel {
        match side {
            Side::Buy => BookModel { bids: s, ..self },
            Side::Sell => BookModel { asks: s, ..self },
        }
    }

    pub open spec fn with_accounts(self, accounts: Map<AccountId, AccountState>) -> BookModel {
        BookModel { accounts, ..self }
    }
}

/// `a` is at least as good a price as `b` for orders resting on `side`.
pub open spec fn better_eq(side: Side, a: Price, b: Price) -> bool {
    match side {
        Side::Buy => a >= b,
        Side::Sell => a <= b,
    }
}

/// A taker on `taker_side` with limit `limit` (`None`: market) can trade at `price`.
pub open spec fn crosses(taker_side: Side, limit: Option<Price>, price: Price) -> bool {
    match limit {
        None => true,
        Some(l) => match taker_side {
            Side::Buy => l >= price,
            Side::Sell => l <= price,
        },
    }
}

/// The queue is in price priority for `side`.
pub open spec fn sorted(s: Seq<BookEntry>, side: Side) -> bool {
    forall|i: int, j: int|
        0 <= i < j < s.len() ==> better_eq(side, (#[trigger] s[i]).order.price, (#[trigger] s[j]).order.price)
}

pub open spec fn hidden_of(e: BookEntry) -> nat {
    match e.reserve {
        Some((_, h)) => h as nat,
        None => 0,
    }
}

/// The whole volume of an entry: the visible part and the hidden reserve.
pub open spec fn vol(e: BookEntry) -> nat {
    e.order.qty as nat + hidden_of(e)
}

pub open spec fn vol_fn() -> spec_fn(BookEntry) -> nat {
    |e: BookEntry| vol(e)
}

pub open spec fn visible_fn() -> spec_fn(BookEntry) -> nat {
    |e: BookEntry| e.order.qty as nat
}

pub open spec fn owner_vol_fn(o: AccountId) -> spec_fn(BookEntry) -> nat {
    |e: BookEntry|
        if e.order.owner == o {
            vol(e)
        } else {
            0
        }
}

pub open spec fn level_fn(p: Price) -> spec_fn(BookEntry) -> nat {
    |e: BookEntry|
        if e.order.price == p {
            e.order.qty as nat
        } else {
            0
        }
}

pub open spec fn crossing_fn(taker_side: Side, limit: Option<Price>) -> spec_fn(BookEntry) -> nat {
    |e: BookEntry|
        if crosses(taker_side, limit, e.order.price) {
            e.order.qty as nat
        } else {
            0
        }
}

/// The sum of `g` over the queue.
pub open spec fn sum_by(s: Seq<BookEntry>, g: spec_fn(BookEntry) -> nat) -> nat
    decreases s.len(),
{
    if s.len() == 0 {
        0
    } else {
        sum_by(s.drop_last(), g) + g(s.last())
    }
}

pub proof fn lemma_sum_push(s: Seq<BookEntry>, e: BookEntry, g: spec_fn(BookEntry) -> nat)
    ensures
        sum_by(s.push(e), g) == sum_by(s, g) + g(e),
{
    assert(s.push(e).drop_last() =~= s);
}

pub proof fn lemma_sum_concat(a: Seq<BookEntry>, b: Seq<BookEntry>, g: spec_fn(BookEntry) -> nat)
    ensures
        sum_by(a + b, g) == sum_by(a, g) + sum_by(b, g),
    decreases b.len(),
{
    if b.len() == 0 {
        assert(a + b =~= a);
    } else {
        lemma_sum_concat(a, b.drop_last(), g);
        assert((a + b).drop_last() =~= a + b.drop_last());
    }
}

pub proof fn lemma_sum_take(s: Seq<BookEntry>, i: int, g: spec_fn(BookEntry) -> nat)
    requires
        0 <= i < s.len(),
    ensures
        sum_by(s.take(i + 1), g) == sum_by(s.take(i), g) + g(s[i]),
{
    assert(s.take(i + 1).drop_last() =~= s.take(i));
}

pub proof fn lemma_sum_insert(s: Seq<BookEntry>, k: int, e: BookEntry, g: spec_fn(BookEntry) -> nat)
    requires
        0 <= k <= s.len(),
    ensures
        sum_by(s.insert(k, e), g) == sum_by(s, g) + g(e),
{
    assert(s.insert(k, e) =~= (s.take(k).push(e)) + s.skip(k));
    assert(s =~= s.take(k) + s.skip(k));
    lemma_sum_concat(s.take(k).push(e), s.skip(k), g);
    lemma_sum_concat(s.take(k), s.skip(k), g);
    lemma_sum_push(s.take(k), e, g);
}

pub proof fn lemma_sum_remove(s: Seq<BookEntry>, k: int, g: spec_fn(BookEntry) -> nat)
    requires
        0 <= k < s.len(),
    ensures
        sum_by(s.remove(k), g) + g(s[k]) == sum_by(s, g),
{
    lemma_sum_insert(s.remove(k), k, s[k], g);
    assert(s.remove(k).insert(k, s[k]) =~= s);
}

pub proof fn lemma_sum_update(s: Seq<BookEntry>, k: int, e: BookEntry, g: spec_fn(BookEntry) -> nat)
    requires
        0 <= k < s.len(),
    ensures
        sum_by(s.update(k, e), g) + g(s[k]) == sum_by(s, g) + g(e),
{
    lemma_sum_remove(s, k, g);
    lemma_sum_insert(s.remove(k), k, e, g);
    assert(s.remove(k).insert(k, e) =~= s.update(k, e));
}

pub proof fn lemma_sum_le(s: Seq<BookEntry>, g1: spec_fn(BookEntry) -> nat, g2: spec_fn(BookEntry) -> nat)
    requires
        forall|e: BookEntry| #[trigger] g1(e) <= g2(e),
    ensures
        sum_by(s, g1) <= sum_by(s, g2),
    decreases s.len(),
{
    if s.len() > 0 {
        lemma_sum_le(s.drop_last(), g1, g2);
    }
}

pub proof fn lemma_sum_elem(s: Seq<BookEntry>, k: int, g: spec_fn(BookEntry) -> nat)
    requires
        0 <= k < s.len(),
    ensures
        g(s[k]) <= sum_by(s, g),
{
    lemma_sum_remove(s, k, g);
}

pub proof fn lemma_sum_zero(s: Seq<BookEntry>, g: spec_fn(BookEntry) -> nat)
    requires
        forall|i: int| 0 <= i < s.len() ==> g(#[trigger] s[i]) == 0,
    ensures
        sum_by(s, g) == 0,
    decreases s.len(),
{
    if s.len() > 0 {
        lemma_sum_zero(s.drop_last(), g);
        assert(g(s[s.len() - 1]) == 0);
    }
}

pub proof fn lemma_sum_ext(s: Seq<BookEntry>, g1: spec_fn(BookEntry) -> nat, g2: spec_fn(BookEntry) -> nat)
    requires
        forall|i: int| 0 <= i < s.len() ==> g1(#[trigger] s[i]) == g2(s[i]),
    ensures
        sum_by(s, g1) == sum_by(s, g2),
    decreases s.len(),
{
    if s.len() > 0 {
        lemma_sum_ext(s.drop_last(), g1, g2);
        assert(g1(s[s.len() - 1]) == g2(s[s.len() - 1]));
    }
}

/// Where an entry with price `p` joins the queue of `side`: behind every entry with a price
/// at least as good.
pub open spec fn insert_pos(s: Seq<BookEntry>, side: Side, p: Price) -> int
    decreases s.len(),
{
    if s.len() == 0 || !better_eq(side, s[0].order.price, p) {
        0
    } else {
        1 + insert_pos(s.drop_first(), side, p)
    }
}

pub proof fn lemma_insert_pos(s: Seq<BookEntry>, side: Side, p: Price)
    ensures
        0 <= insert_pos(s, side, p) <= s.len(),
        forall|j: int| 0 <= j < insert_pos(s, side, p) ==> better_eq(side, (#[trigger] s[j]).order.price, p),
        insert_pos(s, side, p) < s.len() ==> !better_eq(side, s[insert_pos(s, side, p)].order.price, p),
    decreases s.len(),
{
    if s.len() > 0 && better_eq(side, s[0].order.price, p) {
        lemma_insert_pos(s.drop_first(), side, p);
        assert forall|j: int| 0 <= j < insert_pos(s, side, p) implies better_eq(side, (#[trigger] s[j]).order.price, p) by {
            if j > 0 {
                assert(s[j] == s.drop_first()[j - 1]);
            }
        }
    }
}

/// The queue with `e` joined at the back of its price level.
pub open spec fn side_insert(s: Seq<BookEntry>, side: Side, e: BookEntry) -> Seq<BookEntry> {
    s.insert(insert_pos(s, side, e.order.price), e)
}

#[verifier::rlimit(60)]
pub proof fn lemma_side_insert_sorted(s: Seq<BookEntry>, side: Side, e: BookEntry)
    requires
        sorted(s, side),
    ensures
        sorted(side_insert(s, side, e), side),
{
    lemma_insert_pos(s, side, e.order.price);
    let k = insert_pos(s, side, e.order.price);
    let n = side_insert(s, side, e);
    assert forall|i: int, j: int| 0 <= i < j < n.len() implies better_eq(side, (#[trigger] n[i]).order.price, (#[trigger] n[j]).order.price) by {
        if j < k {
            assert(n[i] == s[i] && n[j] == s[j]);
        } else if j == k {
            assert(n[i] == s[i]);
        } else if i < k {
            assert(n[j] == s[j - 1]);
        } else if i == k {
            assert(n[j] == s[j - 1]);
            assert(better_eq(side, s[k].order.price, s[j - 1].order.price) || k == j - 1);
        } else {
            assert(n[i] == s[i - 1] && n[j] == s[j - 1]);
        }
    }
}

/// Ids are distinct within one queue.
pub open spec fn ids_distinct(s: Seq<BookEntry>) -> bool {
    forall|i: int, j: int| 0 <= i < j < s.len() ==> (#[trigger] s[i]).order.id != (#[trigger] s[j]).order.id
}

/// No id rests on both sides.
pub open spec fn ids_disjoint(a: Seq<BookEntry>, b: Seq<BookEntry>) -> bool {
    forall|i: int, j: int|
        0 <= i < a.len() && 0 <= j < b.len() ==> (#[trigger] a[i]).order.id != (#[trigger] b[j]).order.id
}

/// Every iceberg shows a positive peak and keeps a non-empty hidden reserve.
pub open spec fn reserves_ok(s: Seq<BookEntry>) -> bool {
    forall|i: int|
        0 <= i < s.len() ==> match (#[trigger] s[i]).reserve {
            Some((d, h)) => d > 0 && h > 0,
            None => true,
        }
}

pub open spec fn book_volume(m: BookModel) -> nat {
    sum_by(m.bids, vol_fn()) + sum_by(m.asks, vol_fn())
}

/// The open volume the accounts record equals, per owner and side, what rests in the book.
pub open spec fn accounts_match(m: BookModel) -> bool {
    &&& !m.accounts.contains_key(0)
    &&& forall|o: AccountId|
        #![trigger sum_by(m.bids, owner_vol_fn(o))]
        o != 0 ==> state_of(m.accounts, o).open_buy == sum_by(m.bids, owner_vol_fn(o))
    &&& forall|o: AccountId|
        #![trigger sum_by(m.asks, owner_vol_fn(o))]
        o != 0 ==> state_of(m.accounts, o).open_sell == sum_by(m.asks, owner_vol_fn(o))
}

/// The invariant of the book.
pub open spec fn book_inv(m: BookModel) -> bool {
    &&& sorted(m.bids, Side::Buy)
    &&& sorted(m.asks, Side::Sell)
    &&& ids_distinct(m.bids)
    &&& ids_distinct(m.asks)
    &&& ids_disjoint(m.bids, m.asks)
    &&& reserves_ok(m.bids)
    &&& reserves_ok(m.asks)
    &&& book_volume(m) <= u64::MAX
    &&& accounts_match(m)
}


pub open spec fn has_id(s: Seq<BookEntry>, id: OrderId) -> bool {
    exists|i: int| 0 <= i < s.len() && s[i].order.id == id
}

pub open spec fn index_of_id(s: Seq<BookEntry>, id: OrderId) -> int {
    choose|i: int| 0 <= i < s.len() && s[i].order.id == id
}

pub proof fn lemma_index_of_id(s: Seq<BookEntry>, i: int)
    requires
        ids_distinct(s),
        0 <= i < s.len(),
    ensures
        has_id(s, s[i].order.id),
        index_of_id(s, s[i].order.id) == i,
{
    let id = s[i].order.id;
    assert(has_id(s, id));
    let j = index_of_id(s, id);
    if j < i {
        assert(s[j].order.id != s[i].order.id);
    } else if j > i {
        assert(s[i].order.id != s[j].order.id);
    }
}

/// Where order `id` rests: its side and its place in that side's queue.
pub open spec fn locate(m: BookModel, id: OrderId) -> Option<(Side, int)> {
    if has_id(m.bids, id) {
        Some((Side::Buy, index_of_id(m.bids, id)))
    } else if has_id(m.asks, id) {
        Some((Side::Sell, index_of_id(m.asks, id)))
    } else {
        None
    }
}

pub open spec fn contains_spec(m: BookModel, id: OrderId) -> bool {
    has_id(m.bids, id) || has_id(m.asks, id)
}

/// `get`: the side and the resting order with id `id`.
pub open spec fn get_spec(m: BookModel, id: OrderId) -> Option<(Side, RestingOrder)> {
    match locate(m, id) {
        Some((side, i)) => Some((side, m.side(side)[i].order)),
        None => None,
    }
}

/// `reserve`: the iceberg reserve of order `id`.
pub open spec fn reserve_spec(m: BookModel, id: OrderId) -> Option<(Qty, Qty)> {
    match locate(m, id) {
        Some((side, i)) => m.side(side)[i].reserve,
        None => None,
    }
}

/// `insert`: the order joins the back of its price level; its owner's open volume grows.
pub open spec fn insert_spec(m: BookModel, side: Side, order: RestingOrder) -> BookModel {
    m.with_side(side, side_insert(m.side(side), side, BookEntry { order, reserve: None }))
        .with_accounts(add_open_spec(m.accounts, order.owner, side, order.qty))
}

/// `add_reserve`: order `id` gets a hidden reserve, counted in its owner's open volume.
pub open spec fn add_reserve_spec(m: BookModel, id: OrderId, display: Qty, hidden: Qty) -> BookModel {
    match locate(m, id) {
        Some((side, i)) => {
            let e = m.side(side)[i];
            m.with_side(side, m.side(side).update(i, BookEntry { reserve: Some((display, hidden)), ..e }))
                .with_accounts(add_open_spec(m.accounts, e.order.owner, side, hidden))
        },
        None => m,
    }
}

/// `cancel`: order `id` leaves the book together with its reserve.
pub open spec fn cancel_spec(m: BookModel, id: OrderId) -> (BookModel, Option<RestingOrder>) {
    match locate(m, id) {
        Some((side, i)) => {
            let e = m.side(side)[i];
            (
                m.with_side(side, m.side(side).remove(i)).with_accounts(
                    sub_open_spec(m.accounts, e.order.owner, side, vol(e) as u64),
                ),
                Some(e.order),
            )
        },
        None => (m, None),
    }
}

/// `reduce`: order `id` shrinks in place to `new_qty` when that is below its quantity.
pub open spec fn reduce_spec(m: BookModel, id: OrderId, new_qty: Qty) -> (BookModel, Option<RestingOrder>) {
    match locate(m, id) {
        Some((side, i)) => {
            let e = m.side(side)[i];
            if new_qty >= e.order.qty {
                (m, None)
            } else {
                let updated = RestingOrder { qty: new_qty, ..e.order };
                (
                    m.with_side(side, m.side(side).update(i, BookEntry { order: updated, ..e }))
                        .with_accounts(
                        sub_open_spec(m.accounts, e.order.owner, side, (e.order.qty - new_qty) as u64),
                    ),
                    Some(updated),
                )
            }
        },
        None => (m, None),
    }
}

/// The accounts still match the book after the queue of `side` changed so that only the
/// volume of `owner` moved, by `add - sub`, and the accounts followed.
pub proof fn lemma_accounts_shift(
    m: BookModel,
    m2: BookModel,
    side: Side,
    owner: AccountId,
    add: nat,
    sub: nat,
)
    requires
        accounts_match(m),
        !m2.accounts.contains_key(0),
        m2.side(side.opposite()) == m.side(side.opposite()),
        forall|o: AccountId|
            o != 0 && o != owner ==> #[trigger] sum_by(m2.side(side), owner_vol_fn(o)) == sum_by(
                m.side(side),
                owner_vol_fn(o),
            ),
        forall|o: AccountId|
            o != 0 && o != owner ==> (#[trigger] state_of(m2.accounts, o)).open_buy == state_of(
                m.accounts,
                o,
            ).open_buy && state_of(m2.accounts, o).open_sell == state_of(m.accounts, o).open_sell,
        owner != 0 ==> sum_by(m2.side(side), owner_vol_fn(owner)) + sub == sum_by(
            m.side(side),
            owner_vol_fn(owner),
        ) + add,
        owner != 0 ==> state_of(m2.accounts, owner).open_on(side) + sub == state_of(
            m.accounts,
            owner,
        ).open_on(side) + add,
        owner != 0 ==> state_of(m2.accounts, owner).open_on(side.opposite()) == state_of(
            m.accounts,
            owner,
        ).open_on(side.opposite()),
    ensures
        accounts_match(m2),
{
    assert forall|o: AccountId| o != 0 implies state_of(m2.accounts, o).open_buy == #[trigger] sum_by(
        m2.bids,
        owner_vol_fn(o),
    ) by {
        assert(state_of(m.accounts, o).open_buy == sum_by(m.bids, owner_vol_fn(o)));
        if o != owner {
            assert(state_of(m2.accounts, o).open_buy == state_of(m.accounts, o).open_buy);
            if side == Side::Buy {
                assert(sum_by(m2.side(side), owner_vol_fn(o)) == sum_by(m.side(side), owner_vol_fn(o)));
            }
        }
    }
    assert forall|o: AccountId| o != 0 implies state_of(m2.accounts, o).open_sell == #[trigger] sum_by(
        m2.asks,
        owner_vol_fn(o),
    ) by {
        assert(state_of(m.accounts, o).open_sell == sum_by(m.asks, owner_vol_fn(o)));
        if o != owner {
            assert(state_of(m2.accounts, o).open_sell == state_of(m.accounts, o).open_sell);
            if side == Side::Sell {
                assert(sum_by(m2.side(side), owner_vol_fn(o)) == sum_by(m.side(side), owner_vol_fn(o)));
            }
        }
    }
}

/// The volume of one owner never exceeds the volume of the whole queue.
pub proof fn lemma_owner_vol_le(s: Seq<BookEntry>, o: AccountId)
    ensures
        sum_by(s, owner_vol_fn(o)) <= sum_by(s, vol_fn()),
{
    lemma_sum_le(s, owner_vol_fn(o), vol_fn());
}


/// The best price on `side`.
pub open spec fn best_spec(m: BookModel, side: Side) -> Option<Price> {
    if m.side(side).len() == 0 {
        None
    } else {
        Some(m.side(side)[0].order.price)
    }
}

/// A taker on `taker_side` with `limit` would trade on arrival.
pub open spec fn would_cross_spec(m: BookModel, taker_side: Side, limit: Option<Price>) -> bool {
    match limit {
        None => true,
        Some(_) => {
            let opp = m.side(taker_side.opposite());
            opp.len() > 0 && crosses(taker_side, limit, opp[0].order.price)
        },
    }
}

/// The price levels of a queue, in queue order, with their visible quantities.
pub open spec fn levels_of(s: Seq<BookEntry>) -> Seq<(Price, nat)>
    decreases s.len(),
{
    if s.len() == 0 {
        Seq::empty()
    } else {
        let init = levels_of(s.drop_last());
        let e = s.last();
        if init.len() > 0 && init.last().0 == e.order.price {
            init.update(init.len() - 1, (e.order.price, init.last().1 + e.order.qty as nat))
        } else {
            init.push((e.order.price, e.order.qty as nat))
        }
    }
}

pub proof fn lemma_levels_bound(s: Seq<BookEntry>)
    ensures
        forall|k: int| 0 <= k < levels_of(s).len() ==> (#[trigger] levels_of(s)[k]).1 <= sum_by(s, visible_fn()),
        levels_of(s).len() <= s.len(),
    decreases s.len(),
{
    if s.len() > 0 {
        lemma_levels_bound(s.drop_last());
    }
}

/// The orders resting at price `p`, in queue order, as `(id, visible qty)`.
pub open spec fn orders_at(s: Seq<BookEntry>, p: Price) -> Seq<(OrderId, Qty)>
    decreases s.len(),
{
    if s.len() == 0 {
        Seq::empty()
    } else {
        let init = orders_at(s.drop_last(), p);
        if s.last().order.price == p {
            init.push((s.last().order.id, s.last().order.qty))
        } else {
            init
        }
    }
}

/// The entries of a queue as `(side, order, reserve)`.
pub open spec fn entries_of(s: Seq<BookEntry>, side: Side) -> Seq<(Side, RestingOrder, Option<(Qty, Qty)>)> {
    s.map_values(|e: BookEntry| (side, e.order, e.reserve))
}

/// Removing an entry keeps the queue in priority order, ids distinct and reserves valid.
#[verifier::rlimit(60)]
pub proof fn lemma_remove_keeps(s: Seq<BookEntry>, side: Side, k: int)
    requires
        0 <= k < s.len(),
        sorted(s, side),
        ids_distinct(s),
        reserves_ok(s),
    ensures
        sorted(s.remove(k), side),
        ids_distinct(s.remove(k)),
        reserves_ok(s.remove(k)),
        forall|a: int| 0 <= a < s.remove(k).len() ==> (#[trigger] s.remove(k)[a]) == s[if a < k { a } else { a + 1 }],
{
    let n = s.remove(k);
    assert forall|a: int| 0 <= a < n.len() implies (#[trigger] n[a]) == s[if a < k { a } else { a + 1 }] by {}
    assert forall|a: int, b: int| 0 <= a < b < n.len() implies better_eq(side, (#[trigger] n[a]).order.price, (#[trigger] n[b]).order.price) by {
        let a0 = if a < k { a } else { a + 1 };
        let b0 = if b < k { b } else { b + 1 };
        assert(n[a] == s[a0] && n[b] == s[b0]);
    }
    assert forall|a: int, b: int| 0 <= a < b < n.len() implies (#[trigger] n[a]).order.id != (#[trigger] n[b]).order.id by {
        let a0 = if a < k { a } else { a + 1 };
        let b0 = if b < k { b } else { b + 1 };
        assert(n[a] == s[a0] && n[b] == s[b0]);
    }
    assert forall|a: int| 0 <= a < n.len() implies match (#[trigger] n[a]).reserve {
        Some((d, h)) => d > 0 && h > 0,
        None => true,
    } by {
        let a0 = if a < k { a } else { a + 1 };
        assert(n[a] == s[a0]);
    }
}

/// Replacing an entry by one with the same id and price keeps the queue invariants.
pub proof fn lemma_update_keeps(s: Seq<BookEntry>, side: Side, k: int, e: BookEntry)
    requires
        0 <= k < s.len(),
        sorted(s, side),
        ids_distinct(s),
        reserves_ok(s),
        e.order.id == s[k].order.id,
        e.order.price == s[k].order.price,
        match e.reserve {
            Some((d, h)) => d > 0 && h > 0,
            None => true,
        },
    ensures
        sorted(s.update(k, e), side),
        ids_distinct(s.update(k, e)),
        reserves_ok(s.update(k, e)),
{
    let n = s.update(k, e);
    assert forall|a: int, b: int| 0 <= a < b < n.len() implies better_eq(side, (#[trigger] n[a]).order.price, (#[trigger] n[b]).order.price) by {
        assert(better_eq(side, s[a].order.price, s[b].order.price));
    }
    assert forall|a: int, b: int| 0 <= a < b < n.len() implies (#[trigger] n[a]).order.id != (#[trigger] n[b]).order.id by {
        assert(s[a].order.id != s[b].order.id);
    }
    assert forall|a: int| 0 <= a < n.len() implies match (#[trigger] n[a]).reserve {
        Some((d, h)) => d > 0 && h > 0,
        None => true,
    } by {
        if a != k {
            assert(n[a] == s[a]);
        }
    }
}


/// The aggressor of a match: its side, owner, self-trade policy and limit (`None`: market).
pub struct Taker {
    pub side: Side,
    pub owner: AccountId,
    pub stp: StpMode,
    pub limit: Option<Price>,
}

/// The state of a match in progress.
pub struct MatchState {
    pub book: BookModel,
    pub qty: Qty,
    pub stop: bool,
    pub taker_canceled: bool,
    pub self_canceled: Seq<OrderId>,
    pub fills: Seq<Fill>,
}

pub open spec fn match_start(book: BookModel, qty: Qty) -> MatchState {
    MatchState {
        book,
        qty,
        stop: false,
        taker_canceled: false,
        self_canceled: Seq::empty(),
        fills: Seq::empty(),
    }
}

/// The match is over: nothing left to trade, the taker was pulled, the opposite side is
/// empty, or its best price no longer crosses the limit.
pub open spec fn match_done(ms: MatchState, t: Taker) -> bool {
    let opp = ms.book.side(t.side.opposite());
    ms.qty == 0 || ms.stop || opp.len() == 0 || !crosses(t.side, t.limit, opp[0].order.price)
}

/// Self-trade prevention applies between the taker and the resting entry `e`.
pub open spec fn self_match(t: Taker, e: BookEntry) -> bool {
    t.stp != StpMode::Off && t.owner != 0 && e.order.owner == t.owner
}

/// The front entry of `side` is pulled from the book with its reserve.
pub open spec fn detach_front(b: BookModel, side: Side) -> BookModel {
    let s = b.side(side);
    let e = s[0];
    b.with_side(side, s.remove(0)).with_accounts(
        sub_open_spec(b.accounts, e.order.owner, side, vol(e) as u64),
    )
}

pub open spec fn min_qty(a: Qty, b: Qty) -> Qty {
    if a <= b {
        a
    } else {
        b
    }
}

/// The entry `e` after `traded` of it executed: reduced in place, or, when its visible part
/// is exhausted, refilled from its reserve and sent to the back of its level, or removed.
pub open spec fn after_fill(s: Seq<BookEntry>, side: Side, e: BookEntry, traded: Qty) -> Seq<BookEntry> {
    let left = (e.order.qty - traded) as u64;
    if left > 0 {
        s.update(0, BookEntry { order: RestingOrder { qty: left, ..e.order }, ..e })
    } else {
        match e.reserve {
            Some((d, h)) => {
                let peak = min_qty(d, h);
                let rest = (h - peak) as u64;
                let refilled = BookEntry {
                    order: RestingOrder { qty: peak, ..e.order },
                    reserve: if rest == 0 { None } else { Some((d, rest)) },
                };
                side_insert(s.remove(0), side, refilled)
            },
            None => s.remove(0),
        }
    }
}

/// One step of matching against the front of the opposite side.
pub open spec fn match_step(ms: MatchState, t: Taker) -> MatchState {
    if match_done(ms, t) {
        ms
    } else {
        let maker_side = t.side.opposite();
        let opp = ms.book.side(maker_side);
        let e = opp[0];
        if self_match(t, e) {
            match t.stp {
                StpMode::CancelMaker => MatchState {
                    book: detach_front(ms.book, maker_side),
                    self_canceled: ms.self_canceled.push(e.order.id),
                    ..ms
                },
                StpMode::CancelBoth => MatchState {
                    book: detach_front(ms.book, maker_side),
                    self_canceled: ms.self_canceled.push(e.order.id),
                    taker_canceled: true,
                    stop: true,
                    ..ms
                },
                _ => MatchState { taker_canceled: true, stop: true, ..ms },
            }
        } else {
            let traded = min_qty(ms.qty, e.order.qty);
            let fill = Fill {
                maker: RestingOrder { qty: traded, ..e.order },
                qty: traded,
                price: e.order.price,
            };
            let accounts = sub_open_spec(
                fill_spec(
                    fill_spec(ms.book.accounts, t.owner, t.side, traded),
                    e.order.owner,
                    maker_side,
                    traded,
                ),
                e.order.owner,
                maker_side,
                traded,
            );
            MatchState {
                book: ms.book.with_side(maker_side, after_fill(opp, maker_side, e, traded))
                    .with_accounts(accounts),
                qty: (ms.qty - traded) as u64,
                fills: ms.fills.push(fill),
                ..ms
            }
        }
    }
}

/// `n` steps of matching.
pub open spec fn match_run(ms: MatchState, t: Taker, n: nat) -> MatchState
    decreases n,
{
    if n == 0 {
        ms
    } else {
        match_step(match_run(ms, t, (n - 1) as nat), t)
    }
}

/// `fin` is where matching from `start` stops.
pub open spec fn match_result(start: MatchState, t: Taker, fin: MatchState) -> bool {
    exists|n: nat| fin == match_run(start, t, n) && match_done(fin, t)
}

pub proof fn lemma_run_done(ms: MatchState, t: Taker, a: nat, b: nat)
    requires
        a <= b,
        match_done(match_run(ms, t, a), t),
    ensures
        match_run(ms, t, b) == match_run(ms, t, a),
    decreases b - a,
{
    if a < b {
        lemma_run_done(ms, t, a, (b - 1) as nat);
    }
}

/// Matching has one result: the first state where it stops.
pub proof fn lemma_match_result_unique(start: MatchState, t: Taker, f1: MatchState, f2: MatchState)
    requires
        match_result(start, t, f1),
        match_result(start, t, f2),
    ensures
        f1 == f2,
{
    let n1 = choose|n: nat| f1 == match_run(start, t, n) && match_done(f1, t);
    let n2 = choose|n: nat| f2 == match_run(start, t, n) && match_done(f2, t);
    if n1 <= n2 {
        lemma_run_done(start, t, n1, n2);
    } else {
        lemma_run_done(start, t, n2, n1);
    }
}

/// The total quantity of a list of fills.
pub open spec fn fills_total(f: Seq<Fill>) -> nat
    decreases f.len(),
{
    if f.len() == 0 {
        0
    } else {
        fills_total(f.drop_last()) + f.last().qty as nat
    }
}

/// The termination weight of one entry.
pub open spec fn weight_fn() -> spec_fn(BookEntry) -> nat {
    |e: BookEntry|
        2 * vol(e) + (if e.order.qty == 0 { 1nat } else { 0nat }) + (if e.reserve is Some { 1nat } else { 0nat }) + 1
}

/// Every entry of `s` is at most as good as `p` for `side`.
pub open spec fn all_worse_eq(s: Seq<BookEntry>, side: Side, p: Price) -> bool {
    forall|j: int| 0 <= j < s.len() ==> better_eq(side, p, (#[trigger] s[j]).order.price)
}


/// What replaces the front entry `e` after `traded` of it executed.
pub open spec fn fill_replacement(e: BookEntry, traded: Qty) -> Option<BookEntry> {
    let left = (e.order.qty - traded) as u64;
    if left > 0 {
        Some(BookEntry { order: RestingOrder { qty: left, ..e.order }, ..e })
    } else {
        match e.reserve {
            Some((d, h)) => {
                let peak = min_qty(d, h);
                let rest = (h - peak) as u64;
                Some(
                    BookEntry {
                        order: RestingOrder { qty: peak, ..e.order },
                        reserve: if rest == 0 { None } else { Some((d, rest)) },
                    },
                )
            },
            None => None,
        }
    }
}

pub open spec fn opt_g(r: Option<BookEntry>, g: spec_fn(BookEntry) -> nat) -> nat {
    match r {
        Some(x) => g(x),
        None => 0,
    }
}

proof fn lemma_replacement(e: BookEntry, traded: Qty)
    requires
        traded <= e.order.qty,
        match e.reserve {
            Some((d, h)) => d > 0 && h > 0,
            None => true,
        },
    ensures
        match fill_replacement(e, traded) {
            Some(x) => {
                &&& x.order.id == e.order.id
                &&& x.order.price == e.order.price
                &&& x.order.owner == e.order.owner
                &&& vol(x) + traded == vol(e)
                &&& match x.reserve {
                    Some((d, h)) => d > 0 && h > 0,
                    None => true,
                }
            },
            None => vol(e) == traded,
        },
{
}

/// Facts about a queue that a fill changes into `a`.
pub open spec fn fill_keeps(s: Seq<BookEntry>, a: Seq<BookEntry>, side: Side) -> bool {
    &&& sorted(a, side)
    &&& ids_distinct(a)
    &&& reserves_ok(a)
    &&& forall|j: int|
        0 <= j < a.len() ==> exists|k: int|
            0 <= k < s.len() && (#[trigger] a[j]).order.id == s[k].order.id && a[j].order.price
                == s[k].order.price
}

#[verifier::rlimit(60)]
proof fn lemma_fill_refill(s: Seq<BookEntry>, side: Side, x: BookEntry, g: spec_fn(BookEntry) -> nat)
    requires
        s.len() > 0,
        sorted(s, side),
        ids_distinct(s),
        reserves_ok(s),
        x.order.id == s[0].order.id,
        x.order.price == s[0].order.price,
        match x.reserve {
            Some((d, h)) => d > 0 && h > 0,
            None => true,
        },
    ensures
        fill_keeps(s, side_insert(s.remove(0), side, x), side),
        sum_by(side_insert(s.remove(0), side, x), g) + g(s[0]) == sum_by(s, g) + g(x),
{
    let r = s.remove(0);
    let a = side_insert(r, side, x);
    lemma_remove_keeps(s, side, 0);
    lemma_sum_remove(s, 0, g);
    lemma_side_insert_sorted(r, side, x);
    lemma_insert_pos(r, side, x.order.price);
    let k = insert_pos(r, side, x.order.price);
    lemma_sum_insert(r, k, x, g);
    assert(a == r.insert(k, x));
    assert forall|i: int, j: int| 0 <= i < j < a.len() implies (#[trigger] a[i]).order.id
        != (#[trigger] a[j]).order.id by {
        if i == k {
            assert(a[j] == r[j - 1]);
            assert(s[0].order.id != s[j].order.id);
        } else if j == k {
            assert(a[i] == r[i]);
            assert(s[0].order.id != s[i + 1].order.id);
        } else {
            let i0 = if i < k { i } else { i - 1 };
            let j0 = if j < k { j } else { j - 1 };
            assert(a[i] == r[i0] && a[j] == r[j0]);
        }
    }
    assert forall|i: int| 0 <= i < a.len() implies match (#[trigger] a[i]).reserve {
        Some((d, h)) => d > 0 && h > 0,
        None => true,
    } by {
        if i != k {
            let i0 = if i < k { i } else { i - 1 };
            assert(a[i] == r[i0]);
        }
    }
    assert forall|j: int| 0 <= j < a.len() implies exists|k2: int|
        0 <= k2 < s.len() && (#[trigger] a[j]).order.id == s[k2].order.id && a[j].order.price
            == s[k2].order.price by {
        if j == k {
            assert(a[j].order.id == s[0].order.id && a[j].order.price == s[0].order.price);
        } else {
            let j0 = if j < k { j } else { j - 1 };
            assert(a[j] == r[j0] && r[j0] == s[j0 + 1]);
        }
    }
}

proof fn lemma_fill_update(s: Seq<BookEntry>, side: Side, x: BookEntry, g: spec_fn(BookEntry) -> nat)
    requires
        s.len() > 0,
        sorted(s, side),
        ids_distinct(s),
        reserves_ok(s),
        x.order.id == s[0].order.id,
        x.order.price == s[0].order.price,
        match x.reserve {
            Some((d, h)) => d > 0 && h > 0,
            None => true,
        },
    ensures
        fill_keeps(s, s.update(0, x), side),
        sum_by(s.update(0, x), g) + g(s[0]) == sum_by(s, g) + g(x),
{
    let a = s.update(0, x);
    lemma_update_keeps(s, side, 0, x);
    lemma_sum_update(s, 0, x, g);
    assert forall|j: int| 0 <= j < a.len() implies exists|k: int|
        0 <= k < s.len() && (#[trigger] a[j]).order.id == s[k].order.id && a[j].order.price
            == s[k].order.price by {
        assert(a[j].order.id == s[j].order.id && a[j].order.price == s[j].order.price);
    }
}

proof fn lemma_fill_drop(s: Seq<BookEntry>, side: Side, g: spec_fn(BookEntry) -> nat)
    requires
        s.len() > 0,
        sorted(s, side),
        ids_distinct(s),
        reserves_ok(s),
    ensures
        fill_keeps(s, s.remove(0), side),
        sum_by(s.remove(0), g) + g(s[0]) == sum_by(s, g),
{
    let a = s.remove(0);
    lemma_remove_keeps(s, side, 0);
    lemma_sum_remove(s, 0, g);
    assert forall|j: int| 0 <= j < a.len() implies exists|k: int|
        0 <= k < s.len() && (#[trigger] a[j]).order.id == s[k].order.id && a[j].order.price
            == s[k].order.price by {
        assert(a[j] == s[j + 1]);
    }
}

/// The queue after a fill is the queue with its front replaced (or dropped).
pub proof fn lemma_after_fill(s: Seq<BookEntry>, side: Side, traded: Qty, g: spec_fn(BookEntry) -> nat)
    requires
        s.len() > 0,
        traded <= s[0].order.qty,
        sorted(s, side),
        ids_distinct(s),
        reserves_ok(s),
    ensures
        fill_keeps(s, after_fill(s, side, s[0], traded), side),
        sum_by(after_fill(s, side, s[0], traded), g) + g(s[0]) == sum_by(s, g) + opt_g(
            fill_replacement(s[0], traded),
            g,
        ),
{
    let e = s[0];
    lemma_replacement(e, traded);
    let left = (e.order.qty - traded) as u64;
    if left > 0 {
        lemma_fill_update(s, side, fill_replacement(e, traded).unwrap(), g);
    } else {
        match e.reserve {
            Some(_) => {
                lemma_fill_refill(s, side, fill_replacement(e, traded).unwrap(), g);
            },
            None => {
                lemma_fill_drop(s, side, g);
            },
        }
    }
}

/// Removing the entry at `i` of `side` with its volume leaves a valid book.
#[verifier::rlimit(60)]
pub proof fn lemma_remove_inv(m: BookModel, side: Side, i: int)
    requires
        book_inv(m),
        0 <= i < m.side(side).len(),
    ensures
        ({
            let e = m.side(side)[i];
            let m2 = m.with_side(side, m.side(side).remove(i)).with_accounts(
                sub_open_spec(m.accounts, e.order.owner, side, vol(e) as u64),
            );
            &&& book_inv(m2)
            &&& book_volume(m2) + vol(e) == book_volume(m)
            &&& sum_by(m2.side(side), weight_fn()) < sum_by(m.side(side), weight_fn())
            &&& forall|p: Price| all_worse_eq(m.side(side), side, p) ==> all_worse_eq(m2.side(side), side, p)
            &&& forall|k: nat| nets_within(m.accounts, k) ==> nets_within(m2.accounts, k)
        }),
{
    let s = m.side(side);
    let e = s[i];
    let s2 = s.remove(i);
    let m2 = m.with_side(side, s2).with_accounts(
        sub_open_spec(m.accounts, e.order.owner, side, vol(e) as u64),
    );
    lemma_remove_keeps(s, side, i);
    lemma_sum_remove(s, i, vol_fn());
    lemma_sum_elem(s, i, vol_fn());
    lemma_sum_remove(s, i, weight_fn());
    let o_side = m.side(side.opposite());
    assert(ids_disjoint(m2.bids, m2.asks)) by {
        assert forall|a: int, b: int| 0 <= a < s2.len() && 0 <= b < o_side.len() implies (#[trigger] s2[a]).order.id
            != (#[trigger] o_side[b]).order.id by {
            let a0 = if a < i { a } else { a + 1 };
            assert(s2[a] == s[a0]);
        }
    }
    assert forall|o: AccountId| o != 0 && o != e.order.owner implies #[trigger] sum_by(
        s2,
        owner_vol_fn(o),
    ) == sum_by(s, owner_vol_fn(o)) by {
        lemma_sum_remove(s, i, owner_vol_fn(o));
    }
    lemma_sum_remove(s, i, owner_vol_fn(e.order.owner));
    if e.order.owner != 0 {
        assert(state_of(m.accounts, e.order.owner).open_on(side) == sum_by(s, owner_vol_fn(e.order.owner)));
        lemma_sum_elem(s, i, owner_vol_fn(e.order.owner));
    }
    lemma_accounts_shift(m, m2, side, e.order.owner, 0, vol(e));
    assert forall|p: Price| all_worse_eq(s, side, p) implies all_worse_eq(s2, side, p) by {
        assert forall|j: int| 0 <= j < s2.len() implies better_eq(side, p, (#[trigger] s2[j]).order.price) by {
            let j0 = if j < i { j } else { j + 1 };
            assert(s2[j] == s[j0]);
        }
    }
    assert forall|k: nat| nets_within(m.accounts, k) implies nets_within(m2.accounts, k) by {
        assert forall|o: AccountId| #[trigger] m2.accounts.contains_key(o) implies -(i128::MAX - k) <= m2.accounts[o].net <= i128::MAX - k by {
            assert(m.accounts.contains_key(o));
        }
    }
}


/// The accounts after a trade of `traded` between taker `to` on `side` and maker `mo`.
pub open spec fn trade_accounts(
    acc: Map<AccountId, AccountState>,
    to: AccountId,
    side: Side,
    mo: AccountId,
    traded: Qty,
) -> Map<AccountId, AccountState> {
    sub_open_spec(
        fill_spec(fill_spec(acc, to, side, traded), mo, side.opposite(), traded),
        mo,
        side.opposite(),
        traded,
    )
}

pub proof fn lemma_trade_nets(
    acc: Map<AccountId, AccountState>,
    to: AccountId,
    side: Side,
    mo: AccountId,
    traded: Qty,
    q: nat,
)
    requires
        nets_within(acc, q),
        !acc.contains_key(0),
        traded <= q,
        q <= i128::MAX,
    ensures
        nets_within(trade_accounts(acc, to, side, mo, traded), (q - traded) as nat),
        !trade_accounts(acc, to, side, mo, traded).contains_key(0),
        match side {
            Side::Buy => state_of(acc, to).net + traded <= i128::MAX,
            Side::Sell => -i128::MAX <= state_of(acc, to).net - traded,
        },
        match side.opposite() {
            Side::Buy => state_of(fill_spec(acc, to, side, traded), mo).net + traded <= i128::MAX,
            Side::Sell => -i128::MAX <= state_of(fill_spec(acc, to, side, traded), mo).net - traded,
        },
        forall|o: AccountId|
            o != mo ==> (#[trigger] state_of(trade_accounts(acc, to, side, mo, traded), o)).open_buy
                == state_of(acc, o).open_buy && state_of(trade_accounts(acc, to, side, mo, traded), o).open_sell
                == state_of(acc, o).open_sell,
        mo != 0 && traded > 0 ==> trade_accounts(acc, to, side, mo, traded).contains_key(mo),
        state_of(trade_accounts(acc, to, side, mo, traded), mo).open_on(side) == state_of(acc, mo).open_on(side),
        state_of(trade_accounts(acc, to, side, mo, traded), mo).open_on(side.opposite()) == sat_sub_if(
            state_of(acc, mo).open_on(side.opposite()),
            traded,
            mo != 0,
        ),
{
    let a1 = fill_spec(acc, to, side, traded);
    let a2 = fill_spec(a1, mo, side.opposite(), traded);
    let a3 = sub_open_spec(a2, mo, side.opposite(), traded);
    if to != 0 && traded > 0 {
        assert(a1.contains_key(to));
    }
    assert forall|o: AccountId| #[trigger] a3.contains_key(o) implies -(i128::MAX - (q - traded)) <= a3[o].net
        <= i128::MAX - (q - traded) by {
        if acc.contains_key(o) {
            assert(-(i128::MAX - q) <= acc[o].net <= i128::MAX - q);
        }
    }
}

pub open spec fn sat_sub_if(a: Qty, b: Qty, c: bool) -> Qty {
    if c && b > 0 {
        super::accounts::sat_sub(a, b)
    } else {
        a
    }
}

/// What one matching step from `ms` to `n` preserves and how it progresses.
pub open spec fn step_facts(ms: MatchState, n: MatchState, t: Taker, slack: nat) -> bool {
    let ms_side = t.side.opposite();
    &&& book_inv(n.book)
    &&& nets_within(n.book.accounts, n.qty as nat + slack)
    &&& n.qty <= ms.qty
    &&& fills_total(n.fills) + n.qty == fills_total(ms.fills) + ms.qty
    &&& book_volume(n.book) <= book_volume(ms.book)
    &&& n.book.side(t.side) == ms.book.side(t.side)
    &&& forall|id: OrderId| #[trigger] has_id(n.book.side(ms_side), id) ==> has_id(ms.book.side(ms_side), id)
    &&& forall|p: Price|
        all_worse_eq(ms.book.side(ms_side), ms_side, p) ==> all_worse_eq(n.book.side(ms_side), ms_side, p)
    &&& match_done(ms, t) ==> n == ms
    &&& !match_done(ms, t) ==> (sum_by(n.book.side(ms_side), weight_fn()) < sum_by(
        ms.book.side(ms_side),
        weight_fn(),
    ) || (n.stop && !ms.stop && n.book.side(ms_side) == ms.book.side(ms_side)))
    &&& (forall|i: int| 0 <= i < ms.fills.len() ==> crosses(t.side, t.limit, (#[trigger] ms.fills[i]).price))
        ==> (forall|i: int| 0 <= i < n.fills.len() ==> crosses(t.side, t.limit, (#[trigger] n.fills[i]).price))
    &&& n.fills.len() >= ms.fills.len()
    &&& forall|i: int| 0 <= i < ms.fills.len() ==> n.fills[i] == ms.fills[i]
}

/// One matching step keeps the book valid and makes progress.
pub proof fn lemma_step(ms: MatchState, t: Taker, slack: nat)
    requires
        book_inv(ms.book),
        nets_within(ms.book.accounts, ms.qty as nat + slack),
        ms.qty as nat + slack <= i128::MAX,
    ensures
        step_facts(ms, match_step(ms, t), t, slack),
{
    if match_done(ms, t) {
        return ;
    }
    let ms_side = t.side.opposite();
    let m = ms.book;
    let e = m.side(ms_side)[0];
    if self_match(t, e) {
        if t.stp == StpMode::CancelMaker || t.stp == StpMode::CancelBoth {
            lemma_remove_inv(m, ms_side, 0);
            let s0 = m.side(ms_side);
            assert forall|id: OrderId| #[trigger] has_id(s0.remove(0), id) implies has_id(s0, id) by {
                let j = choose|j: int| 0 <= j < s0.remove(0).len() && s0.remove(0)[j].order.id == id;
                assert(s0.remove(0)[j] == s0[j + 1]);
            }
        }
        return ;
    }
    lemma_trade_step(ms, t, slack);
}

#[verifier::rlimit(80)]
proof fn lemma_trade_step(ms: MatchState, t: Taker, slack: nat)
    requires
        book_inv(ms.book),
        nets_within(ms.book.accounts, ms.qty as nat + slack),
        ms.qty as nat + slack <= i128::MAX,
        !match_done(ms, t),
        !self_match(t, ms.book.side(t.side.opposite())[0]),
    ensures
        step_facts(ms, match_step(ms, t), t, slack),
{
    let ms_side = t.side.opposite();
    let m = ms.book;
    let opp = m.side(ms_side);
    let e = opp[0];
    let traded = min_qty(ms.qty, e.order.qty);
    let n = match_step(ms, t);
    let a = after_fill(opp, ms_side, e, traded);
    let rep = fill_replacement(e, traded);
    lemma_replacement(e, traded);
    lemma_after_fill(opp, ms_side, traded, vol_fn());
    lemma_after_fill(opp, ms_side, traded, weight_fn());
    lemma_after_fill(opp, ms_side, traded, owner_vol_fn(e.order.owner));
    lemma_trade_nets(m.accounts, t.owner, t.side, e.order.owner, traded, ms.qty as nat + slack);
    let m2 = n.book;
    assert(m2 == m.with_side(ms_side, a).with_accounts(
        trade_accounts(m.accounts, t.owner, t.side, e.order.owner, traded),
    ));
    // the other side is untouched, so ids stay disjoint
    let o_side = m.side(t.side);
    assert(ids_disjoint(m2.bids, m2.asks)) by {
        assert forall|x: int, y: int| 0 <= x < a.len() && 0 <= y < o_side.len() implies (#[trigger] a[x]).order.id
            != (#[trigger] o_side[y]).order.id by {
            let k = choose|k: int| 0 <= k < opp.len() && a[x].order.id == opp[k].order.id && a[x].order.price == opp[k].order.price;
            assert(opp[k].order.id != o_side[y].order.id);
        }
        if ms_side == Side::Buy {
            assert(ids_disjoint(a, o_side));
        } else {
            assert forall|x: int, y: int| 0 <= x < o_side.len() && 0 <= y < a.len() implies (#[trigger] o_side[x]).order.id
                != (#[trigger] a[y]).order.id by {
                assert(a[y].order.id != o_side[x].order.id);
            }
        }
    }
    // accounts
    assert forall|o: AccountId| o != 0 && o != e.order.owner implies #[trigger] sum_by(
        a,
        owner_vol_fn(o),
    ) == sum_by(opp, owner_vol_fn(o)) by {
        lemma_after_fill(opp, ms_side, traded, owner_vol_fn(o));
    }
    if e.order.owner != 0 {
        assert(state_of(m.accounts, e.order.owner).open_on(ms_side) == sum_by(opp, owner_vol_fn(e.order.owner)));
        lemma_sum_elem(opp, 0, owner_vol_fn(e.order.owner));
    }
    assert(t.side.opposite().opposite() == t.side);
    lemma_accounts_shift(m, m2, ms_side, e.order.owner, 0, traded as nat);
    lemma_sum_concat(m.bids, Seq::empty(), vol_fn());
    // prices only come from the old queue
    assert forall|p: Price| all_worse_eq(opp, ms_side, p) implies all_worse_eq(a, ms_side, p) by {
        assert forall|j: int| 0 <= j < a.len() implies better_eq(ms_side, p, (#[trigger] a[j]).order.price) by {
            let k = choose|k: int| 0 <= k < opp.len() && a[j].order.id == opp[k].order.id && a[j].order.price == opp[k].order.price;
            assert(better_eq(ms_side, p, opp[k].order.price));
        }
    }
    assert forall|id: OrderId| #[trigger] has_id(a, id) implies has_id(opp, id) by {
        let j = choose|j: int| 0 <= j < a.len() && a[j].order.id == id;
        let k = choose|k: int| 0 <= k < opp.len() && a[j].order.id == opp[k].order.id && a[j].order.price == opp[k].order.price;
    }
    assert(n.fills.last().price == e.order.price);
    assert(fills_total(n.fills) == fills_total(ms.fills) + traded) by {
        assert(n.fills.drop_last() =~= ms.fills);
    }
}


/// Facts that hold of every state matching passes through.
pub open spec fn run_facts(ms: MatchState, r: MatchState, t: Taker, slack: nat) -> bool {
    let ms_side = t.side.opposite();
    &&& book_inv(r.book)
    &&& nets_within(r.book.accounts, r.qty as nat + slack)
    &&& forall|id: OrderId| #[trigger] has_id(r.book.side(ms_side), id) ==> has_id(ms.book.side(ms_side), id)
    &&& r.qty <= ms.qty
    &&& fills_total(r.fills) + r.qty == fills_total(ms.fills) + ms.qty
    &&& book_volume(r.book) <= book_volume(ms.book)
    &&& r.book.side(t.side) == ms.book.side(t.side)
    &&& forall|p: Price|
        all_worse_eq(ms.book.side(ms_side), ms_side, p) ==> all_worse_eq(r.book.side(ms_side), ms_side, p)
    &&& (forall|i: int| 0 <= i < ms.fills.len() ==> crosses(t.side, t.limit, (#[trigger] ms.fills[i]).price))
        ==> (forall|i: int| 0 <= i < r.fills.len() ==> crosses(t.side, t.limit, (#[trigger] r.fills[i]).price))
    &&& r.fills.len() >= ms.fills.len()
    &&& forall|i: int| 0 <= i < ms.fills.len() ==> r.fills[i] == ms.fills[i]
}

pub proof fn lemma_run(ms: MatchState, t: Taker, n: nat, slack: nat)
    requires
        book_inv(ms.book),
        nets_within(ms.book.accounts, ms.qty as nat + slack),
        ms.qty as nat + slack <= i128::MAX,
    ensures
        run_facts(ms, match_run(ms, t, n), t, slack),
    decreases n,
{
    if n > 0 {
        lemma_run(ms, t, (n - 1) as nat, slack);
        let prev = match_run(ms, t, (n - 1) as nat);
        lemma_step(prev, t, slack);
    }
}

/// Matching only walks down the book: every execution is at a price no better than the ones
/// before it, and no better than any order still resting on the maker side.
pub open spec fn prices_walk_down(ms: MatchState, t: Taker) -> bool {
    let side = t.side.opposite();
    &&& forall|i: int, j: int|
        0 <= i < j < ms.fills.len() ==> better_eq(side, (#[trigger] ms.fills[i]).price, (#[trigger] ms.fills[j]).price)
    &&& forall|i: int| 0 <= i < ms.fills.len() ==> all_worse_eq(ms.book.side(side), side, (#[trigger] ms.fills[i]).price)
}

/// Price law of matching: from a book with no executions yet, the executions of a match come
/// best price first, each at a price no better than the one before.
pub proof fn lemma_prices_walk_down(ms: MatchState, t: Taker, n: nat, slack: nat)
    requires
        book_inv(ms.book),
        nets_within(ms.book.accounts, ms.qty as nat + slack),
        ms.qty as nat + slack <= i128::MAX,
        ms.fills.len() == 0,
    ensures
        prices_walk_down(match_run(ms, t, n), t),
    decreases n,
{
    if n > 0 {
        lemma_prices_walk_down(ms, t, (n - 1) as nat, slack);
        lemma_run(ms, t, (n - 1) as nat, slack);
        let prev = match_run(ms, t, (n - 1) as nat);
        let next = match_step(prev, t);
        lemma_step(prev, t, slack);
        let side = t.side.opposite();
        if !match_done(prev, t) {
            let opp = prev.book.side(side);
            let e = opp[0];
            assert(sorted(opp, side)) by {
                match side {
                    Side::Buy => {},
                    Side::Sell => {},
                }
            }
            assert(all_worse_eq(opp, side, e.order.price)) by {
                assert forall|j: int| 0 <= j < opp.len() implies better_eq(side, e.order.price, (#[trigger] opp[j]).order.price) by {
                    if j > 0 {
                        assert(better_eq(side, opp[0].order.price, opp[j].order.price));
                    }
                }
            }
            if !self_match(t, e) {
                assert(next.fills == prev.fills.push(next.fills.last()));
                assert(next.fills.last().price == e.order.price);
                assert forall|i: int| 0 <= i < prev.fills.len() implies better_eq(side, (#[trigger] prev.fills[i]).price, e.order.price) by {
                    assert(all_worse_eq(opp, side, prev.fills[i].price));
                    assert(better_eq(side, prev.fills[i].price, opp[0].order.price));
                }
                assert forall|i: int, j: int| 0 <= i < j < next.fills.len() implies better_eq(
                    side,
                    (#[trigger] next.fills[i]).price,
                    (#[trigger] next.fills[j]).price,
                ) by {
                    if j < prev.fills.len() {
                        assert(next.fills[i] == prev.fills[i] && next.fills[j] == prev.fills[j]);
                    } else {
                        assert(next.fills[i] == prev.fills[i]);
                    }
                }
                assert forall|i: int| 0 <= i < next.fills.len() implies all_worse_eq(next.book.side(side), side, (#[trigger] next.fills[i]).price) by {
                    if i < prev.fills.len() {
                        assert(next.fills[i] == prev.fills[i]);
                        assert(all_worse_eq(opp, side, prev.fills[i].price));
                    } else {
                        assert(next.fills[i].price == e.order.price);
                    }
                }
            } else {
                assert forall|i: int| 0 <= i < next.fills.len() implies all_worse_eq(next.book.side(side), side, (#[trigger] next.fills[i]).price) by {
                    assert(next.fills[i] == prev.fills[i]);
                    assert(all_worse_eq(opp, side, prev.fills[i].price));
                }
            }
        }
    }
}

/// Some order of `s` with an id in `ids` rests at `p`.
pub open spec fn pulled_at(s: Seq<BookEntry>, ids: Seq<OrderId>, p: Price) -> bool {
    exists|i: int, j: int| 0 <= i < s.len() && 0 <= j < ids.len() && s[i].order.id == ids[j] && s[i].order.price == p
}

/// Some execution of `fills` is at `p`.
pub open spec fn filled_at(fills: Seq<Fill>, p: Price) -> bool {
    exists|i: int| 0 <= i < fills.len() && fills[i].price == p
}

/// What a match in progress has changed of the book it started from.
pub open spec fn match_frame(start: MatchState, ms: MatchState, t: Taker) -> bool {
    let side = t.side.opposite();
    &&& ms.book.side(t.side) == start.book.side(t.side)
    &&& forall|j: int|
        0 <= j < ms.book.side(side).len() ==> exists|k: int|
            0 <= k < start.book.side(side).len() && (#[trigger] ms.book.side(side)[j]).order.id
                == start.book.side(side)[k].order.id && ms.book.side(side)[j].order.price
                == start.book.side(side)[k].order.price
    &&& forall|p: Price|
        !filled_at(ms.fills, p) && !pulled_at(start.book.side(side), ms.self_canceled, p) ==> #[trigger] sum_by(
            ms.book.side(side),
            level_fn(p),
        ) == sum_by(start.book.side(side), level_fn(p))
}

/// Level law of matching: a match leaves the taker's side as it was, and on the maker's side
/// it changes the visible quantity only at prices where it executed or where it pulled one
/// of the taker's own resting orders.
#[verifier::rlimit(80)]
pub proof fn lemma_match_levels(start: MatchState, t: Taker, n: nat, slack: nat)
    requires
        book_inv(start.book),
        nets_within(start.book.accounts, start.qty as nat + slack),
        start.qty as nat + slack <= i128::MAX,
        start.fills.len() == 0,
        start.self_canceled.len() == 0,
    ensures
        match_frame(start, match_run(start, t, n), t),
    decreases n,
{
    let side = t.side.opposite();
    if n == 0 {
        assert forall|p: Price| !filled_at(start.fills, p) && !pulled_at(start.book.side(side), start.self_canceled, p)
            implies #[trigger] sum_by(start.book.side(side), level_fn(p)) == sum_by(start.book.side(side), level_fn(p)) by {}
        assert forall|j: int| 0 <= j < start.book.side(side).len() implies exists|k: int|
            0 <= k < start.book.side(side).len() && (#[trigger] start.book.side(side)[j]).order.id
                == start.book.side(side)[k].order.id && start.book.side(side)[j].order.price
                == start.book.side(side)[k].order.price by {}
    } else {
        lemma_match_levels(start, t, (n - 1) as nat, slack);
        lemma_run(start, t, (n - 1) as nat, slack);
        let prev = match_run(start, t, (n - 1) as nat);
        let next = match_step(prev, t);
        lemma_step(prev, t, slack);
        if !match_done(prev, t) {
            let opp = prev.book.side(side);
            let e = opp[0];
            let s0 = start.book.side(side);
            assert(sorted(opp, side) && ids_distinct(opp) && reserves_ok(opp)) by {
                match side {
                    Side::Buy => {},
                    Side::Sell => {},
                }
            }
            let k0 = choose|k: int| 0 <= k < s0.len() && opp[0].order.id == s0[k].order.id && opp[0].order.price == s0[k].order.price;
            if self_match(t, e) {
                if t.stp == StpMode::CancelMaker || t.stp == StpMode::CancelBoth {
                    let nb = next.book.side(side);
                    assert(nb == opp.remove(0));
                    assert(next.self_canceled == prev.self_canceled.push(e.order.id));
                    assert forall|j: int| 0 <= j < nb.len() implies exists|k: int|
                        0 <= k < s0.len() && (#[trigger] nb[j]).order.id == s0[k].order.id && nb[j].order.price == s0[k].order.price by {
                        assert(nb[j] == opp[j + 1]);
                    }
                    assert(pulled_at(s0, next.self_canceled, e.order.price)) by {
                        assert(next.self_canceled[prev.self_canceled.len() as int] == e.order.id);
                    }
                    assert forall|p: Price| !filled_at(next.fills, p) && !pulled_at(s0, next.self_canceled, p)
                        implies #[trigger] sum_by(nb, level_fn(p)) == sum_by(s0, level_fn(p)) by {
                        assert(next.fills == prev.fills);
                        if pulled_at(s0, prev.self_canceled, p) {
                            let (i, j) = choose|i: int, j: int| 0 <= i < s0.len() && 0 <= j < prev.self_canceled.len()
                                && s0[i].order.id == prev.self_canceled[j] && s0[i].order.price == p;
                            assert(next.self_canceled[j] == prev.self_canceled[j]);
                        }
                        lemma_sum_remove(opp, 0, level_fn(p));
                        assert(p != e.order.price);
                        assert(sum_by(opp, level_fn(p)) == sum_by(s0, level_fn(p)));
                    }
                } else {
                    assert(next.book == prev.book && next.fills == prev.fills && next.self_canceled == prev.self_canceled);
                }
            } else {
                let traded = min_qty(prev.qty, e.order.qty);
                let nb = next.book.side(side);
                assert(nb == after_fill(opp, side, e, traded));
                assert(next.self_canceled == prev.self_canceled);
                assert(next.fills.last().price == e.order.price);
                assert(filled_at(next.fills, e.order.price)) by {
                    assert(next.fills[next.fills.len() - 1].price == e.order.price);
                }
                lemma_after_fill(opp, side, traded, level_fn(e.order.price));
                assert forall|p: Price| !filled_at(next.fills, p) && !pulled_at(s0, next.self_canceled, p)
                    implies #[trigger] sum_by(nb, level_fn(p)) == sum_by(s0, level_fn(p)) by {
                    if filled_at(prev.fills, p) {
                        let i = choose|i: int| 0 <= i < prev.fills.len() && prev.fills[i].price == p;
                        assert(next.fills[i] == prev.fills[i]);
                    }
                    lemma_after_fill(opp, side, traded, level_fn(p));
                    lemma_replacement(e, traded);
                    assert(p != e.order.price);
                    assert(sum_by(opp, level_fn(p)) == sum_by(s0, level_fn(p)));
                }
                lemma_after_fill(opp, side, traded, vol_fn());
                assert forall|j: int| 0 <= j < nb.len() implies exists|k: int|
                    0 <= k < s0.len() && (#[trigger] nb[j]).order.id == s0[k].order.id && nb[j].order.price == s0[k].order.price by {
                    let k1 = choose|k: int| 0 <= k < opp.len() && nb[j].order.id == opp[k].order.id && nb[j].order.price == opp[k].order.price;
                    assert(opp[k1] == opp[k1]);
                }
            }
        }
    }
}

/// Where matching from `start` stops.
pub open spec fn match_final(start: MatchState, t: Taker) -> MatchState {
    match_run(start, t, choose|n: nat| match_done(#[trigger] match_run(start, t, n), t))
}

pub proof fn lemma_match_final(start: MatchState, t: Taker, fin: MatchState)
    requires
        match_result(start, t, fin),
    ensures
        fin == match_final(start, t),
        match_done(fin, t),
{
    let n = choose|n: nat| fin == match_run(start, t, n) && match_done(fin, t);
    assert(match_done(match_run(start, t, n), t));
    let k = choose|k: nat| match_done(#[trigger] match_run(start, t, k), t);
    assert(match_result(start, t, match_run(start, t, k)));
    lemma_match_result_unique(start, t, fin, match_run(start, t, k));
}


/// Resting a fresh order adds its quantity to the book, makes its id known, and leaves it
/// without a reserve.
pub proof fn lemma_insert_facts(m: BookModel, side: Side, order: RestingOrder)
    requires
        book_inv(m),
        book_inv(insert_spec(m, side, order)),
        !contains_spec(m, order.id),
    ensures
        book_volume(insert_spec(m, side, order)) == book_volume(m) + order.qty,
        forall|id: OrderId|
            #[trigger] contains_spec(insert_spec(m, side, order), id) <==> (contains_spec(m, id) || id == order.id),
        locate(insert_spec(m, side, order), order.id) is Some,
        reserve_spec(insert_spec(m, side, order), order.id) is None,
{
    let m2 = insert_spec(m, side, order);
    let s = m.side(side);
    let e = BookEntry { order, reserve: None };
    let k = insert_pos(s, side, order.price);
    lemma_insert_pos(s, side, order.price);
    let s2 = s.insert(k, e);
    assert(m2.side(side) == s2);
    assert(m2.side(side.opposite()) == m.side(side.opposite()));
    lemma_sum_insert(s, k, e, vol_fn());
    assert(s2[k] == e);
    assert forall|id: OrderId| #[trigger] has_id(s2, id) <==> (has_id(s, id) || id == order.id) by {
        if has_id(s2, id) {
            let j = choose|j: int| 0 <= j < s2.len() && s2[j].order.id == id;
            if j < k {
                assert(s2[j] == s[j]);
            } else if j > k {
                assert(s2[j] == s[j - 1]);
            }
        }
        if has_id(s, id) {
            let j = choose|j: int| 0 <= j < s.len() && s[j].order.id == id;
            if j < k {
                assert(s2[j] == s[j]);
            } else {
                assert(s2[j + 1] == s[j]);
            }
        }
        if id == order.id {
            assert(s2[k].order.id == id);
        }
    }
    assert forall|id: OrderId|
        #[trigger] contains_spec(m2, id) <==> (contains_spec(m, id) || id == order.id) by {
        if side == Side::Buy {
            assert(has_id(s2, id) <==> (has_id(s, id) || id == order.id));
        } else {
            assert(has_id(s2, id) <==> (has_id(s, id) || id == order.id));
        }
    }
    lemma_index_of_id(s2, k);
    if side == Side::Sell {
        assert(!has_id(m2.bids, order.id));
    }
}

/// Giving a plain resting order a reserve adds the hidden quantity to the book and keeps
/// the set of ids.
pub proof fn lemma_add_reserve_facts(m: BookModel, id: OrderId, display: Qty, hidden: Qty)
    requires
        locate(m, id) is Some,
        reserve_spec(m, id) is None,
    ensures
        book_volume(add_reserve_spec(m, id, display, hidden)) == book_volume(m) + hidden,
        forall|x: OrderId| #[trigger] contains_spec(add_reserve_spec(m, id, display, hidden), x) <==> contains_spec(m, x),
{
    let (side, i) = locate(m, id).unwrap();
    let s = m.side(side);
    if side == Side::Buy {
        assert(has_id(m.bids, id));
    } else {
        assert(has_id(m.asks, id));
    }
    assert(0 <= i < s.len());
    let e = s[i];
    let e2 = BookEntry { reserve: Some((display, hidden)), ..e };
    let s2 = s.update(i, e2);
    lemma_sum_update(s, i, e2, vol_fn());
    assert forall|x: OrderId| #[trigger] has_id(s2, x) <==> has_id(s, x) by {
        if has_id(s2, x) {
            let j = choose|j: int| 0 <= j < s2.len() && s2[j].order.id == x;
            assert(s[j].order.id == x);
        }
        if has_id(s, x) {
            let j = choose|j: int| 0 <= j < s.len() && s[j].order.id == x;
            assert(s2[j].order.id == x);
        }
    }
    let m2 = add_reserve_spec(m, id, display, hidden);
    assert(m2.side(side) == s2);
    assert(m2.side(side.opposite()) == m.side(side.opposite()));
}

/// Cancelling an order takes its volume out of the book and its id out of the known ids.
pub proof fn lemma_cancel_facts(m: BookModel, id: OrderId)
    requires
        book_inv(m),
    ensures
        book_volume(cancel_spec(m, id).0) <= book_volume(m),
        cancel_spec(m, id).1 matches Some(o) ==> book_volume(cancel_spec(m, id).0) + o.qty <= book_volume(m),
        !contains_spec(cancel_spec(m, id).0, id),
        forall|x: OrderId| #[trigger] contains_spec(cancel_spec(m, id).0, x) ==> contains_spec(m, x),
        cancel_spec(m, id).1 is Some <==> contains_spec(m, id),
{
    match locate(m, id) {
        None => {},
        Some((side, i)) => {
            let s = m.side(side);
            if side == Side::Buy {
                assert(has_id(m.bids, id));
            } else {
                assert(has_id(m.asks, id));
            }
            assert(0 <= i < s.len() && s[i].order.id == id);
            let s2 = s.remove(i);
            lemma_sum_remove(s, i, vol_fn());
            let m2 = cancel_spec(m, id).0;
            assert(m2.side(side) == s2);
            assert(m2.side(side.opposite()) == m.side(side.opposite()));
            assert forall|x: OrderId| #[trigger] has_id(s2, x) implies has_id(s, x) && x != id by {
                let j = choose|j: int| 0 <= j < s2.len() && s2[j].order.id == x;
                if j < i {
                    assert(s2[j] == s[j]);
                    assert(s[j].order.id != s[i].order.id);
                } else {
                    assert(s2[j] == s[j + 1]);
                    assert(s[i].order.id != s[j + 1].order.id);
                }
            }
            assert forall|x: OrderId| #[trigger] contains_spec(m2, x) implies contains_spec(m, x) by {
                if side == Side::Buy {
                    if has_id(m2.bids, x) {
                        assert(has_id(s2, x));
                    }
                } else {
                    if has_id(m2.asks, x) {
                        assert(has_id(s2, x));
                    }
                }
            }
            let t = m.side(side.opposite());
            assert(!has_id(t, id)) by {
                if has_id(t, id) {
                    let j = choose|j: int| 0 <= j < t.len() && t[j].order.id == id;
                    if side == Side::Buy {
                        assert(s[i].order.id != t[j].order.id);
                    } else {
                        assert(t[j].order.id != s[i].order.id);
                    }
                }
            }
            assert(!has_id(s2, id));
        },
    }
}


/// Shrinking an order in place lowers the volume of the book and keeps its ids.
pub proof fn lemma_reduce_facts(m: BookModel, id: OrderId, new_qty: Qty)
    ensures
        book_volume(reduce_spec(m, id, new_qty).0) <= book_volume(m),
        forall|x: OrderId| #[trigger] contains_spec(reduce_spec(m, id, new_qty).0, x) <==> contains_spec(m, x),
{
    match locate(m, id) {
        None => {},
        Some((side, i)) => {
            let s = m.side(side);
            if side == Side::Buy {
                assert(has_id(m.bids, id));
            } else {
                assert(has_id(m.asks, id));
            }
            assert(0 <= i < s.len());
            let e = s[i];
            if new_qty < e.order.qty {
                let e2 = BookEntry { order: RestingOrder { qty: new_qty, ..e.order }, ..e };
                let s2 = s.update(i, e2);
                lemma_sum_update(s, i, e2, vol_fn());
                assert forall|x: OrderId| #[trigger] has_id(s2, x) <==> has_id(s, x) by {
                    if has_id(s2, x) {
                        let j = choose|j: int| 0 <= j < s2.len() && s2[j].order.id == x;
                        assert(s[j].order.id == x);
                    }
                    if has_id(s, x) {
                        let j = choose|j: int| 0 <= j < s.len() && s[j].order.id == x;
                        assert(s2[j].order.id == x);
                    }
                }
                let m2 = reduce_spec(m, id, new_qty).0;
                assert(m2.side(side) == s2);
                assert(m2.side(side.opposite()) == m.side(side.opposite()));
            }
        },
    }
}

} // verus!

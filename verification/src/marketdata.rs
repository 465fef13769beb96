use vstd::prelude::*;

use std::collections::HashMap;

use crate::book::model::{
    better_eq, lemma_levels_bound, sorted, visible_fn,
    book_inv, contains_spec, entries_of, get_spec, has_id, lemma_index_of_id, lemma_sum_concat,
    lemma_sum_le, lemma_sum_take, lemma_sum_zero, level_fn, levels_of, sum_by, vol_fn, BookEntry,
    BookModel,
};
use crate::book::OrderBook;
use crate::clob::Clob;
use crate::output::Event;
use crate::types::{OrderId, Price, Qty, SeqNum, Side};

verus! {

broadcast use vstd::std_specs::hash::group_hash_axioms;

/// One aggregated price level.
#[derive(Clone, Copy, Debug, PartialEq, Eq, Structural)]
pub struct L2Level {
    pub price: Price,
    pub qty: Qty,
}

/// The aggregated book, best levels first, as of command `seq`.
#[derive(Clone, Debug, PartialEq, Eq)]
pub struct L2Snapshot {
    pub seq: SeqNum,
    pub bids: Vec<L2Level>,
    pub asks: Vec<L2Level>,
}

/// One resting order as market-by-order data shows it (its visible quantity).
#[derive(Clone, Copy, Debug, PartialEq, Eq, Structural)]
pub struct L3Order {
    pub id: OrderId,
    pub side: Side,
    pub price: Price,
    pub qty: Qty,
}

/// Every resting order in priority order, as of command `seq`.
#[derive(Clone, Debug, PartialEq, Eq)]
pub struct L3Snapshot {
    pub seq: SeqNum,
    pub bids: Vec<L3Order>,
    pub asks: Vec<L3Order>,
}

/// The changed price levels of one command; a level with quantity zero is gone.
#[derive(Clone, Debug, PartialEq, Eq)]
pub struct L2Update {
    pub seq: SeqNum,
    pub bids: Vec<L2Level>,
    pub asks: Vec<L2Level>,
}

/// The levels of a depth view as `L2Level`s.
pub open spec fn l2_of(levels: Seq<(Price, nat)>) -> Seq<L2Level> {
    levels.map_values(|l: (Price, nat)| L2Level { price: l.0, qty: l.1 as u64 })
}

/// The orders of a queue as `L3Order`s.
pub open spec fn l3_of(s: Seq<BookEntry>, side: Side) -> Seq<L3Order> {
    s.map_values(|e: BookEntry| L3Order { id: e.order.id, side, price: e.order.price, qty: e.order.qty })
}

/// The sequence number of a command's events: that of the first one, or zero for none.
pub open spec fn command_seq_spec(events: Seq<Event>) -> SeqNum {
    if events.len() == 0 {
        0
    } else {
        events[0].seq_of()
    }
}

/// The sequence number an event carries.
pub fn event_seq(event: &Event) -> (r: SeqNum)
    ensures
        r == event.seq_of(),
{
    match *event {
        Event::Accepted { seq, .. } => seq,
        Event::Rejected { seq, .. } => seq,
        Event::Trade { seq, .. } => seq,
        Event::Resting { seq, .. } => seq,
        Event::Filled { seq, .. } => seq,
        Event::Canceled { seq, .. } => seq,
        Event::Modified { seq, .. } => seq,
        Event::Triggered { seq, .. } => seq,
    }
}

/// The sequence number of one command's events.
pub fn command_seq(events: &[Event]) -> (r: SeqNum)
    ensures
        r == command_seq_spec(events@),
{
    if events.len() == 0 {
        0
    } else {
        event_seq(&events[0])
    }
}

/// Channel law: when every event of a command carries its sequence number (as `submit`
/// ensures), the increments and prints of that command are stamped with it too.
pub proof fn lemma_command_seq(events: Seq<Event>, seq: SeqNum)
    requires
        events.len() > 0,
        crate::output::all_tagged(events, seq),
    ensures
        command_seq_spec(events) == seq,
{
    assert(events[0].seq_of() == seq);
}

fn to_l2(levels: Vec<(Price, Qty)>) -> (r: Vec<L2Level>)
    ensures
        r@.len() == levels@.len(),
        forall|k: int| 0 <= k < r@.len() ==> (#[trigger] r@[k]) == (L2Level { price: levels@[k].0, qty: levels@[k].1 }),
{
    let mut out: Vec<L2Level> = Vec::new();
    let mut i: usize = 0;
    while i < levels.len()
        invariant
            i <= levels@.len(),
            out@.len() == i,
            forall|k: int| 0 <= k < i ==> (#[trigger] out@[k]) == (L2Level { price: levels@[k].0, qty: levels@[k].1 }),
        decreases levels@.len() - i,
    {
        out.push(L2Level { price: levels[i].0, qty: levels[i].1 });
        i = i + 1;
    }
    out
}

impl Clob {
    /// The aggregated book down to `depth` levels per side, as of the last command.
    pub fn l2_snapshot(&self, depth: usize) -> (r: L2Snapshot)
        requires
            self.wf(),
        ensures
            r.seq == self@.seq,
            r.bids@ == l2_of(levels_of(self@.engine.book.bids)).take(
                if depth < levels_of(self@.engine.book.bids).len() { depth as int } else { levels_of(self@.engine.book.bids).len() as int },
            ),
            r.asks@ == l2_of(levels_of(self@.engine.book.asks)).take(
                if depth < levels_of(self@.engine.book.asks).len() { depth as int } else { levels_of(self@.engine.book.asks).len() as int },
            ),
    {
        let book = self.book();
        let bids = to_l2(book.depth(Side::Buy, depth));
        let asks = to_l2(book.depth(Side::Sell, depth));
        proof {
            let b = self@.engine.book;
            assert(bids@ =~= l2_of(levels_of(b.bids)).take(bids@.len() as int));
            assert(asks@ =~= l2_of(levels_of(b.asks)).take(asks@.len() as int));
        }
        L2Snapshot { seq: self.current_seq(), bids, asks }
    }

    /// Every resting order with its visible quantity, bids and asks each in priority order,
    /// as of the last command.
    pub fn l3_snapshot(&self) -> (r: L3Snapshot)
        requires
            self.wf(),
        ensures
            r.seq == self@.seq,
            r.bids@ == l3_of(self@.engine.book.bids, Side::Buy),
            r.asks@ == l3_of(self@.engine.book.asks, Side::Sell),
    {
        let entries = self.book().resting_orders();
        let ghost b = self@.engine.book;
        let ghost nb = b.bids.len();
        let mut bids: Vec<L3Order> = Vec::new();
        let mut asks: Vec<L3Order> = Vec::new();
        let mut i: usize = 0;
        while i < entries.len()
            invariant
                entries@ == entries_of(b.bids, Side::Buy) + entries_of(b.asks, Side::Sell),
                nb == b.bids.len(),
                i <= entries@.len(),
                i <= nb ==> bids@ == l3_of(b.bids.take(i as int), Side::Buy) && asks@.len() == 0,
                i > nb ==> bids@ == l3_of(b.bids, Side::Buy) && asks@ == l3_of(b.asks.take(i - nb), Side::Sell),
            decreases entries@.len() - i,
        {
            let (side, order, _) = entries[i];
            let entry = L3Order { id: order.id, side, price: order.price, qty: order.qty };
            proof {
                assert(entries@.len() == nb + b.asks.len());
                if i < nb {
                    assert(entries@[i as int] == (Side::Buy, b.bids[i as int].order, b.bids[i as int].reserve));
                } else {
                    assert(entries@[i as int] == (Side::Sell, b.asks[i - nb].order, b.asks[i - nb].reserve));
                }
            }
            match side {
                Side::Buy => {
                    bids.push(entry);
                },
                Side::Sell => {
                    asks.push(entry);
                },
            }
            proof {
                if i < nb {
                    assert(l3_of(b.bids.take(i + 1), Side::Buy) =~= l3_of(b.bids.take(i as int), Side::Buy).push(entry));
                    if i + 1 == nb {
                        assert(b.bids.take(i + 1) =~= b.bids);
                        assert(b.asks.take(0) =~= Seq::<BookEntry>::empty());
                        assert(asks@ =~= l3_of(b.asks.take(0), Side::Sell));
                    }
                } else {
                    assert(l3_of(b.asks.take(i + 1 - nb), Side::Sell) =~= l3_of(b.asks.take(i - nb), Side::Sell).push(entry));
                }
            }
            i = i + 1;
        }
        proof {
            if nb == entries@.len() {
                assert(b.bids.take(nb as int) =~= b.bids);
                assert(b.asks.len() == 0);
                assert(asks@ =~= l3_of(b.asks, Side::Sell));
            } else {
                assert(b.asks.take(i - nb) =~= b.asks);
            }
        }
        L3Snapshot { seq: self.current_seq(), bids, asks }
    }
}


/// What a command's events tell the feed: where it last saw each order, and the bid and
/// ask prices the command touched.
pub struct Touched {
    pub loc: Map<OrderId, (Side, Price)>,
    pub bids: Set<Price>,
    pub asks: Set<Price>,
}

pub open spec fn touch(t: Touched, side: Side, price: Price) -> Touched {
    match side {
        Side::Buy => Touched { bids: t.bids.insert(price), ..t },
        Side::Sell => Touched { asks: t.asks.insert(price), ..t },
    }
}

/// An order that left the book: its level is touched and its place forgotten.
pub open spec fn forget(t: Touched, id: OrderId) -> Touched {
    if t.loc.contains_key(id) {
        touch(Touched { loc: t.loc.remove(id), ..t }, t.loc[id].0, t.loc[id].1)
    } else {
        t
    }
}

/// One event: an execution touches the maker's level (and forgets a maker that is gone);
/// a resting order is placed; an amendment touches the order's old level; a cancel or a
/// fill forgets the order.
pub open spec fn l2_scan_event(t: Touched, e: Event, b: BookModel) -> Touched {
    match e {
        Event::Trade { maker_order_id, price, taker_side, .. } => {
            let t1 = touch(t, taker_side.opposite(), price);
            if get_spec(b, maker_order_id) is None {
                Touched { loc: t1.loc.remove(maker_order_id), ..t1 }
            } else {
                t1
            }
        },
        Event::Resting { order_id, price, .. } => match get_spec(b, order_id) {
            Some((side, _)) => touch(Touched { loc: t.loc.insert(order_id, (side, price)), ..t }, side, price),
            None => t,
        },
        Event::Modified { order_id, .. } => if t.loc.contains_key(order_id) {
            touch(t, t.loc[order_id].0, t.loc[order_id].1)
        } else {
            t
        },
        Event::Canceled { order_id, .. } => forget(t, order_id),
        Event::Filled { order_id, .. } => forget(t, order_id),
        _ => t,
    }
}

pub open spec fn l2_scan(t: Touched, events: Seq<Event>, b: BookModel) -> Touched
    decreases events.len(),
{
    if events.len() == 0 {
        t
    } else {
        l2_scan_event(l2_scan(t, events.drop_last(), b), events.last(), b)
    }
}

/// The visible quantity the book has at `p` on `side`.
pub open spec fn level_now(b: BookModel, side: Side, p: Price) -> nat {
    sum_by(b.side(side), level_fn(p))
}

/// The quantity a level map shows at `p` (zero when absent).
pub open spec fn level_was(levels: Map<Price, Qty>, p: Price) -> nat {
    if levels.contains_key(p) {
        levels[p] as nat
    } else {
        0
    }
}

/// The level map after re-reading the touched prices from the book: a touched level whose
/// quantity changed takes the book's quantity, or goes when that is zero.
pub open spec fn diff_map(levels: Map<Price, Qty>, touched: Set<Price>, b: BookModel, side: Side) -> Map<Price, Qty> {
    Map::new(
        |p: Price|
            if touched.contains(p) && level_was(levels, p) != level_now(b, side, p) {
                level_now(b, side, p) > 0
            } else {
                levels.contains_key(p)
            },
        |p: Price|
            if touched.contains(p) && level_was(levels, p) != level_now(b, side, p) {
                level_now(b, side, p) as u64
            } else {
                levels[p]
            },
    )
}

/// Feed law: after an update, every level the command touched shows what the book shows
/// at that price, and every level it did not touch is as it was.
pub proof fn lemma_diff_levels(levels: Map<Price, Qty>, touched: Set<Price>, b: BookModel, side: Side, p: Price)
    requires
        level_now(b, side, p) <= u64::MAX,
    ensures
        touched.contains(p) ==> level_was(diff_map(levels, touched, b, side), p) == level_now(b, side, p),
        !touched.contains(p) ==> (diff_map(levels, touched, b, side).contains_key(p) == levels.contains_key(p)
            && (levels.contains_key(p) ==> diff_map(levels, touched, b, side)[p] == levels[p])),
{
}

/// `a` comes before `b` on `side`: bids from high to low, asks from low to high.
pub open spec fn in_side_order(side: Side, a: Price, b: Price) -> bool {
    match side {
        Side::Buy => a > b,
        Side::Sell => a < b,
    }
}

pub open spec fn side_sorted(v: Seq<Price>, side: Side) -> bool {
    forall|i: int, j: int| 0 <= i < j < v.len() ==> in_side_order(side, #[trigger] v[i], #[trigger] v[j])
}

/// `out` lists, best first, exactly the touched levels whose quantity changed, with their
/// new quantity.
pub open spec fn diff_out_ok(out: Seq<L2Level>, levels: Map<Price, Qty>, touched: Set<Price>, b: BookModel, side: Side) -> bool {
    &&& forall|i: int, j: int| 0 <= i < j < out.len() ==> in_side_order(side, (#[trigger] out[i]).price, (#[trigger] out[j]).price)
    &&& forall|i: int|
        0 <= i < out.len() ==> touched.contains((#[trigger] out[i]).price) && level_was(levels, out[i].price)
            != level_now(b, side, out[i].price) && out[i].qty == level_now(b, side, out[i].price)
    &&& forall|p: Price|
        touched.contains(p) && level_was(levels, p) != level_now(b, side, p) ==> exists|i: int|
            0 <= i < out.len() && (#[trigger] out[i]).price == p
}

fn in_side_order_exec(side: Side, a: Price, b: Price) -> (r: bool)
    ensures
        r == in_side_order(side, a, b),
{
    match side {
        Side::Buy => a > b,
        Side::Sell => a < b,
    }
}

/// Adds `p` to a list of prices kept in side order without repeats.
fn touch_price(v: &mut Vec<Price>, side: Side, p: Price)
    requires
        side_sorted(old(v)@, side),
    ensures
        side_sorted(final(v)@, side),
        final(v)@.to_set() == old(v)@.to_set().insert(p),
{
    let mut k: usize = 0;
    while k < v.len() && in_side_order_exec(side, v[k], p)
        invariant
            k <= v@.len(),
            v@ == old(v)@,
            forall|j: int| 0 <= j < k ==> in_side_order(side, #[trigger] v@[j], p),
        decreases v@.len() - k,
    {
        k = k + 1;
    }
    if k < v.len() && v[k] == p {
        proof {
            assert(v@.to_set() =~= old(v)@.to_set().insert(p)) by {
                assert(v@[k as int] == p);
                assert(v@.contains(p));
            }
        }
        return;
    }
    let ghost s0 = v@;
    v.insert(k, p);
    proof {
        let s1 = v@;
        assert(s1 =~= s0.insert(k as int, p));
        assert forall|i: int, j: int| 0 <= i < j < s1.len() implies in_side_order(side, #[trigger] s1[i], #[trigger] s1[j]) by {
            if j < k {
                assert(s1[i] == s0[i] && s1[j] == s0[j]);
            } else if j == k {
                assert(s1[i] == s0[i]);
            } else if i < k {
                assert(s1[i] == s0[i] && s1[j] == s0[j - 1]);
                assert(!in_side_order(side, s0[k as int], p) && s0[k as int] != p);
                if j - 1 > k {
                    assert(in_side_order(side, s0[k as int], s0[j - 1]));
                }
            } else if i == k {
                assert(s1[j] == s0[j - 1]);
                assert(!in_side_order(side, s0[k as int], p) && s0[k as int] != p);
                if j - 1 > k {
                    assert(in_side_order(side, s0[k as int], s0[j - 1]));
                }
            } else {
                assert(s1[i] == s0[i - 1] && s1[j] == s0[j - 1]);
            }
        }
        assert forall|x: Price| #[trigger] s1.contains(x) <==> s0.contains(x) || x == p by {
            if s1.contains(x) {
                let j = choose|j: int| 0 <= j < s1.len() && s1[j] == x;
                if j < k {
                    assert(s0[j] == x);
                } else if j > k {
                    assert(s0[j - 1] == x);
                }
            }
            if s0.contains(x) {
                let j = choose|j: int| 0 <= j < s0.len() && s0[j] == x;
                if j < k {
                    assert(s1[j] == x);
                } else {
                    assert(s1[j + 1] == x);
                }
            }
            if x == p {
                assert(s1[k as int] == p);
            }
        }
        assert(s1.to_set() =~= s0.to_set().insert(p));
    }
}

pub(crate) fn touch_side(bids: &mut Vec<Price>, asks: &mut Vec<Price>, side: Side, p: Price)
    requires
        side_sorted(old(bids)@, Side::Buy),
        side_sorted(old(asks)@, Side::Sell),
    ensures
        side_sorted(final(bids)@, Side::Buy),
        side_sorted(final(asks)@, Side::Sell),
        side == Side::Buy ==> final(bids)@.to_set() == old(bids)@.to_set().insert(p) && final(asks)@ == old(asks)@,
        side == Side::Sell ==> final(asks)@.to_set() == old(asks)@.to_set().insert(p) && final(bids)@ == old(bids)@,
{
    match side {
        Side::Buy => touch_price(bids, Side::Buy, p),
        Side::Sell => touch_price(asks, Side::Sell, p),
    }
}

/// Re-reads the touched levels of `side` from the book, updating `levels`, and lists the
/// changed ones best first.
fn diff_side(levels: &mut HashMap<Price, Qty>, book: &OrderBook, side: Side, touched: &Vec<Price>) -> (out: Vec<L2Level>)
    requires
        book.wf(),
        side_sorted(touched@, side),
    ensures
        final(levels)@ == diff_map(old(levels)@, touched@.to_set(), book@, side),
        diff_out_ok(out@, old(levels)@, touched@.to_set(), book@, side),
{
    let ghost l0 = levels@;
    let mut out: Vec<L2Level> = Vec::new();
    let mut i: usize = 0;
    proof {
        assert(levels@ =~= diff_map(l0, touched@.take(0).to_set(), book@, side));
    }
    while i < touched.len()
        invariant
            book.wf(),
            side_sorted(touched@, side),
            i <= touched@.len(),
            levels@ == diff_map(l0, touched@.take(i as int).to_set(), book@, side),
            diff_out_ok(out@, l0, touched@.take(i as int).to_set(), book@, side),
        decreases touched@.len() - i,
    {
        let p = touched[i];
        let ghost done = touched@.take(i as int).to_set();
        let ghost done2 = touched@.take(i + 1).to_set();
        proof {
            let t0 = touched@.take(i as int);
            let t1 = touched@.take(i + 1);
            assert(t1 =~= t0.push(p));
            assert(done2 =~= done.insert(p)) by {
                assert forall|x: Price| #[trigger] done2.contains(x) <==> done.contains(x) || x == p by {
                    if t1.contains(x) {
                        let j = choose|j: int| 0 <= j < t1.len() && t1[j] == x;
                        if j < i {
                            assert(t0[j] == x);
                        }
                    }
                    if t0.contains(x) {
                        let j = choose|j: int| 0 <= j < t0.len() && t0[j] == x;
                        assert(t1[j] == x);
                    }
                    if x == p {
                        assert(t1[i as int] == p);
                    }
                }
            }
            assert(!done.contains(p)) by {
                if done.contains(p) {
                    let j = choose|j: int| 0 <= j < t0.len() && t0[j] == p;
                    assert(in_side_order(side, touched@[j], touched@[i as int]));
                }
            }
        }
        let q = book.level_qty(side, p);
        let cur: Qty = match levels.get(&p) {
            Some(v) => *v,
            None => 0,
        };
        proof {
            assert(cur == level_was(l0, p));
        }
        if cur != q {
            if q == 0 {
                levels.remove(&p);
            } else {
                levels.insert(p, q);
            }
            let ghost o0 = out@;
            out.push(L2Level { price: p, qty: q });
            proof {
                assert forall|a: int, c: int| 0 <= a < c < out@.len() implies in_side_order(side, (#[trigger] out@[a]).price, (#[trigger] out@[c]).price) by {
                    if c == out@.len() - 1 {
                        assert(done.contains(o0[a].price));
                        let t0 = touched@.take(i as int);
                        let j = choose|j: int| 0 <= j < t0.len() && t0[j] == o0[a].price;
                        assert(in_side_order(side, touched@[j], touched@[i as int]));
                    } else {
                        assert(out@[a] == o0[a] && out@[c] == o0[c]);
                    }
                }
                assert forall|x: Price| done2.contains(x) && level_was(l0, x) != level_now(book@, side, x) implies exists|a: int|
                    0 <= a < out@.len() && (#[trigger] out@[a]).price == x by {
                    if x == p {
                        assert(out@[out@.len() - 1].price == p);
                    } else {
                        let a = choose|a: int| 0 <= a < o0.len() && (#[trigger] o0[a]).price == x;
                        assert(out@[a] == o0[a]);
                    }
                }
                assert forall|a: int| 0 <= a < out@.len() implies done2.contains((#[trigger] out@[a]).price) && level_was(l0, out@[a].price)
                    != level_now(book@, side, out@[a].price) && out@[a].qty == level_now(book@, side, out@[a].price) by {
                    if a < o0.len() {
                        assert(out@[a] == o0[a]);
                    }
                }
            }
        } else {
            proof {
                assert forall|x: Price| done2.contains(x) && level_was(l0, x) != level_now(book@, side, x) implies exists|a: int|
                    0 <= a < out@.len() && (#[trigger] out@[a]).price == x by {
                    assert(x != p);
                }
            }
        }
        proof {
            assert(levels@ =~= diff_map(l0, done2, book@, side));
        }
        i = i + 1;
    }
    proof {
        assert(touched@.take(i as int) =~= touched@);
    }
    out
}

/// Some order of the queue rests at `p`.
pub open spec fn has_price(s: Seq<BookEntry>, p: Price) -> bool {
    exists|i: int| 0 <= i < s.len() && s[i].order.price == p
}

/// The levels of a queue: each price with an order, and its visible quantity.
pub open spec fn level_map(s: Seq<BookEntry>) -> Map<Price, Qty> {
    Map::new(|p: Price| has_price(s, p), |p: Price| sum_by(s, level_fn(p)) as u64)
}

/// The side and price of each order whose id is among `ids`, as the book has them.
pub open spec fn loc_part(b: BookModel, ids: spec_fn(OrderId) -> bool) -> Map<OrderId, (Side, Price)> {
    Map::new(ids, |id: OrderId| (get_spec(b, id).unwrap().0, get_spec(b, id).unwrap().1.price))
}

/// The side and price of every resting order.
pub open spec fn loc_of(b: BookModel) -> Map<OrderId, (Side, Price)> {
    loc_part(b, |id: OrderId| contains_spec(b, id))
}

pub proof fn lemma_get_entry(b: BookModel, side: Side, i: int)
    requires
        book_inv(b),
        0 <= i < b.side(side).len(),
    ensures
        get_spec(b, b.side(side)[i].order.id) == Some((side, b.side(side)[i].order)),
{
    let s = b.side(side);
    let id = s[i].order.id;
    lemma_index_of_id(s, i);
    if side == Side::Sell {
        assert(!has_id(b.bids, id)) by {
            if has_id(b.bids, id) {
                let j = choose|j: int| 0 <= j < b.bids.len() && b.bids[j].order.id == id;
                assert(b.bids[j].order.id != b.asks[i].order.id);
            }
        }
    }
}

proof fn lemma_sum_prefix(s: Seq<BookEntry>, k: int, g: spec_fn(BookEntry) -> nat)
    requires
        0 <= k <= s.len(),
    ensures
        sum_by(s.take(k), g) <= sum_by(s, g),
{
    assert(s =~= s.take(k) + s.skip(k));
    lemma_sum_concat(s.take(k), s.skip(k), g);
}

/// One more entry of a queue joins a level map built from its prefix.
proof fn lemma_level_map_step(s: Seq<BookEntry>, i: int)
    requires
        0 <= i < s.len(),
        sum_by(s.take(i + 1), level_fn(s[i].order.price)) <= u64::MAX,
    ensures
        level_map(s.take(i + 1)) == level_map(s.take(i)).insert(
            s[i].order.price,
            (sum_by(s.take(i), level_fn(s[i].order.price)) + s[i].order.qty) as u64,
        ),
        !has_price(s.take(i), s[i].order.price) ==> sum_by(s.take(i), level_fn(s[i].order.price)) == 0,
{
    let a = s.take(i);
    let c = s.take(i + 1);
    let p = s[i].order.price;
    assert forall|q: Price| #[trigger] has_price(c, q) <==> has_price(a, q) || q == p by {
        if has_price(c, q) {
            let j = choose|j: int| 0 <= j < c.len() && c[j].order.price == q;
            if j < i {
                assert(a[j].order.price == q);
            }
        }
        if has_price(a, q) {
            let j = choose|j: int| 0 <= j < a.len() && a[j].order.price == q;
            assert(c[j].order.price == q);
        }
        if q == p {
            assert(c[i].order.price == q);
        }
    }
    assert forall|q: Price| #[trigger] sum_by(c, level_fn(q)) == sum_by(a, level_fn(q)) + (if q == p { s[i].order.qty as nat } else { 0nat }) by {
        lemma_sum_take(s, i, level_fn(q));
    }
    if !has_price(a, p) {
        lemma_sum_zero(a, level_fn(p));
    }
    assert(level_map(c) =~= level_map(a).insert(p, (sum_by(a, level_fn(p)) + s[i].order.qty) as u64));
}

/// The visible quantity the order-level view shows at price `p`.
pub open spec fn l3_qty_at(orders: Seq<L3Order>, p: Price) -> nat
    decreases orders.len(),
{
    if orders.len() == 0 {
        0
    } else {
        l3_qty_at(orders.drop_last(), p) + (if orders.last().price == p {
            orders.last().qty as nat
        } else {
            0nat
        })
    }
}

proof fn lemma_l3_qty_at(s: Seq<BookEntry>, side: Side, p: Price)
    ensures
        l3_qty_at(l3_of(s, side), p) == sum_by(s, level_fn(p)),
    decreases s.len(),
{
    if s.len() > 0 {
        lemma_l3_qty_at(s.drop_last(), side, p);
        assert(l3_of(s, side).drop_last() =~= l3_of(s.drop_last(), side));
    }
}

/// The levels of a queue in priority order: each holds the visible quantity of the orders
/// at its price, their prices differ, and every order's price has its level.
pub proof fn lemma_levels_match_orders(s: Seq<BookEntry>, side: Side)
    requires
        sorted(s, side),
    ensures
        forall|k: int|
            0 <= k < levels_of(s).len() ==> (#[trigger] levels_of(s)[k]).1 == sum_by(s, level_fn(levels_of(s)[k].0)),
        forall|k1: int, k2: int|
            0 <= k1 < k2 < levels_of(s).len() ==> (#[trigger] levels_of(s)[k1]).0 != (#[trigger] levels_of(s)[k2]).0,
        forall|p: Price| has_price(s, p) <==> exists|k: int| 0 <= k < levels_of(s).len() && (#[trigger] levels_of(s)[k]).0 == p,
        s.len() > 0 ==> levels_of(s).len() > 0 && levels_of(s).last().0 == s.last().order.price,
    decreases s.len(),
{
    if s.len() > 0 {
        let init = s.drop_last();
        let e = s.last();
        let p = e.order.price;
        assert forall|i: int, j: int| 0 <= i < j < init.len() implies better_eq(
            side,
            (#[trigger] init[i]).order.price,
            (#[trigger] init[j]).order.price,
        ) by {
            assert(init[i] == s[i] && init[j] == s[j]);
        }
        lemma_levels_match_orders(init, side);
        let l0 = levels_of(init);
        let l = levels_of(s);
        assert forall|q: Price| #[trigger] has_price(s, q) <==> has_price(init, q) || q == p by {
            if has_price(s, q) {
                let j = choose|j: int| 0 <= j < s.len() && s[j].order.price == q;
                if j < init.len() {
                    assert(init[j] == s[j]);
                }
            }
            if has_price(init, q) {
                let j = choose|j: int| 0 <= j < init.len() && init[j].order.price == q;
                assert(s[j] == init[j]);
            }
            if q == p {
                assert(s[s.len() - 1].order.price == q);
            }
        }
        assert forall|q: Price| #[trigger] sum_by(s, level_fn(q)) == sum_by(init, level_fn(q)) + (if q == p {
            e.order.qty as nat
        } else {
            0nat
        }) by {}
        if l0.len() > 0 && l0.last().0 == p {
            assert(l == l0.update(l0.len() - 1, (p, l0.last().1 + e.order.qty as nat)));
            assert forall|k: int| 0 <= k < l.len() implies (#[trigger] l[k]).1 == sum_by(s, level_fn(l[k].0)) by {
                if k < l0.len() - 1 {
                    assert(l[k] == l0[k]);
                    assert(l0[k].0 != l0[l0.len() - 1].0);
                }
            }
            assert forall|k1: int, k2: int| 0 <= k1 < k2 < l.len() implies (#[trigger] l[k1]).0 != (#[trigger] l[k2]).0 by {
                assert(l0[k1].0 != l0[k2].0);
            }
            assert forall|q: Price| has_price(s, q) <==> exists|k: int| 0 <= k < l.len() && (#[trigger] l[k]).0 == q by {
                if has_price(s, q) {
                    if has_price(init, q) {
                        let k = choose|k: int| 0 <= k < l0.len() && (#[trigger] l0[k]).0 == q;
                        assert(l[k].0 == q);
                    } else {
                        assert(l[l.len() - 1].0 == q);
                    }
                }
                if exists|k: int| 0 <= k < l.len() && (#[trigger] l[k]).0 == q {
                    let k = choose|k: int| 0 <= k < l.len() && (#[trigger] l[k]).0 == q;
                    assert(l0[k].0 == q);
                }
            }
        } else {
            assert(l == l0.push((p, e.order.qty as nat)));
            assert(!has_price(init, p)) by {
                if has_price(init, p) {
                    let j = choose|j: int| 0 <= j < init.len() && init[j].order.price == p;
                    let last = init.len() - 1;
                    assert(better_eq(side, s[j].order.price, s[last].order.price));
                    assert(better_eq(side, s[last].order.price, s[s.len() - 1].order.price));
                    assert(init[last] == s[last]);
                    assert(init[j] == s[j]);
                }
            }
            assert forall|i: int| 0 <= i < init.len() implies level_fn(p)(#[trigger] init[i]) == 0 by {
                assert(!(init[i].order.price == p));
            }
            lemma_sum_zero(init, level_fn(p));
            assert forall|k: int| 0 <= k < l.len() implies (#[trigger] l[k]).1 == sum_by(s, level_fn(l[k].0)) by {
                if k < l0.len() {
                    assert(l[k] == l0[k]);
                    assert(exists|kk: int| 0 <= kk < l0.len() && (#[trigger] l0[kk]).0 == l0[k].0);
                    assert(has_price(init, l0[k].0));
                }
            }
            assert forall|k1: int, k2: int| 0 <= k1 < k2 < l.len() implies (#[trigger] l[k1]).0 != (#[trigger] l[k2]).0 by {
                if k2 < l0.len() {
                    assert(l0[k1].0 != l0[k2].0);
                } else {
                    assert(l[k1] == l0[k1]);
                    assert(exists|kk: int| 0 <= kk < l0.len() && (#[trigger] l0[kk]).0 == l0[k1].0);
                    assert(has_price(init, l0[k1].0));
                }
            }
            assert forall|q: Price| has_price(s, q) <==> exists|k: int| 0 <= k < l.len() && (#[trigger] l[k]).0 == q by {
                if has_price(s, q) {
                    if has_price(init, q) {
                        let k = choose|k: int| 0 <= k < l0.len() && (#[trigger] l0[k]).0 == q;
                        assert(l[k].0 == q);
                    } else {
                        assert(l[l.len() - 1].0 == q);
                    }
                }
                if exists|k: int| 0 <= k < l.len() && (#[trigger] l[k]).0 == q {
                    let k = choose|k: int| 0 <= k < l.len() && (#[trigger] l[k]).0 == q;
                    if k < l0.len() {
                        assert(l0[k].0 == q);
                    }
                }
            }
        }
    }
}

/// Market-data law: the aggregated view and the order-level view of a side agree. Each
/// level of the aggregated view holds exactly the visible quantity the order-level view
/// shows at its price, no price has two levels, and every order's price has its level.
pub proof fn lemma_l2_l3_agree(s: Seq<BookEntry>, side: Side)
    requires
        sorted(s, side),
        sum_by(s, visible_fn()) <= u64::MAX,
    ensures
        forall|k: int|
            0 <= k < l2_of(levels_of(s)).len() ==> (#[trigger] l2_of(levels_of(s))[k]).qty == l3_qty_at(
                l3_of(s, side),
                l2_of(levels_of(s))[k].price,
            ),
        forall|k1: int, k2: int|
            0 <= k1 < k2 < l2_of(levels_of(s)).len() ==> (#[trigger] l2_of(levels_of(s))[k1]).price != (#[trigger] l2_of(
                levels_of(s),
            )[k2]).price,
        forall|i: int|
            0 <= i < l3_of(s, side).len() ==> exists|k: int|
                0 <= k < l2_of(levels_of(s)).len() && (#[trigger] l2_of(levels_of(s))[k]).price == (#[trigger] l3_of(
                    s,
                    side,
                )[i]).price,
{
    lemma_levels_match_orders(s, side);
    lemma_levels_bound(s);
    let l = levels_of(s);
    let l2 = l2_of(l);
    let l3 = l3_of(s, side);
    assert forall|k: int| 0 <= k < l2.len() implies (#[trigger] l2[k]).qty == l3_qty_at(l3, l2[k].price) by {
        lemma_l3_qty_at(s, side, l[k].0);
        assert(l[k].1 <= sum_by(s, visible_fn()));
    }
    assert forall|k1: int, k2: int| 0 <= k1 < k2 < l2.len() implies (#[trigger] l2[k1]).price != (#[trigger] l2[k2]).price by {
        assert(l[k1].0 != l[k2].0);
    }
    assert forall|i: int| 0 <= i < l3.len() implies exists|k: int|
        0 <= k < l2.len() && (#[trigger] l2[k]).price == (#[trigger] l3[i]).price by {
        assert(has_price(s, s[i].order.price));
        let k = choose|k: int| 0 <= k < l.len() && (#[trigger] l[k]).0 == s[i].order.price;
        assert(l2[k].price == l3[i].price);
    }
}

/// The price levels a command touched, re-read and compared with a local mirror so that
/// only the changes go out.
#[derive(Debug)]
pub struct L2Feed {
    bids: HashMap<Price, Qty>,
    asks: HashMap<Price, Qty>,
    order_loc: HashMap<OrderId, (Side, Price)>,
}

impl L2Feed {
    /// The mirrored bid levels.
    pub closed spec fn bid_levels(&self) -> Map<Price, Qty> {
        self.bids@
    }

    /// The mirrored ask levels.
    pub closed spec fn ask_levels(&self) -> Map<Price, Qty> {
        self.asks@
    }

    /// Where the feed last saw each order.
    pub closed spec fn locations(&self) -> Map<OrderId, (Side, Price)> {
        self.order_loc@
    }

    /// A feed mirroring an empty book.
    pub fn new() -> (r: Self)
        ensures
            r.bid_levels() == Map::<Price, Qty>::empty(),
            r.ask_levels() == Map::<Price, Qty>::empty(),
            r.locations() == Map::<OrderId, (Side, Price)>::empty(),
    {
        L2Feed { bids: HashMap::new(), asks: HashMap::new(), order_loc: HashMap::new() }
    }

    /// A feed mirroring `book`: its levels and where each of its orders rests.
    pub fn from_book(book: &OrderBook) -> (r: Self)
        requires
            book.wf(),
        ensures
            r.bid_levels() == level_map(book@.bids),
            r.ask_levels() == level_map(book@.asks),
            r.locations() == loc_of(book@),
    {
        let entries = book.resting_orders();
        let ghost b = book@;
        let ghost nb = b.bids.len();
        let mut bids: HashMap<Price, Qty> = HashMap::new();
        let mut asks: HashMap<Price, Qty> = HashMap::new();
        let mut loc: HashMap<OrderId, (Side, Price)> = HashMap::new();
        proof {
            book.lemma_wf();
            assert(b.bids.take(0) =~= Seq::<BookEntry>::empty());
            assert(bids@ =~= level_map(b.bids.take(0)));
            assert(loc@ =~= loc_part(b, |id: OrderId| has_id(b.bids.take(0), id)));
        }
        let mut i: usize = 0;
        while i < entries.len()
            invariant
                book_inv(b),
                b == book@,
                entries@ == entries_of(b.bids, Side::Buy) + entries_of(b.asks, Side::Sell),
                nb == b.bids.len(),
                i <= entries@.len(),
                i <= nb ==> bids@ == level_map(b.bids.take(i as int)) && asks@ == Map::<Price, Qty>::empty()
                    && loc@ == loc_part(b, |id: OrderId| has_id(b.bids.take(i as int), id)),
                i > nb ==> bids@ == level_map(b.bids) && asks@ == level_map(b.asks.take(i - nb)) && loc@ == loc_part(
                    b,
                    |id: OrderId| has_id(b.bids, id) || has_id(b.asks.take(i - nb), id),
                ),
            decreases entries@.len() - i,
        {
            let (side, order, _) = entries[i];
            let ghost s = b.side(side);
            let ghost k: int = if i < nb { i as int } else { i - nb };
            proof {
                assert(entries@.len() == nb + b.asks.len());
                if i < nb {
                    assert(entries@[i as int] == (Side::Buy, b.bids[i as int].order, b.bids[i as int].reserve));
                } else {
                    assert(entries@[i as int] == (Side::Sell, b.asks[i - nb].order, b.asks[i - nb].reserve));
                }
                assert(s[k] .order == order);
                lemma_get_entry(b, side, k);
                lemma_sum_prefix(s, k + 1, level_fn(order.price));
                assert forall|e: BookEntry| #[trigger] level_fn(order.price)(e) <= vol_fn()(e) by {}
                lemma_sum_le(s, level_fn(order.price), vol_fn());
                lemma_sum_take(s, k, level_fn(order.price));
                assert(sum_by(s, vol_fn()) <= crate::book::model::book_volume(b));
                assert(b.bids.take(nb as int) =~= b.bids);
                lemma_level_map_step(s, k);
                if k == 0 {
                    assert(s.take(0) =~= Seq::<BookEntry>::empty());
                    assert(level_map(s.take(0)) =~= Map::<Price, Qty>::empty());
                }
            }
            let levels = match side {
                Side::Buy => &mut bids,
                Side::Sell => &mut asks,
            };
            let cur: Qty = match levels.get(&order.price) {
                Some(v) => *v,
                None => 0,
            };
            levels.insert(order.price, cur + order.qty);
            loc.insert(order.id, (side, order.price));
            proof {
                let t1 = s.take(k + 1);
                let t0 = s.take(k);
                assert forall|id: OrderId| #[trigger] has_id(t1, id) <==> has_id(t0, id) || id == order.id by {
                    if has_id(t1, id) {
                        let j = choose|j: int| 0 <= j < t1.len() && t1[j].order.id == id;
                        if j < k {
                            assert(t0[j].order.id == id);
                        }
                    }
                    if has_id(t0, id) {
                        let j = choose|j: int| 0 <= j < t0.len() && t0[j].order.id == id;
                        assert(t1[j].order.id == id);
                    }
                    if id == order.id {
                        assert(t1[k].order.id == id);
                    }
                }
                if i < nb {
                    assert(loc@ =~= loc_part(b, |id: OrderId| has_id(b.bids.take(i + 1), id)));
                    if i + 1 == nb {
                        assert(b.bids.take(i + 1) =~= b.bids);
                        assert(b.asks.take(0) =~= Seq::<BookEntry>::empty());
                        assert(asks@ =~= level_map(b.asks.take(0)));
                        assert(loc@ =~= loc_part(b, |id: OrderId| has_id(b.bids, id) || has_id(b.asks.take(0), id)));
                    }
                } else {
                    assert(b.bids.take(nb as int) =~= b.bids);
                    assert(loc@ =~= loc_part(b, |id: OrderId| has_id(b.bids, id) || has_id(b.asks.take(i + 1 - nb), id)));
                }
            }
            i = i + 1;
        }
        proof {
            if nb == entries@.len() {
                assert(b.bids.take(nb as int) =~= b.bids);
                assert(b.asks.len() == 0);
                assert(b.asks =~= Seq::<BookEntry>::empty());
                assert(asks@ =~= level_map(b.asks));
                assert(loc@ =~= loc_of(b));
            } else {
                assert(b.asks.take(i - nb) =~= b.asks);
                assert(loc@ =~= loc_of(b));
            }
        }
        L2Feed { bids, asks, order_loc: loc }
    }

    /// Applies one command's events: the levels they touched are re-read from the book (so
    /// iceberg refills and amendments are seen), and the changed ones go out, best first.
    pub fn apply(&mut self, events: &[Event], book: &OrderBook) -> (r: L2Update)
        requires
            book.wf(),
        ensures
            ({
                let t = l2_scan(
                    Touched { loc: old(self).locations(), bids: Set::empty(), asks: Set::empty() },
                    events@,
                    book@,
                );
                &&& final(self).locations() == t.loc
                &&& final(self).bid_levels() == diff_map(old(self).bid_levels(), t.bids, book@, Side::Buy)
                &&& final(self).ask_levels() == diff_map(old(self).ask_levels(), t.asks, book@, Side::Sell)
                &&& diff_out_ok(r.bids@, old(self).bid_levels(), t.bids, book@, Side::Buy)
                &&& diff_out_ok(r.asks@, old(self).ask_levels(), t.asks, book@, Side::Sell)
            }),
            r.seq == command_seq_spec(events@),
    {
        let ghost t0 = Touched { loc: self.order_loc@, bids: Set::empty(), asks: Set::empty() };
        let mut tb: Vec<Price> = Vec::new();
        let mut ta: Vec<Price> = Vec::new();
        let mut i: usize = 0;
        proof {
            assert(tb@.to_set() =~= Set::<Price>::empty());
            assert(ta@.to_set() =~= Set::<Price>::empty());
            assert(events@.take(0) =~= Seq::<Event>::empty());
        }
        while i < events.len()
            invariant
                book.wf(),
                i <= events@.len(),
                side_sorted(tb@, Side::Buy),
                side_sorted(ta@, Side::Sell),
                self.order_loc@ == l2_scan(t0, events@.take(i as int), book@).loc,
                tb@.to_set() == l2_scan(t0, events@.take(i as int), book@).bids,
                ta@.to_set() == l2_scan(t0, events@.take(i as int), book@).asks,
                self.bids@ == old(self).bids@,
                self.asks@ == old(self).asks@,
            decreases events@.len() - i,
        {
            proof {
                assert(events@.take(i + 1).drop_last() =~= events@.take(i as int));
                assert(events@.take(i + 1).last() == events@[i as int]);
            }
            match events[i] {
                Event::Trade { maker_order_id, price, taker_side, .. } => {
                    touch_side(&mut tb, &mut ta, taker_side.opposite(), price);
                    if book.get(maker_order_id).is_none() {
                        self.order_loc.remove(&maker_order_id);
                    }
                },
                Event::Resting { order_id, price, .. } => {
                    match book.get(order_id) {
                        Some((side, _)) => {
                            self.order_loc.insert(order_id, (side, price));
                            touch_side(&mut tb, &mut ta, side, price);
                        },
                        None => {},
                    }
                },
                Event::Modified { order_id, .. } => {
                    match self.order_loc.get(&order_id) {
                        Some(loc) => {
                            let (side, price) = *loc;
                            touch_side(&mut tb, &mut ta, side, price);
                        },
                        None => {},
                    }
                },
                Event::Canceled { order_id, .. } => {
                    match self.order_loc.remove(&order_id) {
                        Some((side, price)) => touch_side(&mut tb, &mut ta, side, price),
                        None => {},
                    }
                },
                Event::Filled { order_id, .. } => {
                    match self.order_loc.remove(&order_id) {
                        Some((side, price)) => touch_side(&mut tb, &mut ta, side, price),
                        None => {},
                    }
                },
                _ => {},
            }
            i = i + 1;
        }
        proof {
            assert(events@.take(i as int) =~= events@);
        }
        let bids = diff_side(&mut self.bids, book, Side::Buy, &tb);
        let asks = diff_side(&mut self.asks, book, Side::Sell, &ta);
        L2Update { seq: command_seq(events), bids, asks }
    }
}

impl Default for L2Feed {
    fn default() -> (r: Self)
        ensures
            r.bid_levels() == Map::<Price, Qty>::empty(),
            r.ask_levels() == Map::<Price, Qty>::empty(),
            r.locations() == Map::<OrderId, (Side, Price)>::empty(),
    {
        L2Feed::new()
    }
}

} // verus!

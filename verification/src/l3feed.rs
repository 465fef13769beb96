use vstd::prelude::*;

use std::collections::HashMap;

use crate::book::model::{book_inv, entries_of, get_spec, has_id, orders_at, BookEntry, BookModel};
use crate::book::OrderBook;
use crate::marketdata::{
    command_seq, command_seq_spec, has_price, lemma_get_entry, loc_of, loc_part, side_sorted, touch,
    touch_side, Touched,
};
use crate::output::Event;
use crate::types::{OrderId, Price, Qty, SeqNum, Side};

verus! {

broadcast use vstd::std_specs::hash::group_hash_axioms;

/// One change of market-by-order data.
#[derive(Clone, Copy, Debug, PartialEq, Eq, Structural)]
pub enum L3Delta {
    Added { id: OrderId, side: Side, price: Price, qty: Qty },
    Reduced { id: OrderId, qty: Qty },
    Removed { id: OrderId },
}

/// The order changes of one command: removals, then reductions, then additions.
#[derive(Clone, Debug, PartialEq, Eq)]
pub struct L3Update {
    pub seq: SeqNum,
    pub deltas: Vec<L3Delta>,
}

/// A price level as `(id, visible qty)` in queue order.
pub type Level = Seq<(OrderId, Qty)>;

/// An order that left the book or was amended: its level, as the feed last saw it, is touched.
pub open spec fn touch_loc(t: Touched, id: OrderId) -> Touched {
    if t.loc.contains_key(id) {
        touch(t, t.loc[id].0, t.loc[id].1)
    } else {
        t
    }
}

/// One event: the levels it may have changed are touched.
pub open spec fn l3_scan_event(t: Touched, e: Event, b: BookModel) -> Touched {
    match e {
        Event::Trade { price, taker_side, .. } => touch(t, taker_side.opposite(), price),
        Event::Resting { order_id, price, .. } => match get_spec(b, order_id) {
            Some((side, _)) => touch(t, side, price),
            None => t,
        },
        Event::Modified { order_id, .. } => touch_loc(t, order_id),
        Event::Canceled { order_id, .. } => touch_loc(t, order_id),
        Event::Filled { order_id, .. } => touch_loc(t, order_id),
        _ => t,
    }
}

pub open spec fn l3_scan(t: Touched, events: Seq<Event>, b: BookModel) -> Touched
    decreases events.len(),
{
    if events.len() == 0 {
        t
    } else {
        l3_scan_event(l3_scan(t, events.drop_last(), b), events.last(), b)
    }
}

/// The first index from `from` on where order `id` stands in `old`, or `old.len()`.
pub open spec fn match_pos(old: Level, id: OrderId, from: int) -> int
    decreases old.len() - from,
{
    if from < 0 || from >= old.len() {
        old.len() as int
    } else if old[from].0 == id {
        from
    } else {
        match_pos(old, id, from + 1)
    }
}

/// Matching the new level against the old one in order from new entry `k` and old entry
/// `oi`: the number of leading new entries found, in the same order, among the old ones.
pub open spec fn keep_run(old: Level, new: Level, k: int, oi: int) -> int
    decreases new.len() - k,
{
    if k < 0 || k >= new.len() {
        k
    } else {
        let j = match_pos(old, new[k].0, oi);
        if j < old.len() {
            keep_run(old, new, k + 1, j + 1)
        } else {
            k
        }
    }
}

/// How many leading orders of the new level keep their place.
pub open spec fn keep_count(old: Level, new: Level) -> int {
    keep_run(old, new, 0, 0)
}

pub open spec fn has_oid(s: Level, id: OrderId) -> bool {
    exists|i: int| 0 <= i < s.len() && s[i].0 == id
}

/// The quantity the old level had for `id` (its last entry).
pub open spec fn qty_in(old: Level, id: OrderId) -> Option<Qty>
    decreases old.len(),
{
    if old.len() == 0 {
        None
    } else if old.last().0 == id {
        Some(old.last().1)
    } else {
        qty_in(old.drop_last(), id)
    }
}

/// The old orders that did not keep their place, in old order.
pub open spec fn removed_of(old: Level, kept: Level) -> Seq<L3Delta>
    decreases old.len(),
{
    if old.len() == 0 {
        Seq::empty()
    } else {
        removed_of(old.drop_last(), kept) + if has_oid(kept, old.last().0) {
            Seq::empty()
        } else {
            seq![L3Delta::Removed { id: old.last().0 }]
        }
    }
}

/// The kept orders whose quantity changed.
pub open spec fn reduced_of(kept: Level, old: Level) -> Seq<L3Delta>
    decreases kept.len(),
{
    if kept.len() == 0 {
        Seq::empty()
    } else {
        reduced_of(kept.drop_last(), old) + if qty_in(old, kept.last().0) == Some(kept.last().1) {
            Seq::empty()
        } else {
            seq![L3Delta::Reduced { id: kept.last().0, qty: kept.last().1 }]
        }
    }
}

/// The orders that joined the back of the level.
pub open spec fn added_of(rest: Level, side: Side, price: Price) -> Seq<L3Delta> {
    rest.map_values(|e: (OrderId, Qty)| L3Delta::Added { id: e.0, side, price, qty: e.1 })
}

/// Where the feed sees each order after a level was diffed: removed orders are forgotten,
/// added ones placed at this level.
pub open spec fn loc_after(
    loc: Map<OrderId, (Side, Price)>,
    old: Level,
    kept: Level,
    rest: Level,
    side: Side,
    price: Price,
) -> Map<OrderId, (Side, Price)> {
    Map::new(
        |id: OrderId| (loc.contains_key(id) && !(has_oid(old, id) && !has_oid(kept, id))) || has_oid(rest, id),
        |id: OrderId|
            if has_oid(rest, id) {
                (side, price)
            } else {
                loc[id]
            },
    )
}

/// The mirror and the deltas gathered so far.
pub struct L3State {
    pub bids: Map<Price, Level>,
    pub asks: Map<Price, Level>,
    pub loc: Map<OrderId, (Side, Price)>,
    pub removed: Seq<L3Delta>,
    pub reduced: Seq<L3Delta>,
    pub added: Seq<L3Delta>,
}

/// Diffing the level at `price` on `side` against the book.
pub open spec fn diff_level_spec(st: L3State, b: BookModel, side: Side, price: Price) -> L3State {
    let levels = if side == Side::Buy {
        st.bids
    } else {
        st.asks
    };
    let old = if levels.contains_key(price) {
        levels[price]
    } else {
        Seq::empty()
    };
    let new = orders_at(b.side(side), price);
    let keep = keep_count(old, new);
    let kept = new.take(keep);
    let rest = new.skip(keep);
    let levels2 = if new.len() > 0 {
        levels.insert(price, new)
    } else {
        levels.remove(price)
    };
    L3State {
        bids: if side == Side::Buy {
            levels2
        } else {
            st.bids
        },
        asks: if side == Side::Sell {
            levels2
        } else {
            st.asks
        },
        loc: loc_after(st.loc, old, kept, rest, side, price),
        removed: st.removed + removed_of(old, kept),
        reduced: st.reduced + reduced_of(kept, old),
        added: st.added + added_of(rest, side, price),
    }
}

pub open spec fn diff_prices(st: L3State, b: BookModel, side: Side, prices: Seq<Price>) -> L3State
    decreases prices.len(),
{
    if prices.len() == 0 {
        st
    } else {
        diff_level_spec(diff_prices(st, b, side, prices.drop_last()), b, side, prices.last())
    }
}

fn find_from(old: &Vec<(OrderId, Qty)>, id: OrderId, from: usize) -> (r: usize)
    requires
        from <= old@.len(),
    ensures
        r as int == match_pos(old@, id, from as int),
        r <= old@.len(),
{
    let mut i = from;
    while i < old.len() && old[i].0 != id
        invariant
            from <= i <= old@.len(),
            match_pos(old@, id, i as int) == match_pos(old@, id, from as int),
        decreases old@.len() - i,
    {
        i = i + 1;
    }
    i
}

fn keep_of(old: &Vec<(OrderId, Qty)>, new: &Vec<(OrderId, Qty)>) -> (r: usize)
    ensures
        r as int == keep_count(old@, new@),
        r <= new@.len(),
{
    let mut keep: usize = 0;
    let mut oi: usize = 0;
    while keep < new.len()
        invariant
            keep <= new@.len(),
            oi <= old@.len(),
            keep_run(old@, new@, keep as int, oi as int) == keep_count(old@, new@),
        decreases new@.len() - keep,
    {
        let j = find_from(old, new[keep].0, oi);
        if j < old.len() {
            oi = j + 1;
            keep = keep + 1;
        } else {
            return keep;
        }
    }
    keep
}

fn has_oid_in(v: &Vec<(OrderId, Qty)>, n: usize, id: OrderId) -> (r: bool)
    requires
        n <= v@.len(),
    ensures
        r == has_oid(v@.take(n as int), id),
{
    let mut i: usize = 0;
    while i < n
        invariant
            i <= n <= v@.len(),
            forall|a: int| 0 <= a < i ==> (#[trigger] v@[a]).0 != id,
        decreases n - i,
    {
        if v[i].0 == id {
            proof {
                assert(v@.take(n as int)[i as int].0 == id);
            }
            return true;
        }
        i = i + 1;
    }
    proof {
        assert forall|a: int| 0 <= a < v@.take(n as int).len() implies v@.take(n as int)[a].0 != id by {
            assert(v@.take(n as int)[a] == v@[a]);
        }
    }
    false
}

fn qty_of(old: &Vec<(OrderId, Qty)>, id: OrderId) -> (r: Option<Qty>)
    ensures
        r == qty_in(old@, id),
{
    let mut i: usize = old.len();
    proof {
        assert(old@.take(i as int) =~= old@);
    }
    while i > 0
        invariant
            i <= old@.len(),
            qty_in(old@.take(i as int), id) == qty_in(old@, id),
        decreases i,
    {
        proof {
            assert(old@.take(i as int).drop_last() =~= old@.take(i - 1));
            assert(old@.take(i as int).last() == old@[i - 1]);
        }
        if old[i - 1].0 == id {
            return Some(old[i - 1].1);
        }
        i = i - 1;
    }
    proof {
        assert(old@.take(0) =~= Seq::<(OrderId, Qty)>::empty());
    }
    None
}

/// Market-by-order deltas: the touched levels of a command diffed, order by order, against
/// a local mirror.
#[derive(Debug)]
pub struct L3Feed {
    bids: HashMap<Price, Vec<(OrderId, Qty)>>,
    asks: HashMap<Price, Vec<(OrderId, Qty)>>,
    loc: HashMap<OrderId, (Side, Price)>,
}

impl L3Feed {
    /// The mirrored bid levels.
    pub closed spec fn bid_levels(&self) -> Map<Price, Level> {
        self.bids@.map_values(|v: Vec<(OrderId, Qty)>| v@)
    }

    /// The mirrored ask levels.
    pub closed spec fn ask_levels(&self) -> Map<Price, Level> {
        self.asks@.map_values(|v: Vec<(OrderId, Qty)>| v@)
    }

    /// Where the feed last saw each order.
    pub closed spec fn locations(&self) -> Map<OrderId, (Side, Price)> {
        self.loc@
    }

    /// A feed mirroring an empty book.
    pub fn new() -> (r: Self)
        ensures
            r.bid_levels() == Map::<Price, Level>::empty(),
            r.ask_levels() == Map::<Price, Level>::empty(),
            r.locations() == Map::<OrderId, (Side, Price)>::empty(),
    {
        let r = L3Feed { bids: HashMap::new(), asks: HashMap::new(), loc: HashMap::new() };
        proof {
            assert(r.bid_levels() =~= Map::<Price, Level>::empty());
            assert(r.ask_levels() =~= Map::<Price, Level>::empty());
        }
        r
    }
}

impl L3Feed {
    /// The mirror as values, with the deltas gathered so far.
    pub closed spec fn state_with(&self, removed: Seq<L3Delta>, reduced: Seq<L3Delta>, added: Seq<L3Delta>) -> L3State {
        L3State {
            bids: self.bid_levels(),
            asks: self.ask_levels(),
            loc: self.loc@,
            removed,
            reduced,
            added,
        }
    }

    fn take_level(&mut self, side: Side, price: Price) -> (prev: Vec<(OrderId, Qty)>)
        ensures
            final(self).loc@ == old(self).loc@,
            side == Side::Buy ==> final(self).bid_levels() == old(self).bid_levels().remove(price) && final(self).ask_levels()
                == old(self).ask_levels() && prev@ == (if old(self).bid_levels().contains_key(price) {
                old(self).bid_levels()[price]
            } else {
                Seq::empty()
            }),
            side == Side::Sell ==> final(self).ask_levels() == old(self).ask_levels().remove(price) && final(self).bid_levels()
                == old(self).bid_levels() && prev@ == (if old(self).ask_levels().contains_key(price) {
                old(self).ask_levels()[price]
            } else {
                Seq::empty()
            }),
    {
        let r = match side {
            Side::Buy => self.bids.remove(&price),
            Side::Sell => self.asks.remove(&price),
        };
        proof {
            assert(self.bid_levels() =~= old(self).bid_levels().remove(price) || side == Side::Sell);
            assert(self.ask_levels() =~= old(self).ask_levels().remove(price) || side == Side::Buy);
            if side == Side::Buy {
                assert(self.ask_levels() =~= old(self).ask_levels());
            } else {
                assert(self.bid_levels() =~= old(self).bid_levels());
            }
        }
        match r {
            Some(v) => v,
            None => Vec::new(),
        }
    }

    fn put_level(&mut self, side: Side, price: Price, new: Vec<(OrderId, Qty)>)
        ensures
            final(self).loc@ == old(self).loc@,
            side == Side::Buy ==> final(self).bid_levels() == old(self).bid_levels().insert(price, new@) && final(self).ask_levels()
                == old(self).ask_levels(),
            side == Side::Sell ==> final(self).ask_levels() == old(self).ask_levels().insert(price, new@) && final(self).bid_levels()
                == old(self).bid_levels(),
    {
        let ghost nv = new@;
        match side {
            Side::Buy => {
                self.bids.insert(price, new);
            },
            Side::Sell => {
                self.asks.insert(price, new);
            },
        }
        proof {
            if side == Side::Buy {
                assert(self.bid_levels() =~= old(self).bid_levels().insert(price, nv));
                assert(self.ask_levels() =~= old(self).ask_levels());
            } else {
                assert(self.ask_levels() =~= old(self).ask_levels().insert(price, nv));
                assert(self.bid_levels() =~= old(self).bid_levels());
            }
        }
    }

    /// Diffs the level at `price` on `side` against the book, gathering the deltas.
    #[verifier::rlimit(60)]
    fn diff_level(
        &mut self,
        book: &OrderBook,
        side: Side,
        price: Price,
        removed: &mut Vec<L3Delta>,
        reduced: &mut Vec<L3Delta>,
        added: &mut Vec<L3Delta>,
    )
        ensures
            final(self).state_with(final(removed)@, final(reduced)@, final(added)@) == diff_level_spec(
                old(self).state_with(old(removed)@, old(reduced)@, old(added)@),
                book@,
                side,
                price,
            ),
    {
        let ghost st0 = self.state_with(removed@, reduced@, added@);
        let ghost loc0 = self.loc@;
        let prev = self.take_level(side, price);
        let ghost mid_bids = self.bid_levels();
        let ghost mid_asks = self.ask_levels();
        let new = book.level_orders(side, price);
        let keep = keep_of(&prev, &new);
        let ghost kept = new@.take(keep as int);
        let ghost rest = new@.skip(keep as int);
        let ghost r0 = removed@;
        let ghost d0 = reduced@;
        let ghost a0 = added@;
        let mut i: usize = 0;
        proof {
            assert(prev@.take(0) =~= Seq::<(OrderId, Qty)>::empty());
            assert(removed@ =~= r0 + removed_of(prev@.take(0), kept));
            assert(self.loc@ =~= Map::new(
                |id: OrderId| loc0.contains_key(id) && !(has_oid(prev@.take(0), id) && !has_oid(kept, id)),
                |id: OrderId| loc0[id],
            ));
        }
        while i < prev.len()
            invariant
                i <= prev@.len(),
                keep <= new@.len(),
                kept == new@.take(keep as int),
                removed@ == r0 + removed_of(prev@.take(i as int), kept),
                self.loc@ == Map::new(
                    |id: OrderId| loc0.contains_key(id) && !(has_oid(prev@.take(i as int), id) && !has_oid(kept, id)),
                    |id: OrderId| loc0[id],
                ),
                self.bid_levels() == mid_bids,
                self.ask_levels() == mid_asks,
            decreases prev@.len() - i,
        {
            let id = prev[i].0;
            let ghost t0 = prev@.take(i as int);
            proof {
                assert(prev@.take(i + 1).drop_last() =~= t0);
                assert(prev@.take(i + 1).last() == prev@[i as int]);
                assert forall|x: OrderId| #[trigger] has_oid(prev@.take(i + 1), x) <==> has_oid(t0, x) || x == id by {
                    let t1 = prev@.take(i + 1);
                    if has_oid(t1, x) {
                        let a = choose|a: int| 0 <= a < t1.len() && t1[a].0 == x;
                        if a < i {
                            assert(t0[a].0 == x);
                        }
                    }
                    if has_oid(t0, x) {
                        let a = choose|a: int| 0 <= a < t0.len() && t0[a].0 == x;
                        assert(t1[a].0 == x);
                    }
                    if x == id {
                        assert(t1[i as int].0 == x);
                    }
                }
            }
            if !has_oid_in(&new, keep, id) {
                removed.push(L3Delta::Removed { id });
                self.loc.remove(&id);
            }
            proof {
                assert(removed@ =~= r0 + removed_of(prev@.take(i + 1), kept));
                assert(self.loc@ =~= Map::new(
                    |x: OrderId| loc0.contains_key(x) && !(has_oid(prev@.take(i + 1), x) && !has_oid(kept, x)),
                    |x: OrderId| loc0[x],
                ));
            }
            i = i + 1;
        }
        proof {
            assert(prev@.take(i as int) =~= prev@);
            assert(reduced@ =~= d0 + reduced_of(kept.take(0), prev@));
        }
        let ghost loc1 = self.loc@;
        let mut j: usize = 0;
        while j < keep
            invariant
                j <= keep <= new@.len(),
                kept == new@.take(keep as int),
                reduced@ == d0 + reduced_of(kept.take(j as int), prev@),
                self.loc@ == loc1,
                self.bid_levels() == mid_bids,
                self.ask_levels() == mid_asks,
            decreases keep - j,
        {
            let (id, qty) = new[j];
            proof {
                assert(kept.take(j + 1).drop_last() =~= kept.take(j as int));
                assert(kept.take(j + 1).last() == (id, qty));
            }
            let same = match qty_of(&prev, id) {
                Some(q) => q == qty,
                None => false,
            };
            if !same {
                reduced.push(L3Delta::Reduced { id, qty });
            }
            proof {
                assert(reduced@ =~= d0 + reduced_of(kept.take(j + 1), prev@));
            }
            j = j + 1;
        }
        proof {
            assert(kept.take(j as int) =~= kept);
            assert(rest.take(0) =~= Seq::<(OrderId, Qty)>::empty());
            assert(added@ =~= a0 + added_of(rest.take(0), side, price));
            assert(self.loc@ =~= Map::new(
                |x: OrderId| loc1.contains_key(x) || has_oid(rest.take(0), x),
                |x: OrderId| if has_oid(rest.take(0), x) { (side, price) } else { loc1[x] },
            ));
        }
        let mut k: usize = keep;
        while k < new.len()
            invariant
                keep <= k <= new@.len(),
                rest == new@.skip(keep as int),
                added@ == a0 + added_of(rest.take(k - keep), side, price),
                self.loc@ == Map::new(
                    |x: OrderId| loc1.contains_key(x) || has_oid(rest.take(k - keep), x),
                    |x: OrderId| if has_oid(rest.take(k - keep), x) { (side, price) } else { loc1[x] },
                ),
                self.bid_levels() == mid_bids,
                self.ask_levels() == mid_asks,
            decreases new@.len() - k,
        {
            let (id, qty) = new[k];
            let ghost u0 = rest.take(k - keep);
            let ghost u1 = rest.take(k + 1 - keep);
            proof {
                assert(u1 =~= u0.push((id, qty)));
                assert forall|x: OrderId| #[trigger] has_oid(u1, x) <==> has_oid(u0, x) || x == id by {
                    if has_oid(u1, x) {
                        let a = choose|a: int| 0 <= a < u1.len() && u1[a].0 == x;
                        if a < u0.len() {
                            assert(u0[a].0 == x);
                        }
                    }
                    if has_oid(u0, x) {
                        let a = choose|a: int| 0 <= a < u0.len() && u0[a].0 == x;
                        assert(u1[a].0 == x);
                    }
                    if x == id {
                        assert(u1[u0.len() as int].0 == x);
                    }
                }
            }
            added.push(L3Delta::Added { id, side, price, qty });
            self.loc.insert(id, (side, price));
            proof {
                assert(added@ =~= a0 + added_of(u1, side, price));
                assert(self.loc@ =~= Map::new(
                    |x: OrderId| loc1.contains_key(x) || has_oid(u1, x),
                    |x: OrderId| if has_oid(u1, x) { (side, price) } else { loc1[x] },
                ));
            }
            k = k + 1;
        }
        proof {
            assert(rest.take(k - keep) =~= rest);
            assert(self.loc@ =~= loc_after(loc0, prev@, kept, rest, side, price));
        }
        let ghost nv = new@;
        let ghost lev = if side == Side::Buy {
            st0.bids
        } else {
            st0.asks
        };
        if new.len() > 0 {
            self.put_level(side, price, new);
            proof {
                assert(lev.remove(price).insert(price, nv) =~= lev.insert(price, nv));
            }
        }
        proof {
            let st = diff_level_spec(st0, book@, side, price);
            assert(prev@ == (if lev.contains_key(price) {
                lev[price]
            } else {
                Seq::empty()
            }));
            assert(nv == orders_at(book@.side(side), price));
            assert(self.loc@ == st.loc);
            assert(removed@ == st.removed);
            assert(reduced@ == st.reduced);
            assert(added@ == st.added);
            assert(self.bid_levels() == st.bids);
            assert(self.ask_levels() == st.asks);
        }
    }

    /// Applies one command's events: the touched levels are diffed order by order against
    /// the book, and the removals, then the reductions, then the additions go out.
    pub fn apply(&mut self, events: &[Event], book: &OrderBook) -> (r: L3Update)
        requires
            book.wf(),
        ensures
            ({
                let t = l3_scan(Touched { loc: old(self).locations(), bids: Set::empty(), asks: Set::empty() }, events@, book@);
                exists|tb: Seq<Price>, ta: Seq<Price>|
                    {
                        let res = #[trigger] l3_result(
                            old(self).state_with(Seq::empty(), Seq::empty(), Seq::empty()),
                            book@,
                            tb,
                            ta,
                        );
                        &&& side_sorted(tb, Side::Buy)
                        &&& tb.to_set() == t.bids
                        &&& side_sorted(ta, Side::Sell)
                        &&& ta.to_set() == t.asks
                        &&& final(self).bid_levels() == res.bids
                        &&& final(self).ask_levels() == res.asks
                        &&& final(self).locations() == res.loc
                        &&& r.deltas@ == res.removed + res.reduced + res.added
                    }
            }),
            r.seq == command_seq_spec(events@),
    {
        let ghost t0 = Touched { loc: self.loc@, bids: Set::empty(), asks: Set::empty() };
        let ghost st0 = self.state_with(Seq::empty(), Seq::empty(), Seq::empty());
        let mut tb: Vec<Price> = Vec::new();
        let mut ta: Vec<Price> = Vec::new();
        let mut i: usize = 0;
        proof {
            assert(tb@.to_set() =~= Set::<Price>::empty());
            assert(ta@.to_set() =~= Set::<Price>::empty());
            assert(events@.take(0) =~= Seq::<Event>::empty());
        }
        while i < events.len()
            invariant
                book.wf(),
                i <= events@.len(),
                side_sorted(tb@, Side::Buy),
                side_sorted(ta@, Side::Sell),
                t0.loc == self.loc@,
                l3_scan(t0, events@.take(i as int), book@).loc == t0.loc,
                tb@.to_set() == l3_scan(t0, events@.take(i as int), book@).bids,
                ta@.to_set() == l3_scan(t0, events@.take(i as int), book@).asks,
            decreases events@.len() - i,
        {
            proof {
                assert(events@.take(i + 1).drop_last() =~= events@.take(i as int));
                assert(events@.take(i + 1).last() == events@[i as int]);
            }
            match events[i] {
                Event::Trade { price, taker_side, .. } => {
                    touch_side(&mut tb, &mut ta, taker_side.opposite(), price);
                },
                Event::Resting { order_id, price, .. } => {
                    match book.get(order_id) {
                        Some((side, _)) => {
                            touch_side(&mut tb, &mut ta, side, price);
                        },
                        None => {},
                    }
                },
                Event::Modified { order_id, .. } => {
                    self.touch_known(order_id, &mut tb, &mut ta);
                },
                Event::Canceled { order_id, .. } => {
                    self.touch_known(order_id, &mut tb, &mut ta);
                },
                Event::Filled { order_id, .. } => {
                    self.touch_known(order_id, &mut tb, &mut ta);
                },
                _ => {},
            }
            i = i + 1;
        }
        proof {
            assert(events@.take(i as int) =~= events@);
        }
        let mut removed: Vec<L3Delta> = Vec::new();
        let mut reduced: Vec<L3Delta> = Vec::new();
        let mut added: Vec<L3Delta> = Vec::new();
        let mut j: usize = 0;
        proof {
            assert(tb@.take(0) =~= Seq::<Price>::empty());
        }
        while j < tb.len()
            invariant
                j <= tb@.len(),
                self.state_with(removed@, reduced@, added@) == diff_prices(st0, book@, Side::Buy, tb@.take(j as int)),
            decreases tb@.len() - j,
        {
            proof {
                assert(tb@.take(j + 1).drop_last() =~= tb@.take(j as int));
                assert(tb@.take(j + 1).last() == tb@[j as int]);
            }
            self.diff_level(book, Side::Buy, tb[j], &mut removed, &mut reduced, &mut added);
            j = j + 1;
        }
        let ghost st1 = diff_prices(st0, book@, Side::Buy, tb@);
        proof {
            assert(tb@.take(j as int) =~= tb@);
            assert(ta@.take(0) =~= Seq::<Price>::empty());
        }
        let mut k: usize = 0;
        while k < ta.len()
            invariant
                k <= ta@.len(),
                self.state_with(removed@, reduced@, added@) == diff_prices(st1, book@, Side::Sell, ta@.take(k as int)),
            decreases ta@.len() - k,
        {
            proof {
                assert(ta@.take(k + 1).drop_last() =~= ta@.take(k as int));
                assert(ta@.take(k + 1).last() == ta@[k as int]);
            }
            self.diff_level(book, Side::Sell, ta[k], &mut removed, &mut reduced, &mut added);
            k = k + 1;
        }
        proof {
            assert(ta@.take(k as int) =~= ta@);
        }
        let ghost res = l3_result(st0, book@, tb@, ta@);
        let mut deltas = removed;
        append_all(&mut deltas, &reduced);
        append_all(&mut deltas, &added);
        proof {
            assert(deltas@ =~= res.removed + res.reduced + res.added);
        }
        L3Update { seq: command_seq(events), deltas }
    }

    fn touch_known(&self, id: OrderId, tb: &mut Vec<Price>, ta: &mut Vec<Price>)
        requires
            side_sorted(old(tb)@, Side::Buy),
            side_sorted(old(ta)@, Side::Sell),
        ensures
            side_sorted(final(tb)@, Side::Buy),
            side_sorted(final(ta)@, Side::Sell),
            ({
                let t = touch_loc(Touched { loc: self.loc@, bids: old(tb)@.to_set(), asks: old(ta)@.to_set() }, id);
                final(tb)@.to_set() == t.bids && final(ta)@.to_set() == t.asks
            }),
    {
        match self.loc.get(&id) {
            Some(l) => {
                let (side, price) = *l;
                touch_side(tb, ta, side, price);
            },
            None => {},
        }
    }
}

impl L3Feed {
    /// A feed mirroring `book`: every level's orders in queue order, and where each order rests.
    pub fn from_book(book: &OrderBook) -> (r: Self)
        requires
            book.wf(),
        ensures
            r.bid_levels() == Map::new(|p: Price| has_price(book@.bids, p), |p: Price| orders_at(book@.bids, p)),
            r.ask_levels() == Map::new(|p: Price| has_price(book@.asks, p), |p: Price| orders_at(book@.asks, p)),
            r.locations() == loc_of(book@),
    {
        let entries = book.resting_orders();
        let ghost b = book@;
        let ghost nb = b.bids.len();
        let mut feed = L3Feed::new();
        proof {
            book.lemma_wf();
            assert(b.bids.take(0) =~= Seq::<BookEntry>::empty());
            assert(feed.bid_levels() =~= level_seqs(b.bids.take(0)));
            assert(feed.loc@ =~= loc_part(b, |id: OrderId| has_id(b.bids.take(0), id)));
        }
        let mut i: usize = 0;
        while i < entries.len()
            invariant
                book_inv(b),
                b == book@,
                entries@ == entries_of(b.bids, Side::Buy) + entries_of(b.asks, Side::Sell),
                nb == b.bids.len(),
                i <= entries@.len(),
                i <= nb ==> feed.bid_levels() == level_seqs(b.bids.take(i as int)) && feed.ask_levels() == Map::<
                    Price,
                    Level,
                >::empty() && feed.loc@ == loc_part(b, |id: OrderId| has_id(b.bids.take(i as int), id)),
                i > nb ==> feed.bid_levels() == level_seqs(b.bids) && feed.ask_levels() == level_seqs(b.asks.take(i - nb))
                    && feed.loc@ == loc_part(b, |id: OrderId| has_id(b.bids, id) || has_id(b.asks.take(i - nb), id)),
            decreases entries@.len() - i,
        {
            let (side, order, _) = entries[i];
            let ghost s = b.side(side);
            let ghost k: int = if i < nb { i as int } else { i - nb };
            proof {
                assert(entries@.len() == nb + b.asks.len());
                if i < nb {
                    assert(entries@[i as int] == (Side::Buy, b.bids[i as int].order, b.bids[i as int].reserve));
                } else {
                    assert(entries@[i as int] == (Side::Sell, b.asks[i - nb].order, b.asks[i - nb].reserve));
                }
                assert(s[k].order == order);
                lemma_get_entry(b, side, k);
                lemma_level_seqs_step(s, k);
                assert(b.bids.take(nb as int) =~= b.bids);
                if k == 0 {
                    assert(s.take(0) =~= Seq::<BookEntry>::empty());
                    assert(level_seqs(s.take(0)) =~= Map::<Price, Level>::empty());
                }
            }
            let mut level = feed.take_level(side, order.price);
            level.push((order.id, order.qty));
            feed.put_level(side, order.price, level);
            feed.loc.insert(order.id, (side, order.price));
            proof {
                let t1 = s.take(k + 1);
                let t0 = s.take(k);
                assert forall|id: OrderId| #[trigger] has_id(t1, id) <==> has_id(t0, id) || id == order.id by {
                    if has_id(t1, id) {
                        let j = choose|j: int| 0 <= j < t1.len() && t1[j].order.id == id;
                        if j < k {
                            assert(t0[j].order.id == id);
                        }
                    }
                    if has_id(t0, id) {
                        let j = choose|j: int| 0 <= j < t0.len() && t0[j].order.id == id;
                        assert(t1[j].order.id == id);
                    }
                    if id == order.id {
                        assert(t1[k].order.id == id);
                    }
                }
                if side == Side::Buy {
                    assert(feed.bid_levels() =~= level_seqs(t1));
                } else {
                    assert(feed.ask_levels() =~= level_seqs(t1));
                }
                if i < nb {
                    assert(feed.loc@ =~= loc_part(b, |id: OrderId| has_id(b.bids.take(i + 1), id)));
                    if i + 1 == nb {
                        assert(b.bids.take(i + 1) =~= b.bids);
                        assert(b.asks.take(0) =~= Seq::<BookEntry>::empty());
                        assert(feed.ask_levels() =~= level_seqs(b.asks.take(0)));
                        assert(feed.loc@ =~= loc_part(b, |id: OrderId| has_id(b.bids, id) || has_id(b.asks.take(0), id)));
                    }
                } else {
                    assert(feed.loc@ =~= loc_part(b, |id: OrderId| has_id(b.bids, id) || has_id(b.asks.take(i + 1 - nb), id)));
                }
            }
            i = i + 1;
        }
        proof {
            if nb == entries@.len() {
                assert(b.bids.take(nb as int) =~= b.bids);
                assert(b.asks =~= Seq::<BookEntry>::empty());
                assert(feed.ask_levels() =~= level_seqs(b.asks));
            } else {
                assert(b.asks.take(i - nb) =~= b.asks);
            }
            assert(feed.loc@ =~= loc_of(b));
            assert(feed.bid_levels() =~= Map::new(|p: Price| has_price(b.bids, p), |p: Price| orders_at(b.bids, p)));
            assert(feed.ask_levels() =~= Map::new(|p: Price| has_price(b.asks, p), |p: Price| orders_at(b.asks, p)));
        }
        feed
    }
}

/// The levels of a queue: each price with an order, and its orders in queue order.
pub open spec fn level_seqs(s: Seq<BookEntry>) -> Map<Price, Level> {
    Map::new(|p: Price| has_price(s, p), |p: Price| orders_at(s, p))
}

proof fn lemma_level_seqs_step(s: Seq<BookEntry>, i: int)
    requires
        0 <= i < s.len(),
    ensures
        level_seqs(s.take(i + 1)) == level_seqs(s.take(i)).insert(
            s[i].order.price,
            (if has_price(s.take(i), s[i].order.price) {
                orders_at(s.take(i), s[i].order.price)
            } else {
                Seq::empty()
            }).push((s[i].order.id, s[i].order.qty)),
        ),
{
    let a = s.take(i);
    let c = s.take(i + 1);
    let p = s[i].order.price;
    assert(c.drop_last() =~= a);
    assert forall|q: Price| #[trigger] has_price(c, q) <==> has_price(a, q) || q == p by {
        if has_price(c, q) {
            let j = choose|j: int| 0 <= j < c.len() && c[j].order.price == q;
            if j < i {
                assert(a[j].order.price == q);
            }
        }
        if has_price(a, q) {
            let j = choose|j: int| 0 <= j < a.len() && a[j].order.price == q;
            assert(c[j].order.price == q);
        }
        if q == p {
            assert(c[i].order.price == q);
        }
    }
    if !has_price(a, p) {
        lemma_orders_at_empty(a, p);
    }
    assert(level_seqs(c) =~= level_seqs(a).insert(
        p,
        (if has_price(a, p) {
            orders_at(a, p)
        } else {
            Seq::empty()
        }).push((s[i].order.id, s[i].order.qty)),
    ));
}

proof fn lemma_orders_at_empty(s: Seq<BookEntry>, p: Price)
    requires
        !has_price(s, p),
    ensures
        orders_at(s, p) == Seq::<(OrderId, Qty)>::empty(),
    decreases s.len(),
{
    if s.len() > 0 {
        assert(!has_price(s.drop_last(), p)) by {
            if has_price(s.drop_last(), p) {
                let j = choose|j: int| 0 <= j < s.drop_last().len() && s.drop_last()[j].order.price == p;
                assert(s[j].order.price == p);
            }
        }
        assert(s[s.len() - 1].order.price != p);
        lemma_orders_at_empty(s.drop_last(), p);
    }
}

/// Appends `more` to `v`.
fn append_all(v: &mut Vec<L3Delta>, more: &Vec<L3Delta>)
    ensures
        final(v)@ == old(v)@ + more@,
{
    let mut i: usize = 0;
    while i < more.len()
        invariant
            i <= more@.len(),
            v@ == old(v)@ + more@.take(i as int),
        decreases more@.len() - i,
    {
        v.push(more[i]);
        proof {
            assert(more@.take(i + 1) =~= more@.take(i as int).push(more@[i as int]));
        }
        i = i + 1;
    }
    proof {
        assert(more@.take(i as int) =~= more@);
    }
}

/// The mirror and deltas after diffing the touched bid prices, best first, then the
/// touched ask prices, best first.
pub open spec fn l3_result(st: L3State, b: BookModel, tb: Seq<Price>, ta: Seq<Price>) -> L3State {
    diff_prices(diff_prices(st, b, Side::Buy, tb), b, Side::Sell, ta)
}

/// The levels of one side of a feed state.
pub open spec fn side_levels(st: L3State, side: Side) -> Map<Price, Level> {
    if side == Side::Buy {
        st.bids
    } else {
        st.asks
    }
}

/// Diffing a list of prices of one side re-reads each of them from the book and leaves every
/// other level, and the other side, as it was.
proof fn lemma_diff_prices_levels(st: L3State, b: BookModel, side: Side, prices: Seq<Price>, p: Price)
    ensures
        side_levels(diff_prices(st, b, side, prices), side.opposite()) == side_levels(st, side.opposite()),
        prices.contains(p) ==> {
            &&& side_levels(diff_prices(st, b, side, prices), side).contains_key(p) == (orders_at(b.side(side), p).len() > 0)
            &&& side_levels(diff_prices(st, b, side, prices), side).contains_key(p) ==> side_levels(
                diff_prices(st, b, side, prices),
                side,
            )[p] == orders_at(b.side(side), p)
        },
        !prices.contains(p) ==> {
            &&& side_levels(diff_prices(st, b, side, prices), side).contains_key(p) == side_levels(st, side).contains_key(p)
            &&& side_levels(st, side).contains_key(p) ==> side_levels(diff_prices(st, b, side, prices), side)[p]
                == side_levels(st, side)[p]
        },
    decreases prices.len(),
{
    if prices.len() > 0 {
        let init = prices.drop_last();
        let q = prices.last();
        lemma_diff_prices_levels(st, b, side, init, p);
        assert(prices.contains(p) <==> init.contains(p) || q == p) by {
            if prices.contains(p) {
                let j = choose|j: int| 0 <= j < prices.len() && prices[j] == p;
                if j < init.len() {
                    assert(init[j] == p);
                }
            }
            if init.contains(p) {
                let j = choose|j: int| 0 <= j < init.len() && init[j] == p;
                assert(prices[j] == p);
            }
            if q == p {
                assert(prices[prices.len() - 1] == p);
            }
        }
    }
}

/// Feed law (order level): after an update every level the command touched holds, in queue
/// order, the orders the book has at that price (and is gone when there are none), and every
/// level it did not touch is as it was.
pub proof fn lemma_l3_levels(st: L3State, b: BookModel, tb: Seq<Price>, ta: Seq<Price>, side: Side, p: Price)
    ensures
        ({
            let touched = if side == Side::Buy { tb } else { ta };
            let after = side_levels(l3_result(st, b, tb, ta), side);
            let before = side_levels(st, side);
            &&& touched.contains(p) ==> {
                &&& after.contains_key(p) == (orders_at(b.side(side), p).len() > 0)
                &&& after.contains_key(p) ==> after[p] == orders_at(b.side(side), p)
            }
            &&& !touched.contains(p) ==> {
                &&& after.contains_key(p) == before.contains_key(p)
                &&& before.contains_key(p) ==> after[p] == before[p]
            }
        }),
{
    let mid = diff_prices(st, b, Side::Buy, tb);
    lemma_diff_prices_levels(st, b, Side::Buy, tb, p);
    lemma_diff_prices_levels(mid, b, Side::Sell, ta, p);
}


impl Default for L3Feed {
    fn default() -> (r: Self)
        ensures
            r.bid_levels() == Map::<Price, Level>::empty(),
            r.ask_levels() == Map::<Price, Level>::empty(),
            r.locations() == Map::<OrderId, (Side, Price)>::empty(),
    {
        L3Feed::new()
    }
}

} // verus!

use vstd::prelude::*;

use crate::types::{AccountId, OrderId, OrderType, Price, Qty, Side, StpMode, TimeInForce};

verus! {

/// A stop order waiting for its trigger.
#[derive(Clone, Copy, Debug, PartialEq, Eq, Structural)]
pub struct PendingStop {
    pub id: OrderId,
    pub side: Side,
    pub trigger: Price,
    pub activates_to: OrderType,
    pub limit_price: Price,
    pub qty: Qty,
    pub tif: TimeInForce,
    pub owner: AccountId,
    pub stp: StpMode,
}

impl PendingStop {
    /// A buy stop fires once the last trade is at or above its trigger, a sell stop at or below.
    pub open spec fn fires_at(self, last: Price) -> bool {
        match self.side {
            Side::Buy => last >= self.trigger,
            Side::Sell => last <= self.trigger,
        }
    }

    pub fn triggered_by(&self, last: Price) -> (r: bool)
        ensures
            r == self.fires_at(last),
    {
        match self.side {
            Side::Buy => last >= self.trigger,
            Side::Sell => last <= self.trigger,
        }
    }
}

/// The first index in `s` whose stop satisfies `pred`.
pub open spec fn first_index(s: Seq<PendingStop>, pred: spec_fn(PendingStop) -> bool) -> Option<int> {
    if exists|i: int| 0 <= i < s.len() && pred(s[i]) {
        Some(
            choose|i: int|
                0 <= i < s.len() && pred(s[i]) && forall|j: int| 0 <= j < i ==> !pred(#[trigger] s[j]),
        )
    } else {
        None
    }
}

proof fn lemma_first_index(s: Seq<PendingStop>, pred: spec_fn(PendingStop) -> bool, i: int)
    requires
        0 <= i < s.len(),
        pred(s[i]),
        forall|j: int| 0 <= j < i ==> !pred(#[trigger] s[j]),
    ensures
        first_index(s, pred) == Some(i),
{
    let k = choose|k: int|
        0 <= k < s.len() && pred(s[k]) && forall|j: int| 0 <= j < k ==> !pred(#[trigger] s[j]);
    assert(exists|k: int|
        0 <= k < s.len() && pred(s[k]) && forall|j: int| 0 <= j < k ==> !pred(#[trigger] s[j]));
    if k < i {
        assert(!pred(s[k]));
    } else if k > i {
        assert(!pred(s[i]));
    }
}

/// The index `first_index` finds lies in range and its stop satisfies the predicate.
pub proof fn lemma_first_index_found(s: Seq<PendingStop>, pred: spec_fn(PendingStop) -> bool)
    ensures
        first_index(s, pred) matches Some(i) ==> 0 <= i < s.len() && pred(s[i]),
{
    if exists|i: int| 0 <= i < s.len() && pred(s[i]) {
        let w = choose|i: int| 0 <= i < s.len() && pred(s[i]);
        lemma_first_witness(s, pred, w);
    }
}

proof fn lemma_first_witness(s: Seq<PendingStop>, pred: spec_fn(PendingStop) -> bool, w: int)
    requires
        0 <= w < s.len(),
        pred(s[w]),
    ensures
        exists|i: int| 0 <= i < s.len() && pred(s[i]) && forall|j: int| 0 <= j < i ==> !pred(#[trigger] s[j]),
    decreases w,
{
    if exists|j: int| 0 <= j < w && pred(s[j]) {
        let v = choose|j: int| 0 <= j < w && pred(s[j]);
        lemma_first_witness(s, pred, v);
    } else {
        assert(forall|j: int| 0 <= j < w ==> !pred(#[trigger] s[j]));
    }
}

pub open spec fn has_id_fn(id: OrderId) -> spec_fn(PendingStop) -> bool {
    |s: PendingStop| s.id == id
}

pub open spec fn fires_fn(last: Price) -> spec_fn(PendingStop) -> bool {
    |s: PendingStop| s.fires_at(last)
}

/// Removes the first stop of `s` satisfying `pred`.
pub open spec fn take_first(s: Seq<PendingStop>, pred: spec_fn(PendingStop) -> bool) -> (Seq<PendingStop>, Option<PendingStop>) {
    match first_index(s, pred) {
        Some(i) => (s.remove(i), Some(s[i])),
        None => (s, None),
    }
}

/// The total quantity of the pending stops.
pub open spec fn stops_volume(s: Seq<PendingStop>) -> nat
    decreases s.len(),
{
    if s.len() == 0 {
        0
    } else {
        stops_volume(s.drop_last()) + s.last().qty as nat
    }
}

pub proof fn lemma_stops_volume_push(s: Seq<PendingStop>, x: PendingStop)
    ensures
        stops_volume(s.push(x)) == stops_volume(s) + x.qty,
{
    assert(s.push(x).drop_last() =~= s);
}

/// A prefix holds at most the quantity of the whole list.
pub proof fn lemma_stops_volume_prefix(s: Seq<PendingStop>, k: int)
    requires
        0 <= k <= s.len(),
    ensures
        stops_volume(s.take(k)) <= stops_volume(s),
    decreases s.len(),
{
    if k < s.len() {
        assert(s.drop_last().take(k) =~= s.take(k));
        lemma_stops_volume_prefix(s.drop_last(), k);
    } else {
        assert(s.take(k) =~= s);
    }
}

pub proof fn lemma_stops_volume_remove(s: Seq<PendingStop>, i: int)
    requires
        0 <= i < s.len(),
    ensures
        stops_volume(s.remove(i)) + s[i].qty == stops_volume(s),
    decreases s.len(),
{
    if i == s.len() - 1 {
        assert(s.remove(i) =~= s.drop_last());
    } else {
        lemma_stops_volume_remove(s.drop_last(), i);
        assert(s.remove(i).drop_last() =~= s.drop_last().remove(i));
        assert(s.remove(i).last() == s.last());
    }
}

/// Dormant stop orders in acceptance order.
#[derive(Debug)]
pub struct StopBook {
    pending: Vec<PendingStop>,
}

impl StopBook {
    pub closed spec fn view(&self) -> Seq<PendingStop> {
        self.pending@
    }

    pub fn new() -> (r: Self)
        ensures
            r@ == Seq::<PendingStop>::empty(),
    {
        StopBook { pending: Vec::new() }
    }

    pub fn len(&self) -> (r: usize)
        ensures
            r == self@.len(),
    {
        self.pending.len()
    }

    /// The dormant stops, oldest first.
    pub fn pending(&self) -> (r: &Vec<PendingStop>)
        ensures
            r@ == self@,
    {
        &self.pending
    }

    /// The total quantity of the dormant stops.
    pub(crate) fn volume(&self) -> (r: u64)
        requires
            stops_volume(self@) <= u64::MAX,
        ensures
            r == stops_volume(self@),
    {
        let ghost s = self.pending@;
        let mut total: u64 = 0;
        let mut i: usize = 0;
        while i < self.pending.len()
            invariant
                s == self.pending@,
                i <= s.len(),
                total == stops_volume(s.take(i as int)),
                stops_volume(s) <= u64::MAX,
            decreases s.len() - i,
        {
            proof {
                assert(s.take(i + 1).drop_last() =~= s.take(i as int));
                lemma_stops_volume_prefix(s, i + 1);
            }
            total = total + self.pending[i].qty;
            i = i + 1;
        }
        proof {
            assert(s.take(i as int) =~= s);
        }
        total
    }

    /// Parks `stop` behind the stops accepted before it.
    pub fn park(&mut self, stop: PendingStop)
        ensures
            final(self)@ == old(self)@.push(stop),
    {
        self.pending.push(stop);
    }

    /// Removes the stop with id `order_id`.
    pub fn cancel(&mut self, order_id: OrderId) -> (r: Option<PendingStop>)
        ensures
            (final(self)@, r) == take_first(old(self)@, has_id_fn(order_id)),
    {
        let mut i: usize = 0;
        while i < self.pending.len()
            invariant
                self@ == old(self)@,
                i <= self.pending@.len(),
                forall|j: int| 0 <= j < i ==> !has_id_fn(order_id)(#[trigger] self.pending@[j]),
            decreases self.pending@.len() - i,
        {
            if self.pending[i].id == order_id {
                proof {
                    lemma_first_index(self.pending@, has_id_fn(order_id), i as int);
                }
                let s = self.pending.remove(i);
                return Some(s);
            }
            i = i + 1;
        }
        None
    }

    /// Removes the oldest stop that fires at last trade price `last`.
    pub fn take_triggered(&mut self, last: Price) -> (r: Option<PendingStop>)
        ensures
            (final(self)@, r) == take_first(old(self)@, fires_fn(last)),
    {
        let mut i: usize = 0;
        while i < self.pending.len()
            invariant
                self@ == old(self)@,
                i <= self.pending@.len(),
                forall|j: int| 0 <= j < i ==> !fires_fn(last)(#[trigger] self.pending@[j]),
            decreases self.pending@.len() - i,
        {
            if self.pending[i].triggered_by(last) {
                proof {
                    lemma_first_index(self.pending@, fires_fn(last), i as int);
                }
                let s = self.pending.remove(i);
                return Some(s);
            }
            i = i + 1;
        }
        None
    }
}

impl Default for StopBook {
    fn default() -> (r: Self)
        ensures
            r@ == Seq::<PendingStop>::empty(),
    {
        StopBook::new()
    }
}

} // verus!

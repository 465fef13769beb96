use vstd::prelude::*;

use std::collections::VecDeque;

use crate::output::Event;
use crate::types::{Price, Qty, SeqNum, Side};

verus! {

broadcast use vstd::std_specs::vecdeque::group_vec_dequeue_axioms;

/// One print of the trade tape: the command's sequence number, the price, the quantity and
/// the aggressor's side.
#[derive(Clone, Copy, Debug, PartialEq, Eq, Structural)]
pub struct TapeTrade {
    pub seq: SeqNum,
    pub price: Price,
    pub qty: Qty,
    pub taker_side: Side,
}

/// The print of an event, when it is an execution.
pub open spec fn print_of(e: Event) -> Option<TapeTrade> {
    match e {
        Event::Trade { seq, price, qty, taker_side, .. } => Some(TapeTrade { seq, price, qty, taker_side }),
        _ => None,
    }
}

/// The prints of a list of events, in order.
pub open spec fn prints_of(events: Seq<Event>) -> Seq<TapeTrade>
    decreases events.len(),
{
    if events.len() == 0 {
        Seq::empty()
    } else {
        match print_of(events.last()) {
            Some(t) => prints_of(events.drop_last()).push(t),
            None => prints_of(events.drop_last()),
        }
    }
}

/// The history after recording one print: the oldest print goes once a bounded tape
/// exceeds its capacity.
pub open spec fn record_spec(hist: Seq<TapeTrade>, cap: Option<usize>, t: TapeTrade) -> Seq<TapeTrade> {
    let h = hist.push(t);
    match cap {
        Some(c) => if h.len() > c {
            h.drop_first()
        } else {
            h
        },
        None => h,
    }
}

/// The history after recording `prints` one by one.
pub open spec fn record_all(hist: Seq<TapeTrade>, cap: Option<usize>, prints: Seq<TapeTrade>) -> Seq<TapeTrade>
    decreases prints.len(),
{
    if prints.len() == 0 {
        hist
    } else {
        record_spec(record_all(hist, cap, prints.drop_last()), cap, prints.last())
    }
}

/// A bounded tape never holds more prints than its capacity.
pub proof fn lemma_record_all_bounded(hist: Seq<TapeTrade>, cap: usize, prints: Seq<TapeTrade>)
    requires
        hist.len() <= cap,
    ensures
        record_all(hist, Some(cap), prints).len() <= cap,
    decreases prints.len(),
{
    if prints.len() > 0 {
        lemma_record_all_bounded(hist, cap, prints.drop_last());
    }
}

/// A bounded tape keeps the most recent prints: recording more prints than its capacity
/// leaves exactly the last `cap` of them.
pub proof fn lemma_record_all_keeps_latest(hist: Seq<TapeTrade>, cap: usize, prints: Seq<TapeTrade>)
    requires
        hist.len() <= cap,
    ensures
        record_all(hist, Some(cap), prints) == (hist + prints).skip(
            (hist.len() + prints.len() - record_all(hist, Some(cap), prints).len()) as int,
        ),
        record_all(hist, Some(cap), prints).len() == if hist.len() + prints.len() <= cap {
            hist.len() + prints.len()
        } else {
            cap as nat
        },
    decreases prints.len(),
{
    if prints.len() == 0 {
        assert(hist + prints =~= hist);
        assert(hist.skip(0) =~= hist);
    } else {
        let p0 = prints.drop_last();
        lemma_record_all_keeps_latest(hist, cap, p0);
        let r0 = record_all(hist, Some(cap), p0);
        let k0 = hist.len() + p0.len() - r0.len();
        assert(hist + prints =~= (hist + p0).push(prints.last()));
        let h = r0.push(prints.last());
        assert(h =~= (hist + prints).skip(k0));
        if h.len() > cap {
            assert(h.drop_first() =~= (hist + prints).skip(k0 + 1));
        }
    }
}

/// The public trade tape: the prints derived from the event stream, with an optional
/// bound on the history it keeps.
#[derive(Debug)]
pub struct TradeTape {
    trades: VecDeque<TapeTrade>,
    cap: Option<usize>,
}

impl TradeTape {
    /// The prints kept, oldest first.
    pub closed spec fn history(&self) -> Seq<TapeTrade> {
        self.trades@
    }

    /// The capacity, when the tape is bounded.
    pub closed spec fn capacity(&self) -> Option<usize> {
        self.cap
    }

    /// The bound holds.
    pub closed spec fn wf(&self) -> bool {
        match self.cap {
            Some(c) => self.trades@.len() <= c,
            None => true,
        }
    }

    /// An unbounded tape.
    pub fn new() -> (r: Self)
        ensures
            r.wf(),
            r.history() == Seq::<TapeTrade>::empty(),
            r.capacity() is None,
    {
        TradeTape { trades: VecDeque::new(), cap: None }
    }

    /// A tape that keeps the last `cap` prints.
    pub fn bounded(cap: usize) -> (r: Self)
        ensures
            r.wf(),
            r.history() == Seq::<TapeTrade>::empty(),
            r.capacity() == Some(cap),
            r.history().len() <= cap,
    {
        TradeTape { trades: VecDeque::new(), cap: Some(cap) }
    }

    /// Records the prints of `events` and returns them, in order.
    pub fn apply(&mut self, events: &[Event]) -> (r: Vec<TapeTrade>)
        requires
            old(self).wf(),
        ensures
            final(self).wf(),
            r@ == prints_of(events@),
            final(self).capacity() == old(self).capacity(),
            final(self).history() == record_all(old(self).history(), old(self).capacity(), r@),
            final(self).capacity() matches Some(c) ==> final(self).history().len() <= c,
    {
        let mut out: Vec<TapeTrade> = Vec::new();
        let mut i: usize = 0;
        while i < events.len()
            invariant
                i <= events@.len(),
                out@ == prints_of(events@.take(i as int)),
                self.wf(),
                self.cap == old(self).cap,
                self.trades@ == record_all(old(self).trades@, old(self).cap, out@),
            decreases events@.len() - i,
        {
            proof {
                assert(events@.take(i + 1).drop_last() =~= events@.take(i as int));
            }
            match events[i] {
                Event::Trade { seq, price, qty, taker_side, .. } => {
                    let trade = TapeTrade { seq, price, qty, taker_side };
                    self.record(trade);
                    let ghost prev = out@;
                    out.push(trade);
                    proof {
                        assert(out@.drop_last() =~= prev);
                    }
                },
                _ => {},
            }
            i = i + 1;
        }
        proof {
            assert(events@.take(i as int) =~= events@);
        }
        out
    }

    /// The prints kept, oldest first.
    pub fn recent(&self) -> (r: Vec<TapeTrade>)
        ensures
            r@ == self.history(),
    {
        let mut out: Vec<TapeTrade> = Vec::new();
        let mut i: usize = 0;
        while i < self.trades.len()
            invariant
                i <= self.trades@.len(),
                out@ == self.trades@.take(i as int),
            decreases self.trades@.len() - i,
        {
            out.push(self.trades[i]);
            proof {
                assert(self.trades@.take(i + 1) =~= self.trades@.take(i as int).push(self.trades@[i as int]));
            }
            i = i + 1;
        }
        proof {
            assert(self.trades@.take(i as int) =~= self.trades@);
        }
        out
    }

    /// The latest print.
    pub fn last(&self) -> (r: Option<&TapeTrade>)
        ensures
            r == (if self.history().len() == 0 {
                None
            } else {
                Some(&self.history().last())
            }),
    {
        if self.trades.len() == 0 {
            None
        } else {
            Some(&self.trades[self.trades.len() - 1])
        }
    }

    pub fn len(&self) -> (r: usize)
        ensures
            r == self.history().len(),
    {
        self.trades.len()
    }

    pub fn is_empty(&self) -> (r: bool)
        ensures
            r == (self.history().len() == 0),
    {
        self.trades.len() == 0
    }

    fn record(&mut self, trade: TapeTrade)
        requires
            old(self).wf(),
        ensures
            final(self).wf(),
            final(self).cap == old(self).cap,
            final(self).trades@ == record_spec(old(self).trades@, old(self).cap, trade),
    {
        self.trades.push_back(trade);
        match self.cap {
            Some(cap) => {
                if self.trades.len() > cap {
                    let _ = self.trades.pop_front();
                    proof {
                        assert(self.trades@ =~= old(self).trades@.push(trade).drop_first());
                    }
                }
            },
            None => {},
        }
    }
}

impl Default for TradeTape {
    fn default() -> (r: Self)
        ensures
            r.wf(),
            r.history() == Seq::<TapeTrade>::empty(),
            r.capacity() is None,
    {
        TradeTape::new()
    }
}

} // verus!

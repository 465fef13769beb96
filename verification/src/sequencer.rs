use vstd::prelude::*;

use crate::types::{OrderId, SeqNum};

verus! {

/// Numbers commands and hands out order ids.
#[derive(Clone, Copy, Debug)]
pub struct Sequencer {
    seq: SeqNum,
    next_order_id: OrderId,
}

impl Sequencer {
    /// The last sequence number handed out.
    pub closed spec fn seq_spec(&self) -> SeqNum {
        self.seq
    }

    /// The order id the next new order gets.
    pub closed spec fn next_id_spec(&self) -> OrderId {
        self.next_order_id
    }

    pub fn new() -> (r: Self)
        ensures
            r.seq_spec() == 0,
            r.next_id_spec() == 1,
    {
        Sequencer { seq: 0, next_order_id: 1 }
    }

    /// The next sequence number.
    pub fn next_seq(&mut self) -> (r: SeqNum)
        requires
            old(self).seq_spec() < u64::MAX,
        ensures
            r == old(self).seq_spec() + 1,
            final(self).seq_spec() == r,
            final(self).next_id_spec() == old(self).next_id_spec(),
    {
        self.seq = self.seq + 1;
        self.seq
    }

    /// The next order id.
    pub fn next_order_id(&mut self) -> (r: OrderId)
        requires
            old(self).next_id_spec() < u64::MAX,
        ensures
            r == old(self).next_id_spec(),
            final(self).next_id_spec() == r + 1,
            final(self).seq_spec() == old(self).seq_spec(),
    {
        let id = self.next_order_id;
        self.next_order_id = self.next_order_id + 1;
        id
    }

    pub fn current_seq(&self) -> (r: SeqNum)
        ensures
            r == self.seq_spec(),
    {
        self.seq
    }

    /// The counters `(seq, next order id)`.
    pub fn snapshot(&self) -> (r: (SeqNum, OrderId))
        ensures
            r == (self.seq_spec(), self.next_id_spec()),
    {
        (self.seq, self.next_order_id)
    }

    /// A sequencer resuming from the given counters.
    pub fn restore(seq: SeqNum, next_order_id: OrderId) -> (r: Self)
        ensures
            r.seq_spec() == seq,
            r.next_id_spec() == next_order_id,
    {
        Sequencer { seq, next_order_id }
    }
}

impl Default for Sequencer {
    fn default() -> (r: Self)
        ensures
            r.seq_spec() == 0,
            r.next_id_spec() == 1,
    {
        Sequencer::new()
    }
}

} // verus!

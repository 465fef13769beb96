use vstd::prelude::*;

use crate::error::RejectReason;
use crate::types::{OrderId, Price, Qty, SeqNum, Side};

verus! {

/// One outcome of processing a command.
#[derive(Clone, Copy, Debug, PartialEq, Eq, Structural)]
pub enum Event {
    Accepted { seq: SeqNum, order_id: OrderId },
    Rejected { seq: SeqNum, reason: RejectReason },
    Trade {
        seq: SeqNum,
        taker_order_id: OrderId,
        maker_order_id: OrderId,
        price: Price,
        qty: Qty,
        taker_side: Side,
        taker_fee: i64,
        maker_fee: i64,
    },
    Resting { seq: SeqNum, order_id: OrderId, price: Price, qty: Qty },
    Filled { seq: SeqNum, order_id: OrderId },
    Canceled { seq: SeqNum, order_id: OrderId },
    Modified { seq: SeqNum, order_id: OrderId },
    Triggered { seq: SeqNum, order_id: OrderId },
}

impl Event {
    /// The sequence number every event carries.
    pub open spec fn seq_of(self) -> SeqNum {
        match self {
            Event::Accepted { seq, .. } => seq,
            Event::Rejected { seq, .. } => seq,
            Event::Trade { seq, .. } => seq,
            Event::Resting { seq, .. } => seq,
            Event::Filled { seq, .. } => seq,
            Event::Canceled { seq, .. } => seq,
            Event::Modified { seq, .. } => seq,
            Event::Triggered { seq, .. } => seq,
        }
    }
}

/// Every event of `events` carries the sequence number `seq`.
pub open spec fn all_tagged(events: Seq<Event>, seq: SeqNum) -> bool {
    forall|i: int| 0 <= i < events.len() ==> (#[trigger] events[i]).seq_of() == seq
}

} // verus!

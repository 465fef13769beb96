use vstd::prelude::*;

verus! {

/// Why a command was refused.
#[derive(Clone, Copy, Debug, PartialEq, Eq, Structural)]
pub enum RejectReason {
    ZeroQuantity,
    InvalidPrice,
    UnknownOrder,
    InsufficientLiquidity,
    WouldCross,
    TickSize,
    LotSize,
    PriceBand,
    PositionLimit,
}

} // verus!

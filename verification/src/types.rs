use vstd::prelude::*;

verus! {

pub type OrderId = u64;

pub type SeqNum = u64;

pub type Timestamp = u64;

pub type Price = u64;

pub type Qty = u64;

pub type AccountId = u64;

/// The side of the book an order rests on or aggresses from.
#[derive(Clone, Copy, Debug, PartialEq, Eq, Hash, Structural)]
pub enum Side {
    Buy,
    Sell,
}

impl Side {
    pub open spec fn spec_opposite(self) -> Side {
        match self {
            Side::Buy => Side::Sell,
            Side::Sell => Side::Buy,
        }
    }

    /// The other side of the book.
    #[verifier::when_used_as_spec(spec_opposite)]
    pub fn opposite(self) -> (r: Side)
        ensures
            r == self.spec_opposite(),
    {
        match self {
            Side::Buy => Side::Sell,
            Side::Sell => Side::Buy,
        }
    }
}

/// How an order is priced and when it reaches the book.
#[derive(Clone, Copy, Debug, PartialEq, Eq, Structural)]
pub enum OrderType {
    Limit,
    Market,
    Stop { trigger: Price },
    StopLimit { trigger: Price },
    Iceberg { display: Qty },
}

/// How long an order may live.
#[derive(Clone, Copy, Debug, PartialEq, Eq, Structural)]
pub enum TimeInForce {
    Gtc,
    Ioc,
    Fok,
    PostOnly,
}

impl Default for TimeInForce {
    fn default() -> (r: Self)
        ensures
            r == TimeInForce::Gtc,
    {
        TimeInForce::Gtc
    }
}

/// Self-trade prevention policy of an aggressor.
#[derive(Clone, Copy, Debug, PartialEq, Eq, Structural)]
pub enum StpMode {
    Off,
    CancelTaker,
    CancelMaker,
    CancelBoth,
}

impl Default for StpMode {
    fn default() -> (r: Self)
        ensures
            r == StpMode::Off,
    {
        StpMode::Off
    }
}

} // verus!

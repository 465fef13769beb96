use vstd::prelude::*;

use crate::types::{AccountId, OrderId, OrderType, Price, Qty, Side, StpMode, TimeInForce};

verus! {

/// A command submitted to the order book.
#[derive(Clone, Copy, Debug, PartialEq, Eq, Structural)]
pub enum Command {
    New(NewOrder),
    Cancel(CancelOrder),
    Modify(ModifyOrder),
}

/// A request to place a new order.
#[derive(Clone, Copy, Debug, PartialEq, Eq, Structural)]
pub struct NewOrder {
    pub side: Side,
    pub order_type: OrderType,
    pub price: Price,
    pub qty: Qty,
    pub tif: TimeInForce,
    pub owner: AccountId,
    pub stp: StpMode,
}

impl NewOrder {
    /// A good-till-cancel limit order with no owner.
    pub fn limit(side: Side, price: Price, qty: Qty) -> (r: Self)
        ensures
            r == (NewOrder {
                side,
                order_type: OrderType::Limit,
                price,
                qty,
                tif: TimeInForce::Gtc,
                owner: 0,
                stp: StpMode::Off,
            }),
    {
        NewOrder {
            side,
            order_type: OrderType::Limit,
            price,
            qty,
            tif: TimeInForce::Gtc,
            owner: 0,
            stp: StpMode::Off,
        }
    }

    /// An immediate-or-cancel market order with no owner.
    pub fn market(side: Side, qty: Qty) -> (r: Self)
        ensures
            r == (NewOrder {
                side,
                order_type: OrderType::Market,
                price: 0,
                qty,
                tif: TimeInForce::Ioc,
                owner: 0,
                stp: StpMode::Off,
            }),
    {
        NewOrder {
            side,
            order_type: OrderType::Market,
            price: 0,
            qty,
            tif: TimeInForce::Ioc,
            owner: 0,
            stp: StpMode::Off,
        }
    }

    /// A stop order that becomes a market order once the last trade reaches `trigger`.
    pub fn stop(side: Side, trigger: Price, qty: Qty) -> (r: Self)
        ensures
            r == (NewOrder {
                side,
                order_type: OrderType::Stop { trigger },
                price: 0,
                qty,
                tif: TimeInForce::Gtc,
                owner: 0,
                stp: StpMode::Off,
            }),
    {
        NewOrder {
            side,
            order_type: OrderType::Stop { trigger },
            price: 0,
            qty,
            tif: TimeInForce::Gtc,
            owner: 0,
            stp: StpMode::Off,
        }
    }

    /// A stop order that becomes a limit order at `price` once the last trade reaches `trigger`.
    pub fn stop_limit(side: Side, trigger: Price, price: Price, qty: Qty) -> (r: Self)
        ensures
            r == (NewOrder {
                side,
                order_type: OrderType::StopLimit { trigger },
                price,
                qty,
                tif: TimeInForce::Gtc,
                owner: 0,
                stp: StpMode::Off,
            }),
    {
        NewOrder {
            side,
            order_type: OrderType::StopLimit { trigger },
            price,
            qty,
            tif: TimeInForce::Gtc,
            owner: 0,
            stp: StpMode::Off,
        }
    }

    /// A limit order of total size `qty` that shows at most `display` at a time.
    pub fn iceberg(side: Side, price: Price, qty: Qty, display: Qty) -> (r: Self)
        ensures
            r == (NewOrder {
                side,
                order_type: OrderType::Iceberg { display },
                price,
                qty,
                tif: TimeInForce::Gtc,
                owner: 0,
                stp: StpMode::Off,
            }),
    {
        NewOrder {
            side,
            order_type: OrderType::Iceberg { display },
            price,
            qty,
            tif: TimeInForce::Gtc,
            owner: 0,
            stp: StpMode::Off,
        }
    }

    /// The same order with time-in-force `tif`.
    pub fn with_tif(self, tif: TimeInForce) -> (r: Self)
        ensures
            r == (NewOrder { tif, ..self }),
    {
        NewOrder { tif, ..self }
    }

    /// The same order stamped with the account `owner`.
    pub fn with_owner(self, owner: AccountId) -> (r: Self)
        ensures
            r == (NewOrder { owner, ..self }),
    {
        NewOrder { owner, ..self }
    }

    /// The same order with self-trade prevention mode `stp`.
    pub fn with_stp(self, stp: StpMode) -> (r: Self)
        ensures
            r == (NewOrder { stp, ..self }),
    {
        NewOrder { stp, ..self }
    }
}

/// A request to cancel a resting or dormant order.
#[derive(Clone, Copy, Debug, PartialEq, Eq, Structural)]
pub struct CancelOrder {
    pub order_id: OrderId,
}

/// A request to amend the price and quantity of a resting order.
#[derive(Clone, Copy, Debug, PartialEq, Eq, Structural)]
pub struct ModifyOrder {
    pub order_id: OrderId,
    pub price: Price,
    pub qty: Qty,
}

impl ModifyOrder {
    pub fn new(order_id: OrderId, price: Price, qty: Qty) -> (r: Self)
        ensures
            r == (ModifyOrder { order_id, price, qty }),
    {
        ModifyOrder { order_id, price, qty }
    }
}

impl From<NewOrder> for Command {
    fn from(order: NewOrder) -> (r: Self) {
        Command::New(order)
    }
}

impl vstd::std_specs::convert::FromSpecImpl<NewOrder> for Command {
    open spec fn obeys_from_spec() -> bool {
        true
    }

    open spec fn from_spec(order: NewOrder) -> Self {
        Command::New(order)
    }
}

impl From<CancelOrder> for Command {
    fn from(cancel: CancelOrder) -> (r: Self) {
        Command::Cancel(cancel)
    }
}

impl vstd::std_specs::convert::FromSpecImpl<CancelOrder> for Command {
    open spec fn obeys_from_spec() -> bool {
        true
    }

    open spec fn from_spec(cancel: CancelOrder) -> Self {
        Command::Cancel(cancel)
    }
}

} // verus!

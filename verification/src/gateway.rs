use vstd::prelude::*;

use crate::error::RejectReason;
use crate::order::{Command, ModifyOrder, NewOrder};
use crate::risk::RiskConfig;
use crate::types::{AccountId, OrderType, Price, Qty, Side};

verus! {

/// The first stage: structural checks of a command, and the opt-in pre-trade risk checks.
#[derive(Clone, Copy, Debug)]
pub struct Gateway {
    risk: RiskConfig,
}

/// What the risk checks read from the book: the mid price and the exposure of the account.
#[derive(Clone, Copy, Debug)]
pub struct RiskContext {
    pub mid: Option<Price>,
    pub owner: AccountId,
    pub side: Side,
    pub net: i128,
    pub open: Qty,
}

/// The net positions the risk checks can evaluate without overflow.
pub open spec fn net_in_range(net: i128) -> bool {
    -(i128::MAX - 2 * u64::MAX) <= net <= i128::MAX - 2 * u64::MAX
}

impl RiskContext {
    /// The context of a command the risk checks do not look at.
    pub fn inert() -> (r: RiskContext)
        ensures
            r == (RiskContext { mid: None, owner: 0, side: Side::Buy, net: 0, open: 0 }),
    {
        RiskContext { mid: None, owner: 0, side: Side::Buy, net: 0, open: 0 }
    }
}

/// The structural rules of a new order.
pub open spec fn structural_new_spec(order: NewOrder) -> Result<(), RejectReason> {
    if order.qty == 0 {
        Err(RejectReason::ZeroQuantity)
    } else {
        match order.order_type {
            OrderType::Limit => if order.price == 0 {
                Err(RejectReason::InvalidPrice)
            } else {
                Ok(())
            },
            OrderType::Market => Ok(()),
            OrderType::Stop { trigger } => if trigger == 0 {
                Err(RejectReason::InvalidPrice)
            } else {
                Ok(())
            },
            OrderType::StopLimit { trigger } => if trigger == 0 || order.price == 0 {
                Err(RejectReason::InvalidPrice)
            } else {
                Ok(())
            },
            OrderType::Iceberg { display } => if order.price == 0 {
                Err(RejectReason::InvalidPrice)
            } else if display == 0 {
                Err(RejectReason::ZeroQuantity)
            } else {
                Ok(())
            },
        }
    }
}

/// The structural rules of an amendment.
pub open spec fn structural_modify_spec(modify: ModifyOrder) -> Result<(), RejectReason> {
    if modify.qty == 0 {
        Err(RejectReason::ZeroQuantity)
    } else if modify.price == 0 {
        Err(RejectReason::InvalidPrice)
    } else {
        Ok(())
    }
}

/// The structural rules of any command; a cancel always passes.
pub open spec fn structural_spec(command: Command) -> Result<(), RejectReason> {
    match command {
        Command::New(order) => structural_new_spec(order),
        Command::Cancel(_) => Ok(()),
        Command::Modify(modify) => structural_modify_spec(modify),
    }
}

/// The prices of an order the tick rule applies to.
pub open spec fn order_prices_spec(order: NewOrder) -> (Option<Price>, Option<Price>) {
    match order.order_type {
        OrderType::Limit => (Some(order.price), None),
        OrderType::Iceberg { .. } => (Some(order.price), None),
        OrderType::Market => (None, None),
        OrderType::Stop { trigger } => (Some(trigger), None),
        OrderType::StopLimit { trigger } => (Some(trigger), Some(order.price)),
    }
}

/// The price the band applies to: limit and iceberg orders only.
pub open spec fn corridor_price_spec(order: NewOrder) -> Option<Price> {
    match order.order_type {
        OrderType::Limit => Some(order.price),
        OrderType::Iceberg { .. } => Some(order.price),
        _ => None,
    }
}

pub open spec fn tick_fails(risk: RiskConfig, p: Option<Price>) -> bool {
    match p {
        Some(x) => !risk.tick_ok_spec(x),
        None => false,
    }
}

/// The risk rules of a new order, in the order they are checked.
pub open spec fn risk_new_spec(risk: RiskConfig, order: NewOrder, ctx: RiskContext) -> Result<(), RejectReason> {
    if !risk.lot_ok_spec(order.qty) {
        Err(RejectReason::LotSize)
    } else if (match order.order_type {
        OrderType::Iceberg { display } => !risk.lot_ok_spec(display),
        _ => false,
    }) {
        Err(RejectReason::LotSize)
    } else if tick_fails(risk, order_prices_spec(order).0) || tick_fails(risk, order_prices_spec(order).1) {
        Err(RejectReason::TickSize)
    } else if (match corridor_price_spec(order) {
        Some(p) => !risk.band_ok_spec(ctx.mid, p),
        None => false,
    }) {
        Err(RejectReason::PriceBand)
    } else if order.owner != 0 && !risk.position_ok_spec(ctx.net, ctx.open, order.side, order.qty) {
        Err(RejectReason::PositionLimit)
    } else {
        Ok(())
    }
}

/// The risk rules of an amendment, in the order they are checked.
pub open spec fn risk_modify_spec(risk: RiskConfig, modify: ModifyOrder, ctx: RiskContext) -> Result<(), RejectReason> {
    if !risk.lot_ok_spec(modify.qty) {
        Err(RejectReason::LotSize)
    } else if !risk.tick_ok_spec(modify.price) {
        Err(RejectReason::TickSize)
    } else if !risk.band_ok_spec(ctx.mid, modify.price) {
        Err(RejectReason::PriceBand)
    } else if ctx.owner != 0 && !risk.position_ok_spec(ctx.net, ctx.open, ctx.side, modify.qty) {
        Err(RejectReason::PositionLimit)
    } else {
        Ok(())
    }
}

/// The structural rules, then (when any risk check is on) the risk rules.
pub open spec fn validate_risk_spec(risk: RiskConfig, command: Command, ctx: RiskContext) -> Result<(), RejectReason> {
    match structural_spec(command) {
        Err(e) => Err(e),
        Ok(()) => if !risk.active() {
            Ok(())
        } else {
            match command {
                Command::New(order) => risk_new_spec(risk, order, ctx),
                Command::Cancel(_) => Ok(()),
                Command::Modify(modify) => risk_modify_spec(risk, modify, ctx),
            }
        },
    }
}

fn structural(command: &Command) -> (r: Result<(), RejectReason>)
    ensures
        r == structural_spec(*command),
{
    match command {
        Command::New(order) => structural_new(order),
        Command::Cancel(_) => Ok(()),
        Command::Modify(modify) => structural_modify(modify),
    }
}

fn structural_new(order: &NewOrder) -> (r: Result<(), RejectReason>)
    ensures
        r == structural_new_spec(*order),
{
    if order.qty == 0 {
        return Err(RejectReason::ZeroQuantity);
    }
    match order.order_type {
        OrderType::Limit => {
            if order.price == 0 {
                return Err(RejectReason::InvalidPrice);
            }
        },
        OrderType::Market => {},
        OrderType::Stop { trigger } => {
            if trigger == 0 {
                return Err(RejectReason::InvalidPrice);
            }
        },
        OrderType::StopLimit { trigger } => {
            if trigger == 0 || order.price == 0 {
                return Err(RejectReason::InvalidPrice);
            }
        },
        OrderType::Iceberg { display } => {
            if order.price == 0 {
                return Err(RejectReason::InvalidPrice);
            }
            if display == 0 {
                return Err(RejectReason::ZeroQuantity);
            }
        },
    }
    Ok(())
}

fn structural_modify(modify: &ModifyOrder) -> (r: Result<(), RejectReason>)
    ensures
        r == structural_modify_spec(*modify),
{
    if modify.qty == 0 {
        return Err(RejectReason::ZeroQuantity);
    }
    if modify.price == 0 {
        return Err(RejectReason::InvalidPrice);
    }
    Ok(())
}

fn order_prices(order: &NewOrder) -> (r: [Option<Price>; 2])
    ensures
        r@ == seq![order_prices_spec(*order).0, order_prices_spec(*order).1],
{
    let r = match order.order_type {
        OrderType::Limit | OrderType::Iceberg { .. } => [Some(order.price), None],
        OrderType::Market => [None, None],
        OrderType::Stop { trigger } => [Some(trigger), None],
        OrderType::StopLimit { trigger } => [Some(trigger), Some(order.price)],
    };
    proof {
        assert(r@ =~= seq![order_prices_spec(*order).0, order_prices_spec(*order).1]);
    }
    r
}

fn corridor_price(order: &NewOrder) -> (r: Option<Price>)
    ensures
        r == corridor_price_spec(*order),
{
    match order.order_type {
        OrderType::Limit | OrderType::Iceberg { .. } => Some(order.price),
        _ => None,
    }
}

impl Gateway {
    pub closed spec fn risk(&self) -> RiskConfig {
        self.risk
    }

    pub fn new() -> (r: Self)
        ensures
            r.risk() == (RiskConfig { tick_size: 0, lot_size: 0, band_ticks: 0, position_limit: 0 }),
    {
        Gateway { risk: RiskConfig::new() }
    }

    pub fn with_config(risk: RiskConfig) -> (r: Self)
        ensures
            r.risk() == risk,
    {
        Gateway { risk }
    }

    /// The structural check of a command.
    pub fn validate(&self, command: &Command) -> (r: Result<(), RejectReason>)
        ensures
            r == structural_spec(*command),
    {
        structural(command)
    }

    pub fn has_risk(&self) -> (r: bool)
        ensures
            r == self.risk().active(),
    {
        self.risk.is_active()
    }

    /// The structural check, then the risk checks against `ctx`.
    pub fn validate_risk(&self, command: &Command, ctx: &RiskContext) -> (r: Result<(), RejectReason>)
        requires
            net_in_range(ctx.net),
        ensures
            r == validate_risk_spec(self.risk(), *command, *ctx),
    {
        let s = structural(command);
        if s.is_err() {
            return s;
        }
        if !self.risk.is_active() {
            return Ok(());
        }
        match command {
            Command::New(order) => self.risk_new(order, ctx),
            Command::Cancel(_) => Ok(()),
            Command::Modify(modify) => self.risk_modify(modify, ctx),
        }
    }

    fn risk_new(&self, order: &NewOrder, ctx: &RiskContext) -> (r: Result<(), RejectReason>)
        requires
            net_in_range(ctx.net),
        ensures
            r == risk_new_spec(self.risk(), *order, *ctx),
    {
        if !self.risk.lot_ok(order.qty) {
            return Err(RejectReason::LotSize);
        }
        if let OrderType::Iceberg { display } = order.order_type {
            if !self.risk.lot_ok(display) {
                return Err(RejectReason::LotSize);
            }
        }
        let prices = order_prices(order);
        let mut i: usize = 0;
        while i < 2
            invariant
                prices@ == seq![order_prices_spec(*order).0, order_prices_spec(*order).1],
                i <= 2,
                forall|j: int| 0 <= j < i ==> !tick_fails(self.risk(), #[trigger] prices@[j]),
                self.risk().lot_ok_spec(order.qty),
                match order.order_type {
                    OrderType::Iceberg { display } => self.risk().lot_ok_spec(display),
                    _ => true,
                },
            decreases 2 - i,
        {
            if let Some(price) = prices[i] {
                if !self.risk.tick_ok(price) {
                    proof {
                        assert(tick_fails(self.risk(), prices@[i as int]));
                    }
                    return Err(RejectReason::TickSize);
                }
            }
            i = i + 1;
        }
        proof {
            assert(!tick_fails(self.risk(), prices@[0]));
            assert(!tick_fails(self.risk(), prices@[1]));
        }
        if let Some(price) = corridor_price(order) {
            if !self.risk.band_ok(ctx.mid, price) {
                return Err(RejectReason::PriceBand);
            }
        }
        if order.owner != 0 && !self.risk.position_ok(ctx.net, ctx.open, order.side, order.qty) {
            return Err(RejectReason::PositionLimit);
        }
        Ok(())
    }

    fn risk_modify(&self, modify: &ModifyOrder, ctx: &RiskContext) -> (r: Result<(), RejectReason>)
        requires
            net_in_range(ctx.net),
        ensures
            r == risk_modify_spec(self.risk(), *modify, *ctx),
    {
        if !self.risk.lot_ok(modify.qty) {
            return Err(RejectReason::LotSize);
        }
        if !self.risk.tick_ok(modify.price) {
            return Err(RejectReason::TickSize);
        }
        if !self.risk.band_ok(ctx.mid, modify.price) {
            return Err(RejectReason::PriceBand);
        }
        if ctx.owner != 0 && !self.risk.position_ok(ctx.net, ctx.open, ctx.side, modify.qty) {
            return Err(RejectReason::PositionLimit);
        }
        Ok(())
    }
}

impl Default for Gateway {
    fn default() -> (r: Self)
        ensures
            r.risk() == (RiskConfig { tick_size: 0, lot_size: 0, band_ticks: 0, position_limit: 0 }),
    {
        Gateway::new()
    }
}

impl Default for RiskContext {
    fn default() -> (r: Self)
        ensures
            r == (RiskContext { mid: None, owner: 0, side: Side::Buy, net: 0, open: 0 }),
    {
        RiskContext::inert()
    }
}

} // verus!

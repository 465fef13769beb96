use vstd::prelude::*;

use crate::types::{Price, Qty, Side};

verus! {

/// Pre-trade risk parameters; a zero (or one, for tick and lot) switches a check off.
#[derive(Clone, Copy, Debug, PartialEq, Eq, Structural)]
pub struct RiskConfig {
    pub tick_size: Price,
    pub lot_size: Qty,
    pub band_ticks: u64,
    pub position_limit: Qty,
}

impl RiskConfig {
    pub open spec fn active(self) -> bool {
        self.tick_size > 1 || self.lot_size > 1 || self.band_ticks > 0 || self.position_limit > 0
    }

    /// `price` is a multiple of the tick size.
    pub open spec fn tick_ok_spec(self, price: Price) -> bool {
        self.tick_size <= 1 || price % self.tick_size == 0
    }

    /// `qty` is a multiple of the lot size.
    pub open spec fn lot_ok_spec(self, qty: Qty) -> bool {
        self.lot_size <= 1 || qty % self.lot_size == 0
    }

    /// `price` lies within `band_ticks` ticks of `mid` (always, without a band or a mid).
    pub open spec fn band_ok_spec(self, mid: Option<Price>, price: Price) -> bool {
        if self.band_ticks == 0 {
            true
        } else {
            match mid {
                None => true,
                Some(m) => {
                    let offset = self.band_ticks * (if self.tick_size > 1 { self.tick_size as int } else { 1int });
                    let lo = if m >= offset { m - offset } else { 0 };
                    let hi = if m + offset <= u128::MAX { m + offset } else { u128::MAX as int };
                    lo <= price <= hi
                },
            }
        }
    }

    /// The worst-case position after adding `qty` on `side` stays within the limit.
    pub open spec fn position_ok_spec(self, net: i128, open: Qty, side: Side, qty: Qty) -> bool {
        self.position_limit == 0 || (match side {
            Side::Buy => net + open + qty,
            Side::Sell => -net + open + qty,
        }) <= self.position_limit
    }

    pub fn new() -> (r: Self)
        ensures
            r == (RiskConfig { tick_size: 0, lot_size: 0, band_ticks: 0, position_limit: 0 }),
    {
        RiskConfig { tick_size: 0, lot_size: 0, band_ticks: 0, position_limit: 0 }
    }

    pub fn with_tick(self, tick_size: Price) -> (r: Self)
        ensures
            r == (RiskConfig { tick_size, ..self }),
    {
        RiskConfig { tick_size, ..self }
    }

    pub fn with_lot(self, lot_size: Qty) -> (r: Self)
        ensures
            r == (RiskConfig { lot_size, ..self }),
    {
        RiskConfig { lot_size, ..self }
    }

    pub fn with_price_band(self, band_ticks: u64) -> (r: Self)
        ensures
            r == (RiskConfig { band_ticks, ..self }),
    {
        RiskConfig { band_ticks, ..self }
    }

    pub fn with_position_limit(self, position_limit: Qty) -> (r: Self)
        ensures
            r == (RiskConfig { position_limit, ..self }),
    {
        RiskConfig { position_limit, ..self }
    }

    /// Any check is switched on.
    pub fn is_active(&self) -> (r: bool)
        ensures
            r == self.active(),
    {
        self.tick_size > 1 || self.lot_size > 1 || self.band_ticks > 0 || self.position_limit > 0
    }

    pub fn tick_ok(&self, price: Price) -> (r: bool)
        ensures
            r == self.tick_ok_spec(price),
    {
        self.tick_size <= 1 || price % self.tick_size == 0
    }

    pub fn lot_ok(&self, qty: Qty) -> (r: bool)
        ensures
            r == self.lot_ok_spec(qty),
    {
        self.lot_size <= 1 || qty % self.lot_size == 0
    }

    pub fn band_ok(&self, mid: Option<Price>, price: Price) -> (r: bool)
        ensures
            r == self.band_ok_spec(mid, price),
    {
        if self.band_ticks == 0 {
            return true;
        }
        let m = match mid {
            Some(m) => m,
            None => {
                return true;
            },
        };
        let tick: u128 = if self.tick_size > 1 { self.tick_size as u128 } else { 1 };
        proof {
            assert(self.band_ticks * tick <= u64::MAX * u64::MAX) by (nonlinear_arith)
                requires
                    self.band_ticks <= u64::MAX,
                    tick <= u64::MAX,
            ;
        }
        let offset: u128 = (self.band_ticks as u128) * tick;
        let m128 = m as u128;
        let lo = m128.saturating_sub(offset);
        let hi = m128.saturating_add(offset);
        let p = price as u128;
        p >= lo && p <= hi
    }

    pub fn position_ok(&self, net: i128, open: Qty, side: Side, qty: Qty) -> (r: bool)
        requires
            -(i128::MAX - 2 * u64::MAX) <= net <= i128::MAX - 2 * u64::MAX,
        ensures
            r == self.position_ok_spec(net, open, side, qty),
    {
        if self.position_limit == 0 {
            return true;
        }
        let projected = match side {
            Side::Buy => net + open as i128 + qty as i128,
            Side::Sell => -net + open as i128 + qty as i128,
        };
        projected <= self.position_limit as i128
    }
}

impl Default for RiskConfig {
    fn default() -> (r: Self)
        ensures
            r == (RiskConfig { tick_size: 0, lot_size: 0, band_ticks: 0, position_limit: 0 }),
    {
        RiskConfig::new()
    }
}

} // verus!

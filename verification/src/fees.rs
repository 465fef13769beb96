use vstd::prelude::*;

use crate::types::{Price, Qty};

verus! {

/// Maker and taker fee rates in parts per million of the notional; negative rates are rebates.
#[derive(Clone, Copy, Debug, PartialEq, Eq, Structural)]
pub struct FeeConfig {
    pub maker_ppm: i64,
    pub taker_ppm: i64,
}

/// `x` clamped to the range of `i128`.
pub open spec fn clamp_i128(x: int) -> int {
    if x > i128::MAX {
        i128::MAX as int
    } else if x < i128::MIN {
        i128::MIN as int
    } else {
        x
    }
}

/// `x` clamped to the range of `i64`.
pub open spec fn clamp_i64(x: int) -> int {
    if x > i64::MAX {
        i64::MAX as int
    } else if x < i64::MIN {
        i64::MIN as int
    } else {
        x
    }
}

/// `x / d` rounded toward zero.
pub open spec fn div_trunc(x: int, d: int) -> int {
    if x >= 0 {
        x / d
    } else {
        -((-x) / d)
    }
}

/// The fee at `rate_ppm` on `qty` at `price`: `price * qty * rate_ppm / 1_000_000`, each
/// product saturating in `i128`, rounded toward zero and clamped to `i64`.
pub open spec fn fee_spec(rate_ppm: i64, price: Price, qty: Qty) -> i64 {
    if rate_ppm == 0 {
        0
    } else {
        let notional = clamp_i128(price * qty);
        let scaled = clamp_i128(notional * rate_ppm);
        clamp_i64(div_trunc(scaled, 1_000_000)) as i64
    }
}

fn saturating_mul_i128(a: i128, b: i128) -> (r: i128)
    ensures
        r == clamp_i128(a * b),
{
    match a.checked_mul(b) {
        Some(p) => p,
        None => {
            proof {
                assert(a != 0 && b != 0) by (nonlinear_arith)
                    requires
                        a * b > i128::MAX || a * b < i128::MIN,
                ;
                if (a < 0) == (b < 0) {
                    assert(a * b > 0) by (nonlinear_arith)
                        requires
                            (a < 0) == (b < 0),
                            a != 0,
                            b != 0,
                    ;
                } else {
                    assert(a * b < 0) by (nonlinear_arith)
                        requires
                            (a < 0) != (b < 0),
                            a != 0,
                            b != 0,
                    ;
                }
            }
            if (a < 0) == (b < 0) {
                i128::MAX
            } else {
                i128::MIN
            }
        },
    }
}

fn div_trunc_million(x: i128) -> (r: i128)
    ensures
        r == div_trunc(x as int, 1_000_000),
{
    if x >= 0 {
        x / 1_000_000
    } else {
        let y: i128 = -(x + 1);
        let a: u128 = y as u128 + 1;
        let q: u128 = a / 1_000_000;
        proof {
            assert(q <= a);
        }
        -(q as i128)
    }
}

impl FeeConfig {
    pub fn new() -> (r: Self)
        ensures
            r == (FeeConfig { maker_ppm: 0, taker_ppm: 0 }),
    {
        FeeConfig { maker_ppm: 0, taker_ppm: 0 }
    }

    pub fn with_maker_ppm(self, maker_ppm: i64) -> (r: Self)
        ensures
            r == (FeeConfig { maker_ppm, ..self }),
    {
        FeeConfig { maker_ppm, ..self }
    }

    pub fn with_taker_ppm(self, taker_ppm: i64) -> (r: Self)
        ensures
            r == (FeeConfig { taker_ppm, ..self }),
    {
        FeeConfig { taker_ppm, ..self }
    }

    /// The aggressor's fee on a trade of `qty` at `price`.
    pub fn taker_fee(&self, price: Price, qty: Qty) -> (r: i64)
        ensures
            r == fee_spec(self.taker_ppm, price, qty),
    {
        Self::charge(self.taker_ppm, price, qty)
    }

    /// The resting order's fee (a rebate when negative) on a trade of `qty` at `price`.
    pub fn maker_fee(&self, price: Price, qty: Qty) -> (r: i64)
        ensures
            r == fee_spec(self.maker_ppm, price, qty),
    {
        Self::charge(self.maker_ppm, price, qty)
    }

    fn charge(rate_ppm: i64, price: Price, qty: Qty) -> (r: i64)
        ensures
            r == fee_spec(rate_ppm, price, qty),
    {
        if rate_ppm == 0 {
            return 0;
        }
        let notional = saturating_mul_i128(price as i128, qty as i128);
        let scaled = saturating_mul_i128(notional, rate_ppm as i128);
        let fee = div_trunc_million(scaled);
        if fee > i64::MAX as i128 {
            i64::MAX
        } else if fee < i64::MIN as i128 {
            i64::MIN
        } else {
            fee as i64
        }
    }
}

impl Default for FeeConfig {
    fn default() -> (r: Self)
        ensures
            r == (FeeConfig { maker_ppm: 0, taker_ppm: 0 }),
    {
        FeeConfig::new()
    }
}

} // verus!

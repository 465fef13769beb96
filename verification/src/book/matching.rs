use vstd::prelude::*;

use super::accounts::{fill_spec, nets_within, state_of, sub_open_spec};
use super::model::{
    after_fill, book_inv, crosses, detach_front, lemma_remove_inv, lemma_run, lemma_step,
    lemma_sum_elem, match_done, match_result, match_run, match_start, match_step, min_qty,
    self_match, sum_by, trade_accounts, vol, vol_fn, weight_fn, BookEntry, BookModel, Fill,
    MatchState, RestingOrder, Taker,
};
use super::{crosses_exec, MatchOutcome, OrderBook};
use crate::types::{AccountId, OrderId, Price, Qty, Side, StpMode};

verus! {

/// The match state an outcome and its fills stand for.
pub open spec fn outcome_state(book: BookModel, r: MatchOutcome, fills: Seq<Fill>) -> MatchState {
    MatchState {
        book,
        qty: r.remaining,
        stop: r.taker_canceled,
        taker_canceled: r.taker_canceled,
        self_canceled: r.self_canceled@,
        fills,
    }
}

impl OrderBook {
    /// The front of the opposite side trades against a taker on `taker_side` with `limit`.
    fn front_crosses(&self, taker_side: Side, limit: Option<Price>) -> (r: bool)
        ensures
            r == (self@.side(taker_side.opposite()).len() > 0 && crosses(
                taker_side,
                limit,
                self@.side(taker_side.opposite())[0].order.price,
            )),
    {
        let q = self.queue(taker_side.opposite());
        q.len() > 0 && crosses_exec(taker_side, limit, q[0].order.price)
    }

    /// Pulls the front order of `side` from the book, with its reserve.
    fn detach(&mut self, side: Side) -> (id: OrderId)
        requires
            old(self).wf(),
            old(self)@.side(side).len() > 0,
        ensures
            final(self).wf(),
            final(self)@ == detach_front(old(self)@, side),
            id == old(self)@.side(side)[0].order.id,
    {
        let ghost m = self@;
        let e = self.queue(side)[0];
        let hidden = match e.reserve {
            Some((_, h)) => h,
            None => 0,
        };
        proof {
            lemma_sum_elem(m.side(side), 0, vol_fn());
        }
        let total = e.order.qty + hidden;
        match side {
            Side::Buy => {
                self.bids.pop_front();
            },
            Side::Sell => {
                self.asks.pop_front();
            },
        }
        proof {
            assert(m.side(side).subrange(1, m.side(side).len() as int) =~= m.side(side).remove(0));
        }
        self.accounts.sub_open(e.order.owner, side, total);
        self.index.remove(&e.order.id);
        proof {
            lemma_remove_inv(m, side, 0);
            assert(self@.side(side.opposite()) == m.side(side.opposite())) by {
                match side {
                    Side::Buy => {},
                    Side::Sell => {},
                }
            }
            crate::mirror::lemma_loc_remove(m, self@, side, 0);
        }
        e.order.id
    }

    /// Trades up to `qty` against the front order of the side opposite `taker_side`.
    fn trade_front(&mut self, taker_side: Side, taker_owner: AccountId, qty: Qty) -> (r: Fill)
        requires
            old(self).wf(),
            old(self)@.side(taker_side.opposite()).len() > 0,
            nets_within(old(self)@.accounts, qty as nat),
        ensures
            final(self).accounts.wf(),
            final(self).index@ == crate::marketdata::loc_of(final(self)@),
            ({
                let ms_side = taker_side.opposite();
                let opp = old(self)@.side(ms_side);
                let e = opp[0];
                let traded = min_qty(qty, e.order.qty);
                &&& r == Fill { maker: RestingOrder { qty: traded, ..e.order }, qty: traded, price: e.order.price }
                &&& final(self)@ == old(self)@.with_side(ms_side, after_fill(opp, ms_side, e, traded)).with_accounts(
                    trade_accounts(old(self)@.accounts, taker_owner, taker_side, e.order.owner, traded),
                )
            }),
    {
        let ghost m = self@;
        let maker_side = taker_side.opposite();
        let e = self.queue(maker_side)[0];
        let traded = if qty <= e.order.qty { qty } else { e.order.qty };
        let fill = Fill { maker: RestingOrder { qty: traded, ..e.order }, qty: traded, price: e.order.price };
        proof {
            self.accounts.lemma_no_zero();
            super::model::lemma_trade_nets(m.accounts, taker_owner, taker_side, e.order.owner, traded, qty as nat);
        }
        self.accounts.fill(taker_owner, taker_side, traded);
        self.accounts.fill(e.order.owner, maker_side, traded);
        self.accounts.sub_open(e.order.owner, maker_side, traded);
        let left = e.order.qty - traded;
        if left > 0 {
            let e2 = BookEntry { order: RestingOrder { qty: left, ..e.order }, ..e };
            match maker_side {
                Side::Buy => {
                    self.bids.pop_front();
                    self.bids.push_front(e2);
                },
                Side::Sell => {
                    self.asks.pop_front();
                    self.asks.push_front(e2);
                },
            }
            proof {
                let s0 = m.side(maker_side);
                assert(seq![e2] + s0.subrange(1, s0.len() as int) =~= s0.update(0, e2));
            }
            proof {
                assert(crate::mirror::same_shape(m, self@)) by {
                    match maker_side {
                        Side::Buy => {},
                        Side::Sell => {},
                    }
                }
                crate::mirror::lemma_same_shape(m, self@);
            }
        } else {
            match maker_side {
                Side::Buy => {
                    self.bids.pop_front();
                },
                Side::Sell => {
                    self.asks.pop_front();
                },
            }
            proof {
                let s0 = m.side(maker_side);
                assert(s0.subrange(1, s0.len() as int) =~= s0.remove(0));
            }
            match e.reserve {
                Some((d, h)) => {
                    let peak = if d <= h { d } else { h };
                    let rest = h - peak;
                    let x = BookEntry {
                        order: RestingOrder { qty: peak, ..e.order },
                        reserve: if rest == 0 { None } else { Some((d, rest)) },
                    };
                    proof {
                        let s0 = m.side(maker_side);
                        assert(super::model::sorted(s0, maker_side)) by {
                            match maker_side {
                                Side::Buy => {},
                                Side::Sell => {},
                            }
                        }
                        assert(self@.side(maker_side) == s0.remove(0));
                        assert forall|a: int, b: int| 0 <= a < b < s0.remove(0).len() implies super::model::better_eq(
                            maker_side,
                            (#[trigger] s0.remove(0)[a]).order.price,
                            (#[trigger] s0.remove(0)[b]).order.price,
                        ) by {
                            assert(s0.remove(0)[a] == s0[a + 1] && s0.remove(0)[b] == s0[b + 1]);
                        }
                    }
                    let pos = self.insert_position(maker_side, x.order.price);
                    match maker_side {
                        Side::Buy => {
                            self.bids.insert(pos, x);
                        },
                        Side::Sell => {
                            self.asks.insert(pos, x);
                        },
                    }
                    proof {
                        assert(self@.side(maker_side.opposite()) == m.side(maker_side.opposite())) by {
                            match maker_side {
                                Side::Buy => {},
                                Side::Sell => {},
                            }
                        }
                        assert(self@.side(maker_side) == m.side(maker_side).remove(0).insert(pos as int, x));
                        crate::mirror::lemma_loc_requeue(m, self@, maker_side, pos as int, x);
                    }
                },
                None => {
                    self.index.remove(&e.order.id);
                    proof {
                        assert(self@.side(maker_side.opposite()) == m.side(maker_side.opposite())) by {
                            match maker_side {
                                Side::Buy => {},
                                Side::Sell => {},
                            }
                        }
                        crate::mirror::lemma_loc_remove(m, self@, maker_side, 0);
                    }
                },
            }
        }
        fill
    }

    /// Runs a taker against the opposite side of the book in price-time priority, at the
    /// resting orders' prices, until its quantity is exhausted, the side is empty, or the best
    /// price no longer crosses `limit_price` (a market taker crosses any price). An exhausted
    /// iceberg peak is refilled from its reserve and joins the back of its level. Self-trade
    /// prevention (`taker_stp` for a non-anonymous `taker_owner`) pulls the maker, the taker or
    /// both. Each execution is appended to `fills`.
    pub fn match_against(
        &mut self,
        taker_side: Side,
        taker_owner: AccountId,
        taker_stp: StpMode,
        limit_price: Option<Price>,
        qty: Qty,
        fills: &mut Vec<Fill>,
    ) -> (r: MatchOutcome)
        requires
            old(self).wf(),
            nets_within(old(self)@.accounts, qty as nat),
        ensures
            final(self).wf(),
            final(fills)@.len() >= old(fills)@.len(),
            final(fills)@.take(old(fills)@.len() as int) == old(fills)@,
            match_result(
                match_start(old(self)@, qty),
                Taker { side: taker_side, owner: taker_owner, stp: taker_stp, limit: limit_price },
                outcome_state(final(self)@, r, final(fills)@.skip(old(fills)@.len() as int)),
            ),
    {
        let ghost t = Taker { side: taker_side, owner: taker_owner, stp: taker_stp, limit: limit_price };
        let ghost start = match_start(self@, qty);
        let ghost fills0 = fills@;
        let ghost mut n: nat = 0;
        let maker_side = taker_side.opposite();
        let mut remaining = qty;
        let mut stop = false;
        let mut taker_canceled = false;
        let mut self_canceled: Vec<OrderId> = Vec::new();
        proof {
            assert(fills@.skip(fills0.len() as int) =~= Seq::<Fill>::empty());
            assert(self_canceled@ =~= Seq::<OrderId>::empty());
        }
        while !stop && remaining > 0 && self.front_crosses(taker_side, limit_price)
            invariant
                self.wf(),
                maker_side == taker_side.opposite(),
                t == (Taker { side: taker_side, owner: taker_owner, stp: taker_stp, limit: limit_price }),
                stop == taker_canceled,
                fills@.len() >= fills0.len(),
                fills@.take(fills0.len() as int) == fills0,
                match_run(start, t, n) == (MatchState {
                    book: self@,
                    qty: remaining,
                    stop,
                    taker_canceled,
                    self_canceled: self_canceled@,
                    fills: fills@.skip(fills0.len() as int),
                }),
                nets_within(self@.accounts, remaining as nat),
            decreases sum_by(self@.side(maker_side), weight_fn()), if stop { 0nat } else { 1nat },
        {
            let ghost cur = match_run(start, t, n);
            proof {
                lemma_step(cur, t, 0);
            }
            let front_owner = self.queue(maker_side)[0].order.owner;
            if taker_stp != StpMode::Off && taker_owner != 0 && front_owner == taker_owner {
                match taker_stp {
                    StpMode::CancelMaker => {
                        let id = self.detach(maker_side);
                        self_canceled.push(id);
                    },
                    StpMode::CancelBoth => {
                        let id = self.detach(maker_side);
                        self_canceled.push(id);
                        taker_canceled = true;
                        stop = true;
                    },
                    _ => {
                        taker_canceled = true;
                        stop = true;
                    },
                }
            } else {
                let fill = self.trade_front(taker_side, taker_owner, remaining);
                remaining = remaining - fill.qty;
                fills.push(fill);
            }
            proof {
                n = n + 1;
                let nxt = match_step(cur, t);
                assert(match_run(start, t, n) == nxt);
                assert(fills@.take(fills0.len() as int) =~= fills0);
                assert(fills@.skip(fills0.len() as int) =~= nxt.fills);
                assert(self_canceled@ =~= nxt.self_canceled);
            }
        }
        proof {
            assert(match_done(match_run(start, t, n), t));
        }
        MatchOutcome { remaining, taker_canceled, self_canceled }
    }
}

} // verus!

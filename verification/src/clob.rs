use vstd::prelude::*;

use crate::book::accounts::{lemma_nets_within_mono, nets_within, sat_sub, state_of, AccountState};
use crate::book::model::{
    add_reserve_spec, best_spec, book_volume, contains_spec, entries_of, get_spec, insert_spec,
    lemma_sum_elem, locate, reserve_spec, vol_fn, BookModel,
};
use crate::snapshot::{RestingEntry, SnapshotModel, SnapshotState};
use crate::stops::PendingStop;
use crate::book::accounts::restore_net_spec;
use crate::book::OrderBook;
use crate::checkpoint::restorable;
use crate::engine::{
    lemma_new_acknowledged, precheck_spec,
    cancel_cmd_spec, known_id, modify_spec, new_spec, room, tagged_from, uncrossed, EngineModel,
    MatchingEngine,
};
use crate::error::RejectReason;
use crate::fees::FeeConfig;
use crate::gateway::{net_in_range, structural_spec, validate_risk_spec, Gateway, RiskContext};
use crate::order::{Command, NewOrder};
use crate::types::OrderType;
use crate::output::{all_tagged, Event};
use crate::risk::RiskConfig;
use crate::sequencer::Sequencer;
use crate::stops::stops_volume;
use crate::types::{AccountId, OrderId, Price, Qty, SeqNum, Side};

verus! {

/// The abstract state of a venue: its risk limits, the last sequence number handed out,
/// the next order id and the engine.
pub struct ClobModel {
    pub risk: RiskConfig,
    pub seq: SeqNum,
    pub next_id: OrderId,
    pub engine: EngineModel,
}

/// `(best bid + best ask) / 2`, rounded down, when both sides have orders.
pub open spec fn mid_of(b: BookModel) -> Option<Price> {
    match (best_spec(b, Side::Buy), best_spec(b, Side::Sell)) {
        (Some(bid), Some(ask)) => Some(((bid + ask) / 2) as u64),
        _ => None,
    }
}

/// What the risk checks of `command` read from the book. An amendment is judged without
/// the volume of the order it replaces.
pub open spec fn risk_context_spec(b: BookModel, command: Command) -> RiskContext {
    let inert = RiskContext { mid: None, owner: 0, side: Side::Buy, net: 0, open: 0 };
    match command {
        Command::New(order) => RiskContext {
            mid: mid_of(b),
            owner: order.owner,
            side: order.side,
            net: state_of(b.accounts, order.owner).net,
            open: state_of(b.accounts, order.owner).open_on(order.side),
        },
        Command::Modify(modify) => match get_spec(b, modify.order_id) {
            Some((side, current)) => {
                let hidden: Qty = match reserve_spec(b, modify.order_id) {
                    Some((_, h)) => h,
                    None => 0,
                };
                RiskContext {
                    mid: mid_of(b),
                    owner: current.owner,
                    side,
                    net: state_of(b.accounts, current.owner).net,
                    open: sat_sub(
                        state_of(b.accounts, current.owner).open_on(side),
                        (current.qty + hidden) as u64,
                    ),
                }
            },
            None => inert,
        },
        Command::Cancel(_) => inert,
    }
}

/// The admission of a command: the risk checks when limits are set, else the structural ones.
pub open spec fn check_spec(c: ClobModel, command: Command) -> Result<(), RejectReason> {
    if c.risk.active() {
        validate_risk_spec(c.risk, command, risk_context_spec(c.engine.book, command))
    } else {
        structural_spec(command)
    }
}

/// One command: it gets the next sequence number (also its timestamp); a refused command is
/// answered by one rejection; a new order gets the next order id and is executed; cancels
/// and amendments are executed.
pub open spec fn submit_spec(c: ClobModel, command: Command) -> (ClobModel, Seq<Event>) {
    let seq = (c.seq + 1) as u64;
    match check_spec(c, command) {
        Err(reason) => (ClobModel { seq, ..c }, seq![Event::Rejected { seq, reason }]),
        Ok(()) => match command {
            Command::New(order) => {
                let (em, evs) = new_spec(c.engine, seq, c.next_id, order, seq);
                (ClobModel { seq, next_id: (c.next_id + 1) as u64, engine: em, ..c }, evs)
            },
            Command::Cancel(cancel) => {
                let (em, evs) = cancel_cmd_spec(c.engine, seq, cancel.order_id);
                (ClobModel { seq, engine: em, ..c }, evs)
            },
            Command::Modify(modify) => {
                let (em, evs) = modify_spec(c.engine, seq, modify, seq);
                (ClobModel { seq, engine: em, ..c }, evs)
            },
        },
    }
}

/// The quantity a command may add to the book.
pub open spec fn command_qty(command: Command) -> Qty {
    match command {
        Command::New(order) => order.qty,
        Command::Cancel(_) => 0,
        Command::Modify(modify) => modify.qty,
    }
}

/// The machine limits a command must stay within: the counters have not reached the top of
/// `u64`, the quantities of the book, the stops and the command fit in a `u64`, and every
/// net position is far enough from the bounds of `i128`.
pub open spec fn capacity_for(c: ClobModel, command: Command) -> bool {
    &&& c.seq < u64::MAX
    &&& c.next_id < u64::MAX
    &&& book_volume(c.engine.book) + stops_volume(c.engine.stops) + command_qty(command) <= u64::MAX
    &&& nets_within(c.engine.book.accounts, 2 * (u64::MAX as nat))
}

/// The state a command leaves a venue in.
#[verifier::opaque]
pub open spec fn after_submit(c: ClobModel, command: Command) -> ClobModel {
    submit_spec(c, command).0
}

/// Commands submitted one after the other.
pub open spec fn run_model(c: ClobModel, cmds: Seq<Command>) -> ClobModel
    decreases cmds.len(),
{
    if cmds.len() == 0 {
        c
    } else {
        after_submit(run_model(c, cmds.drop_last()), cmds.last())
    }
}

/// The events of commands submitted one after the other.
pub open spec fn run_events(c: ClobModel, cmds: Seq<Command>) -> Seq<Event>
    decreases cmds.len(),
{
    if cmds.len() == 0 {
        Seq::empty()
    } else {
        run_events(c, cmds.drop_last()) + submit_spec(run_model(c, cmds.drop_last()), cmds.last()).1
    }
}

/// Determinism law: venues in the same state, fed the same commands, end in the same state
/// and emit the same events.
pub proof fn lemma_deterministic(a: ClobModel, b: ClobModel, cmds: Seq<Command>)
    requires
        a == b,
    ensures
        run_model(a, cmds) == run_model(b, cmds),
        run_events(a, cmds) == run_events(b, cmds),
{
}

/// Sequencing law: every command, accepted or refused, takes the next sequence number.
pub proof fn lemma_run_seq(c: ClobModel, cmds: Seq<Command>)
    requires
        c.seq + cmds.len() <= u64::MAX,
    ensures
        run_model(c, cmds).seq == c.seq + cmds.len(),
    decreases cmds.len(),
{
    if cmds.len() > 0 {
        lemma_run_seq(c, cmds.drop_last());
        reveal(after_submit);
    }
}

/// Order-id law: a new order the venue admits takes the next order id, and the counter
/// moves on by one; any other command leaves it.
pub proof fn lemma_order_id_step(c: ClobModel, command: Command)
    ensures
        after_submit(c, command).next_id == if check_spec(c, command) is Ok && command is New {
            (c.next_id + 1) as u64
        } else {
            c.next_id
        },
{
    reveal(after_submit);
}

/// Acknowledgement law at the venue: a new order the gateway admits is acknowledged first,
/// under its command's sequence number and with the next order id; a limit, market or
/// iceberg order its time-in-force refuses is answered by that refusal alone.
pub proof fn lemma_new_order_acknowledged(c: ClobModel, order: NewOrder)
    requires
        check_spec(c, Command::New(order)) is Ok,
    ensures
        ({
            let seq = (c.seq + 1) as u64;
            let evs = submit_spec(c, Command::New(order)).1;
            match order.order_type {
                OrderType::Stop { .. } | OrderType::StopLimit { .. } => evs.len() > 0 && evs[0] == (Event::Accepted {
                    seq,
                    order_id: c.next_id,
                }),
                _ => match precheck_spec(
                    c.engine.book,
                    order.side,
                    if order.order_type is Market { None } else { Some(order.price) },
                    order.qty,
                    order.tif,
                ) {
                    Err(reason) => evs == seq![Event::Rejected { seq, reason }],
                    Ok(()) => evs.len() > 0 && evs[0] == (Event::Accepted { seq, order_id: c.next_id }),
                },
            }
        }),
{
    let seq = (c.seq + 1) as u64;
    lemma_new_acknowledged(c.engine, seq, c.next_id, order, seq);
}

/// The new orders among `cmds`, run from `c`, that the gateway admits.
pub open spec fn admitted_news(c: ClobModel, cmds: Seq<Command>) -> nat
    decreases cmds.len(),
{
    if cmds.len() == 0 {
        0
    } else {
        admitted_news(c, cmds.drop_last()) + (if check_spec(run_model(c, cmds.drop_last()), cmds.last()) is Ok
            && cmds.last() is New {
            1nat
        } else {
            0nat
        })
    }
}

proof fn lemma_run_next_id(c: ClobModel, cmds: Seq<Command>)
    requires
        c.next_id + cmds.len() <= u64::MAX,
    ensures
        admitted_news(c, cmds) <= cmds.len(),
        run_model(c, cmds).next_id == c.next_id + admitted_news(c, cmds),
    decreases cmds.len(),
{
    if cmds.len() > 0 {
        lemma_run_next_id(c, cmds.drop_last());
        lemma_order_id_step(run_model(c, cmds.drop_last()), cmds.last());
    }
}

/// The engine takes a new order the gateway admitted: a stop is parked, any other order
/// passes its time-in-force check.
pub open spec fn engine_takes(c: ClobModel, order: NewOrder) -> bool {
    match order.order_type {
        OrderType::Stop { .. } | OrderType::StopLimit { .. } => true,
        _ => precheck_spec(
            c.engine.book,
            order.side,
            if order.order_type is Market { None } else { Some(order.price) },
            order.qty,
            order.tif,
        ) is Ok,
    }
}

/// Order-id law over a history: a new order that the gateway admits and the engine takes is
/// acknowledged with the first order id plus the number of new orders the gateway admitted
/// before it (cancels, amendments and refused new orders take none; an order its
/// time-in-force refuses still takes one).
pub proof fn lemma_order_ids_in_history(c: ClobModel, cmds: Seq<Command>, i: int)
    requires
        c.next_id + cmds.len() <= u64::MAX,
        0 <= i < cmds.len(),
        cmds[i] matches Command::New(o) && check_spec(run_model(c, cmds.take(i)), cmds[i]) is Ok && engine_takes(
            run_model(c, cmds.take(i)),
            o,
        ),
    ensures
        ({
            let m = run_model(c, cmds.take(i));
            let evs = submit_spec(m, cmds[i]).1;
            &&& evs.len() > 0
            &&& evs[0] == (Event::Accepted {
                seq: (m.seq + 1) as u64,
                order_id: (c.next_id + admitted_news(c, cmds.take(i))) as u64,
            })
        }),
{
    let pre = cmds.take(i);
    lemma_run_next_id(c, pre);
    let m = run_model(c, pre);
    match cmds[i] {
        Command::New(o) => {
            lemma_new_order_acknowledged(m, o);
        },
        _ => {},
    }
}

/// Replaying a journal segment that starts after `base` onto a venue restored as of
/// `applied`: the command at position `i` has the sequence number `base + i + 1`; those the
/// venue already holds are skipped, the others submitted.
pub open spec fn replay_model(c: ClobModel, base: u64, cmds: Seq<Command>, applied: u64) -> ClobModel
    decreases cmds.len(),
{
    if cmds.len() == 0 {
        c
    } else {
        let m = replay_model(c, base, cmds.drop_last(), applied);
        if base + cmds.len() <= applied {
            m
        } else {
            after_submit(m, cmds.last())
        }
    }
}

/// How many leading commands of a segment starting after `base` a venue restored as of
/// `applied` already holds.
pub open spec fn already_applied(base: u64, len: nat, applied: u64) -> int {
    if applied <= base {
        0
    } else if applied - base >= len {
        len as int
    } else {
        applied - base
    }
}

/// Recovery law: replaying a segment onto a venue restored as of `applied` runs exactly the
/// commands it does not hold yet, in order; with nothing applied it runs them all.
pub proof fn lemma_replay_skips_applied(c: ClobModel, base: u64, cmds: Seq<Command>, applied: u64)
    ensures
        replay_model(c, base, cmds, applied) == run_model(
            c,
            cmds.skip(already_applied(base, cmds.len(), applied)),
        ),
    decreases cmds.len(),
{
    let k = already_applied(base, cmds.len(), applied);
    if cmds.len() == 0 {
        assert(cmds.skip(k) =~= Seq::<Command>::empty());
    } else {
        let init = cmds.drop_last();
        lemma_replay_skips_applied(c, base, init, applied);
        let ki = already_applied(base, init.len(), applied);
        if base + cmds.len() <= applied {
            assert(cmds.skip(k) =~= Seq::<Command>::empty());
            assert(init.skip(ki) =~= Seq::<Command>::empty());
        } else {
            assert(ki == k);
            assert(cmds.skip(k).drop_last() =~= init.skip(k));
            assert(cmds.skip(k).last() == cmds.last());
        }
    }
}

/// Every order id the engine knows is below `bound`.
pub open spec fn ids_below(em: EngineModel, bound: OrderId) -> bool {
    forall|x: OrderId| #[trigger] known_id(em, x) ==> x < bound
}

/// A venue with nothing in it yet.
pub open spec fn is_fresh(c: ClobModel, risk: RiskConfig, fees: FeeConfig) -> bool {
    &&& c.risk == risk
    &&& c.seq == 0
    &&& c.next_id == 1
    &&& c.engine.book.bids.len() == 0
    &&& c.engine.book.asks.len() == 0
    &&& c.engine.book.accounts == Map::<AccountId, AccountState>::empty()
    &&& c.engine.stops.len() == 0
    &&& c.engine.last is None
    &&& c.engine.fees == fees
}

/// A fresh venue's book is not crossed, and two fresh venues with the same limits and fees
/// are the same: with `lemma_deterministic`, venues built alike and fed the same commands
/// answer alike.
pub proof fn lemma_fresh(a: ClobModel, b: ClobModel, risk: RiskConfig, fees: FeeConfig)
    requires
        is_fresh(a, risk, fees),
    ensures
        uncrossed(a.engine.book),
        is_fresh(b, risk, fees) ==> a == b,
{
    if is_fresh(b, risk, fees) {
        assert(a.engine.book.bids =~= b.engine.book.bids);
        assert(a.engine.book.asks =~= b.engine.book.asks);
        assert(a.engine.stops =~= b.engine.stops);
        assert(a.engine.book =~= b.engine.book);
    }
}

/// A venue: the gateway, the sequencer and the matching engine, fed one command at a time.
#[derive(Debug)]
pub struct Clob {
    gateway: Gateway,
    sequencer: Sequencer,
    engine: MatchingEngine,
}

impl Clob {
    pub closed spec fn view(&self) -> ClobModel {
        ClobModel {
            risk: self.gateway.risk(),
            seq: self.sequencer.seq_spec(),
            next_id: self.sequencer.next_id_spec(),
            engine: self.engine@,
        }
    }

    pub closed spec fn wf(&self) -> bool {
        &&& self.engine.wf()
        &&& room(self.engine@, 0)
        &&& ids_below(self.engine@, self.sequencer.next_id_spec())
    }

    pub fn new() -> (r: Self)
        ensures
            r.wf(),
            is_fresh(r@, RiskConfig { tick_size: 0, lot_size: 0, band_ticks: 0, position_limit: 0 }, FeeConfig { maker_ppm: 0, taker_ppm: 0 }),
            uncrossed(r@.engine.book),
    {
        let r = Clob { gateway: Gateway::new(), sequencer: Sequencer::new(), engine: MatchingEngine::new() };
        proof {
            assert(stops_volume(r.engine@.stops) == 0);
            assert(book_volume(r.engine@.book) == 0) by {
                assert(r.engine@.book.bids =~= Seq::empty());
                assert(r.engine@.book.asks =~= Seq::empty());
            }
            assert forall|x: OrderId| #[trigger] known_id(r.engine@, x) implies x < 1 by {
                r.engine.lemma_wf();
                assert(!crate::book::model::has_id(r.engine@.book.bids, x));
                assert(!crate::book::model::has_id(r.engine@.book.asks, x));
            }
        }
        r
    }

    /// A venue with pre-trade risk limits.
    pub fn with_risk(risk: RiskConfig) -> (r: Self)
        ensures
            r.wf(),
            is_fresh(r@, risk, FeeConfig { maker_ppm: 0, taker_ppm: 0 }),
    {
        let mut r = Clob::new();
        r.set_risk(risk);
        r
    }

    /// A venue charging `fees`.
    pub fn with_fees(fees: FeeConfig) -> (r: Self)
        ensures
            r.wf(),
            is_fresh(r@, RiskConfig { tick_size: 0, lot_size: 0, band_ticks: 0, position_limit: 0 }, fees),
    {
        let mut r = Clob::new();
        r.set_fees(fees);
        r
    }

    /// A venue with risk limits and fees.
    pub fn with_risk_and_fees(risk: RiskConfig, fees: FeeConfig) -> (r: Self)
        ensures
            r.wf(),
            is_fresh(r@, risk, fees),
    {
        let mut r = Clob::new();
        r.set_risk(risk);
        r.set_fees(fees);
        r
    }

    /// Whether `command` stays within the machine limits of this venue.
    pub fn has_capacity_for(&self, command: &Command) -> (r: bool)
        requires
            self.wf(),
        ensures
            r == capacity_for(self@, *command),
    {
        if self.sequencer.current_seq() == u64::MAX {
            return false;
        }
        let (_, next_id) = self.sequencer.snapshot();
        if next_id == u64::MAX {
            return false;
        }
        let qty: Qty = match command {
            Command::New(order) => order.qty,
            Command::Cancel(_) => 0,
            Command::Modify(modify) => modify.qty,
        };
        let book = self.engine.book();
        let volume = book.volume() as u128 + self.engine.pending_volume() as u128 + qty as u128;
        if volume > u64::MAX as u128 {
            return false;
        }
        let nets = book.account_nets();
        let mut i: usize = 0;
        while i < nets.len()
            invariant
                i <= nets@.len(),
                book@ == self@.engine.book,
                forall|j: int| 0 <= j < i ==> net_in_range((#[trigger] nets@[j]).1),
                forall|j: int|
                    0 <= j < nets@.len() ==> book@.accounts.contains_key((#[trigger] nets@[j]).0)
                        && book@.accounts[nets@[j].0].net == nets@[j].1,
            decreases nets@.len() - i,
        {
            let (_, net) = nets[i];
            if net < -(i128::MAX - 2 * (u64::MAX as i128)) || net > i128::MAX - 2 * (u64::MAX as i128) {
                proof {
                    let o = nets@[i as int].0;
                    assert(book@.accounts.contains_key(o));
                    assert(!nets_within(self@.engine.book.accounts, 2 * (u64::MAX as nat))) by {
                        assert(book@.accounts[o].net == net);
                    }
                }
                return false;
            }
            i = i + 1;
        }
        proof {
            let acc = self@.engine.book.accounts;
            assert forall|o: AccountId| #[trigger] acc.contains_key(o) implies -(i128::MAX - 2 * (u64::MAX as nat)) <= acc[o].net
                <= i128::MAX - 2 * (u64::MAX as nat) by {
                if acc[o].net != 0 {
                    let j = choose|j: int| 0 <= j < nets@.len() && nets@[j].0 == o;
                    assert(net_in_range(nets@[j].1));
                }
            }
        }
        true
    }

    /// Submits one command and returns its events. The command takes the next sequence
    /// number, which every one of its events carries, and a book that was not crossed is not
    /// crossed afterwards.
    pub fn submit(&mut self, command: Command) -> (r: Vec<Event>)
        requires
            old(self).wf(),
            capacity_for(old(self)@, command),
        ensures
            final(self).wf(),
            final(self)@ == submit_spec(old(self)@, command).0,
            r@ == submit_spec(old(self)@, command).1,
            final(self)@.seq == old(self)@.seq + 1,
            all_tagged(r@, final(self)@.seq),
            uncrossed(old(self)@.engine.book) ==> uncrossed(final(self)@.engine.book),
    {
        let mut out: Vec<Event> = Vec::new();
        self.submit_into(command, &mut out);
        proof {
            assert(out@ =~= Seq::<Event>::empty() + submit_spec(old(self)@, command).1);
        }
        out
    }

    /// Submits one command, appending its events to `out`.
    pub fn submit_into(&mut self, command: Command, out: &mut Vec<Event>)
        requires
            old(self).wf(),
            capacity_for(old(self)@, command),
        ensures
            final(self).wf(),
            final(self)@ == submit_spec(old(self)@, command).0,
            final(out)@ == old(out)@ + submit_spec(old(self)@, command).1,
            final(self)@.seq == old(self)@.seq + 1,
            all_tagged(submit_spec(old(self)@, command).1, final(self)@.seq),
            uncrossed(old(self)@.engine.book) ==> uncrossed(final(self)@.engine.book),
    {
        let ghost out0 = out@;
        self.submit_command(command, out);
        proof {
            let x = submit_spec(old(self)@, command).1;
            assert forall|i: int| 0 <= i < x.len() implies (#[trigger] x[i]).seq_of() == self@.seq by {
                assert(out@[out0.len() + i] == x[i]);
            }
        }
    }

    /// Replays the commands of a journal segment that starts after `base_seq` onto this
    /// venue, restored as of `applied`: the commands numbered up to `applied` are in it
    /// already and are skipped. Stops before the first command the venue has no room for,
    /// and returns how many commands it went through.
    pub fn replay(&mut self, base_seq: u64, commands: &[Command], applied: u64) -> (r: usize)
        requires
            old(self).wf(),
        ensures
            final(self).wf(),
            r <= commands@.len(),
            final(self)@ == replay_model(old(self)@, base_seq, commands@.take(r as int), applied),
            r < commands@.len() ==> base_seq + r + 1 > applied && !capacity_for(final(self)@, commands@[r as int]),
    {
        let mut i: usize = 0;
        proof {
            assert(commands@.take(0) =~= Seq::<Command>::empty());
        }
        while i < commands.len()
            invariant
                i <= commands@.len(),
                self.wf(),
                self@ == replay_model(old(self)@, base_seq, commands@.take(i as int), applied),
            decreases commands@.len() - i,
        {
            proof {
                assert(commands@.take(i + 1).drop_last() =~= commands@.take(i as int));
                assert(commands@.take(i + 1).last() == commands@[i as int]);
            }
            let seq: u128 = base_seq as u128 + i as u128 + 1;
            if seq > applied as u128 {
                if !self.has_capacity_for(&commands[i]) {
                    return i;
                }
                let _ = self.submit(commands[i]);
                proof {
                    reveal(after_submit);
                }
            }
            i = i + 1;
        }
        proof {
            assert(commands@.take(commands@.len() as int) =~= commands@);
        }
        i
    }

    fn submit_command(&mut self, command: Command, out: &mut Vec<Event>)
        requires
            old(self).wf(),
            capacity_for(old(self)@, command),
        ensures
            final(self).wf(),
            final(self)@ == submit_spec(old(self)@, command).0,
            final(out)@ == old(out)@ + submit_spec(old(self)@, command).1,
            tagged_from(final(out)@, old(out)@.len() as int, final(self)@.seq),
            uncrossed(old(self)@.engine.book) ==> uncrossed(final(self)@.engine.book),
    {
        let ghost c = self@;
        proof {
            self.engine.lemma_wf();
            lemma_nets_within_mono(
                c.engine.book.accounts,
                2 * (u64::MAX as nat),
                stops_volume(c.engine.stops) + command_qty(command) as nat,
            );
        }
        let seq = self.sequencer.next_seq();
        let result = if self.gateway.has_risk() {
            let ctx = self.risk_context(&command);
            proof {
                let acc = c.engine.book.accounts;
                if acc.contains_key(ctx.owner) {
                    assert(-(i128::MAX - 2 * (u64::MAX as nat)) <= acc[ctx.owner].net);
                }
            }
            self.gateway.validate_risk(&command, &ctx)
        } else {
            self.gateway.validate(&command)
        };
        match result {
            Err(reason) => {
                out.push(Event::Rejected { seq, reason });
                proof {
                    assert(out@ == old(out)@ + seq![Event::Rejected { seq, reason }]);
                }
                return;
            },
            Ok(()) => {},
        }
        match command {
            Command::New(order) => {
                let order_id = self.sequencer.next_order_id();
                self.engine.execute_new(seq, order_id, order, seq, out);
                proof {
                    assert forall|x: OrderId| #[trigger] known_id(self.engine@, x) implies x < order_id + 1 by {
                        if x != order_id {
                            assert(known_id(c.engine, x));
                        }
                    }
                }
            },
            Command::Cancel(cancel) => {
                self.engine.execute_cancel(seq, cancel.order_id, out);
                proof {
                    assert forall|x: OrderId| #[trigger] known_id(self.engine@, x) implies x < c.next_id by {
                        assert(known_id(c.engine, x));
                    }
                }
            },
            Command::Modify(modify) => {
                self.engine.execute_modify(seq, modify, seq, out);
                proof {
                    assert forall|x: OrderId| #[trigger] known_id(self.engine@, x) implies x < c.next_id by {
                        assert(known_id(c.engine, x));
                    }
                }
            },
        }
    }

    fn risk_context(&self, command: &Command) -> (r: RiskContext)
        requires
            self.wf(),
        ensures
            r == risk_context_spec(self@.engine.book, *command),
    {
        let book = self.engine.book();
        let mid = book.mid();
        match command {
            Command::New(order) => RiskContext {
                mid,
                owner: order.owner,
                side: order.side,
                net: book.account_net(order.owner),
                open: book.account_open(order.owner, order.side),
            },
            Command::Modify(modify) => match book.get(modify.order_id) {
                Some((side, current)) => {
                    let hidden = match book.reserve(modify.order_id) {
                        Some((_, h)) => h,
                        None => 0,
                    };
                    proof {
                        let b = book@;
                        book.lemma_wf();
                        let (s0, i0) = locate(b, modify.order_id).unwrap();
                        if s0 == Side::Buy {
                            assert(crate::book::model::has_id(b.bids, modify.order_id));
                        } else {
                            assert(crate::book::model::has_id(b.asks, modify.order_id));
                        }
                        lemma_sum_elem(b.side(s0), i0, vol_fn());
                    }
                    let own = current.qty + hidden;
                    let open = book.account_open(current.owner, side).saturating_sub(own);
                    RiskContext { mid, owner: current.owner, side, net: book.account_net(current.owner), open }
                },
                None => RiskContext::inert(),
            },
            Command::Cancel(_) => RiskContext::inert(),
        }
    }

    pub fn book(&self) -> (r: &OrderBook)
        ensures
            r@ == self@.engine.book,
            self.wf() ==> r.wf(),
    {
        self.engine.book()
    }

    /// The number of dormant stop orders.
    pub fn pending_stops(&self) -> (r: usize)
        ensures
            r == self@.engine.stops.len(),
    {
        self.engine.pending_stops()
    }

    /// The sequence number of the last command.
    pub fn current_seq(&self) -> (r: u64)
        ensures
            r == self@.seq,
    {
        self.sequencer.current_seq()
    }

    /// Replaces the risk limits.
    pub fn set_risk(&mut self, risk: RiskConfig)
        requires
            old(self).wf(),
        ensures
            final(self).wf(),
            final(self)@ == (ClobModel { risk, ..old(self)@ }),
    {
        self.gateway = Gateway::with_config(risk);
    }

    /// Replaces the fee schedule.
    pub fn set_fees(&mut self, fees: FeeConfig)
        requires
            old(self).wf(),
        ensures
            final(self).wf(),
            final(self)@ == (ClobModel { engine: EngineModel { fees, ..old(self)@.engine }, ..old(self)@ }),
    {
        let ghost em = self.engine@;
        self.engine.set_fees(fees);
        proof {
            assert(room(self.engine@, 0)) by {
                assert(self.engine@.book == em.book && self.engine@.stops == em.stops);
            }
            assert forall|x: OrderId| #[trigger] known_id(self.engine@, x) implies x < self.sequencer.next_id_spec() by {
                assert(known_id(em, x));
            }
        }
    }
}


/// The net positions as a snapshot lists them: every non-zero one, by account id.
pub open spec fn nets_listed(v: Seq<(AccountId, i128)>, acc: Map<AccountId, AccountState>) -> bool {
    &&& forall|i: int, j: int| 0 <= i < j < v.len() ==> (#[trigger] v[i]).0 < (#[trigger] v[j]).0
    &&& forall|i: int| 0 <= i < v.len() ==> acc.contains_key((#[trigger] v[i]).0) && acc[v[i].0].net == v[i].1 && v[i].1 != 0
    &&& forall|o: AccountId| acc.contains_key(o) && #[trigger] acc[o].net != 0 ==> exists|i: int| 0 <= i < v.len() && v[i].0 == o
}

/// The book, the stops and the last trade price of a venue with nothing in it.
pub open spec fn empty_engine() -> EngineModel {
    EngineModel {
        book: BookModel { bids: Seq::empty(), asks: Seq::empty(), accounts: Map::empty() },
        stops: Seq::empty(),
        last: None,
        fees: FeeConfig { maker_ppm: 0, taker_ppm: 0 },
    }
}

pub open spec fn volume_of(em: EngineModel) -> nat {
    book_volume(em.book) + stops_volume(em.stops)
}

/// Restoring one resting order: refused when its id is known or not below the next order
/// id, when the quantities would overflow, or when its reserve shows or hides nothing.
pub open spec fn restore_order_step(em: EngineModel, e: RestingEntry, next_id: OrderId) -> Option<EngineModel> {
    let (side, o, res) = e;
    let hidden: nat = match res {
        Some((_, h)) => h as nat,
        None => 0,
    };
    if known_id(em, o.id) || o.id >= next_id || volume_of(em) + o.qty + hidden > u64::MAX || (match res {
        Some((d, h)) => d == 0 || h == 0,
        None => false,
    }) {
        None
    } else {
        Some(
            EngineModel {
                book: match res {
                    Some((d, h)) => add_reserve_spec(insert_spec(em.book, side, o), o.id, d, h),
                    None => insert_spec(em.book, side, o),
                },
                ..em
            },
        )
    }
}

pub open spec fn restore_orders(em: Option<EngineModel>, orders: Seq<RestingEntry>, next_id: OrderId) -> Option<EngineModel>
    decreases orders.len(),
{
    if orders.len() == 0 {
        em
    } else {
        match restore_orders(em, orders.drop_last(), next_id) {
            None => None,
            Some(e) => restore_order_step(e, orders.last(), next_id),
        }
    }
}

/// Restoring one dormant stop, refused like an order.
pub open spec fn restore_stop_step(em: EngineModel, st: PendingStop, next_id: OrderId) -> Option<EngineModel> {
    if known_id(em, st.id) || st.id >= next_id || volume_of(em) + st.qty > u64::MAX {
        None
    } else {
        Some(EngineModel { stops: em.stops.push(st), ..em })
    }
}

pub open spec fn restore_stops(em: Option<EngineModel>, stops: Seq<PendingStop>, next_id: OrderId) -> Option<EngineModel>
    decreases stops.len(),
{
    if stops.len() == 0 {
        em
    } else {
        match restore_stops(em, stops.drop_last(), next_id) {
            None => None,
            Some(e) => restore_stop_step(e, stops.last(), next_id),
        }
    }
}

/// Restoring one net position, refused when it is too close to the bounds of `i128`.
pub open spec fn restore_net_step(em: EngineModel, a: (AccountId, i128)) -> Option<EngineModel> {
    let k = stops_volume(em.stops);
    if -(i128::MAX - k) <= a.1 <= i128::MAX - k {
        Some(EngineModel { book: em.book.with_accounts(restore_net_spec(em.book.accounts, a.0, a.1)), ..em })
    } else {
        None
    }
}

pub open spec fn restore_nets(em: Option<EngineModel>, nets: Seq<(AccountId, i128)>) -> Option<EngineModel>
    decreases nets.len(),
{
    if nets.len() == 0 {
        em
    } else {
        match restore_nets(em, nets.drop_last()) {
            None => None,
            Some(e) => restore_net_step(e, nets.last()),
        }
    }
}

/// The engine a snapshot restores to, or `None` when the snapshot is not consistent.
pub open spec fn restore_engine(m: SnapshotModel) -> Option<EngineModel> {
    restore_nets(
        restore_stops(
            restore_orders(Some(EngineModel { last: m.last_trade_price, ..empty_engine() }), m.orders, m.next_order_id),
            m.stops,
            m.next_order_id,
        ),
        m.account_net,
    )
}

proof fn lemma_orders_none(orders: Seq<RestingEntry>, next_id: OrderId)
    ensures
        restore_orders(None, orders, next_id) is None,
    decreases orders.len(),
{
    if orders.len() > 0 {
        lemma_orders_none(orders.drop_last(), next_id);
    }
}

proof fn lemma_stops_none(stops: Seq<PendingStop>, next_id: OrderId)
    ensures
        restore_stops(None, stops, next_id) is None,
    decreases stops.len(),
{
    if stops.len() > 0 {
        lemma_stops_none(stops.drop_last(), next_id);
    }
}

proof fn lemma_nets_none(nets: Seq<(AccountId, i128)>)
    ensures
        restore_nets(None, nets) is None,
    decreases nets.len(),
{
    if nets.len() > 0 {
        lemma_nets_none(nets.drop_last());
    }
}

proof fn lemma_orders_prefix_none(em: Option<EngineModel>, orders: Seq<RestingEntry>, next_id: OrderId, k: int)
    requires
        0 <= k <= orders.len(),
        restore_orders(em, orders.take(k), next_id) is None,
    ensures
        restore_orders(em, orders, next_id) is None,
    decreases orders.len() - k,
{
    if k < orders.len() {
        assert(orders.take(k + 1).drop_last() =~= orders.take(k));
        lemma_orders_prefix_none(em, orders, next_id, k + 1);
    } else {
        assert(orders.take(k) =~= orders);
    }
}

proof fn lemma_stops_prefix_none(em: Option<EngineModel>, stops: Seq<PendingStop>, next_id: OrderId, k: int)
    requires
        0 <= k <= stops.len(),
        restore_stops(em, stops.take(k), next_id) is None,
    ensures
        restore_stops(em, stops, next_id) is None,
    decreases stops.len() - k,
{
    if k < stops.len() {
        assert(stops.take(k + 1).drop_last() =~= stops.take(k));
        lemma_stops_prefix_none(em, stops, next_id, k + 1);
    } else {
        assert(stops.take(k) =~= stops);
    }
}

proof fn lemma_nets_prefix_none(em: Option<EngineModel>, nets: Seq<(AccountId, i128)>, k: int)
    requires
        0 <= k <= nets.len(),
        restore_nets(em, nets.take(k)) is None,
    ensures
        restore_nets(em, nets) is None,
    decreases nets.len() - k,
{
    if k < nets.len() {
        assert(nets.take(k + 1).drop_last() =~= nets.take(k));
        lemma_nets_prefix_none(em, nets, k + 1);
    } else {
        assert(nets.take(k) =~= nets);
    }
}

impl Clob {
    /// A well-formed venue keeps what its snapshot needs to restore it (see
    /// `lemma_restore_snapshot`).
    pub proof fn lemma_restorable(&self)
        requires
            self.wf(),
        ensures
            restorable(self@.engine, self@.next_id),
    {
        self.engine.lemma_wf();
    }

    /// A dormant stop never rests in the book: its id is not found there until it fires.
    pub proof fn lemma_stops_not_resting(&self)
        requires
            self.wf(),
        ensures
            forall|i: int|
                0 <= i < self@.engine.stops.len() ==> !contains_spec(self@.engine.book, (#[trigger] self@.engine.stops[i]).id),
    {
        self.engine.lemma_wf();
    }

    /// Everything a snapshot records of this venue.
    pub fn capture(&self) -> (r: SnapshotState)
        requires
            self.wf(),
        ensures
            r.seq == self@.seq,
            r.next_order_id == self@.next_id,
            r.last_trade_price == self@.engine.last,
            r.orders@ == entries_of(self@.engine.book.bids, Side::Buy) + entries_of(self@.engine.book.asks, Side::Sell),
            r.stops@ == self@.engine.stops,
            nets_listed(r.account_net@, self@.engine.book.accounts),
    {
        let (seq, next_order_id) = self.sequencer.snapshot();
        SnapshotState {
            seq,
            next_order_id,
            last_trade_price: self.engine.last_trade_price(),
            orders: self.engine.resting_orders(),
            stops: self.engine.pending_stops_data(),
            account_net: self.engine.book().account_nets(),
        }
    }

    /// The venue a snapshot records, with no risk limits and no fees; `None` when the
    /// snapshot is not consistent (an id repeated or not below the next order id, quantities
    /// that overflow, a reserve that shows or hides nothing, a net position at the bounds of `i128`).
    pub fn from_snapshot(state: &SnapshotState) -> (r: Option<Clob>)
        ensures
            match r {
                Some(c) => {
                    &&& c.wf()
                    &&& restore_engine(state.model()) == Some(c@.engine)
                    &&& c@.seq == state.seq
                    &&& c@.next_id == state.next_order_id
                    &&& c@.risk == (RiskConfig { tick_size: 0, lot_size: 0, band_ticks: 0, position_limit: 0 })
                },
                None => restore_engine(state.model()) is None,
            },
    {
        let ghost m = state.model();
        let mut engine = MatchingEngine::new();
        engine.restore_last_trade_price(state.last_trade_price);
        let ghost init = engine@;
        proof {
            assert(engine@.book.bids =~= Seq::<crate::book::model::BookEntry>::empty());
            assert(engine@.book.asks =~= Seq::<crate::book::model::BookEntry>::empty());
            assert(engine@.stops =~= Seq::<PendingStop>::empty());
            assert(init == EngineModel { last: m.last_trade_price, ..empty_engine() });
            assert(state.orders@.take(0) =~= Seq::<RestingEntry>::empty());
            assert(volume_of(init) == 0);
            assert forall|x: OrderId| #[trigger] known_id(init, x) implies x < state.next_order_id by {
                assert(!crate::book::model::has_id(init.book.bids, x));
                assert(!crate::book::model::has_id(init.book.asks, x));
            }
        }
        let next = state.next_order_id;
        let mut vol: u64 = 0;
        let mut i: usize = 0;
        while i < state.orders.len()
            invariant
                engine.wf(),
                i <= state.orders@.len(),
                next == state.next_order_id,
                m == state.model(),
                init == (EngineModel { last: m.last_trade_price, ..empty_engine() }),
                vol == volume_of(engine@),
                restore_orders(Some(init), state.orders@.take(i as int), next) == Some(engine@),
                ids_below(engine@, next),
                nets_within(engine@.book.accounts, u64::MAX as nat),
            decreases state.orders@.len() - i,
        {
            let (side, order, reserve) = state.orders[i];
            let hidden: u64 = match reserve {
                Some((_, h)) => h,
                None => 0,
            };
            let zero_peak = match reserve {
                Some((d, h)) => d == 0 || h == 0,
                None => false,
            };
            proof {
                assert(state.orders@.take(i + 1).drop_last() =~= state.orders@.take(i as int));
                assert(state.orders@.take(i + 1).last() == state.orders@[i as int]);
                engine.lemma_wf();
            }
            if engine.knows(order.id) || order.id >= next || vol as u128 + order.qty as u128 + hidden as u128 > u64::MAX as u128
                || zero_peak {
                proof {
                    lemma_orders_prefix_none(Some(init), state.orders@, next, i + 1);
                    lemma_stops_none(m.stops, next);
                    lemma_nets_none(m.account_net);
                }
                return None;
            }
            let ghost before = engine@;
            engine.restore_order(side, order, reserve);
            vol = vol + order.qty + hidden;
            proof {
                assert(stops_volume(engine@.stops) == stops_volume(before.stops));
                assert forall|x: OrderId| #[trigger] known_id(engine@, x) implies x < next by {
                    if x != order.id {
                        assert(known_id(before, x));
                    }
                }
            }
            i = i + 1;
        }
        proof {
            assert(state.orders@.take(i as int) =~= state.orders@);
            assert(state.stops@.take(0) =~= Seq::<PendingStop>::empty());
        }
        let ghost after_orders = engine@;
        let mut j: usize = 0;
        while j < state.stops.len()
            invariant
                engine.wf(),
                j <= state.stops@.len(),
                next == state.next_order_id,
                m == state.model(),
                init == (EngineModel { last: m.last_trade_price, ..empty_engine() }),
                vol == volume_of(engine@),
                restore_orders(Some(init), m.orders, next) == Some(after_orders),
                restore_stops(Some(after_orders), state.stops@.take(j as int), next) == Some(engine@),
                ids_below(engine@, next),
                nets_within(engine@.book.accounts, u64::MAX as nat),
            decreases state.stops@.len() - j,
        {
            let st = state.stops[j];
            proof {
                assert(state.stops@.take(j + 1).drop_last() =~= state.stops@.take(j as int));
                assert(state.stops@.take(j + 1).last() == state.stops@[j as int]);
                engine.lemma_wf();
            }
            if engine.knows(st.id) || st.id >= next || vol as u128 + st.qty as u128 > u64::MAX as u128 {
                proof {
                    lemma_stops_prefix_none(Some(after_orders), state.stops@, next, j + 1);
                    lemma_nets_none(m.account_net);
                }
                return None;
            }
            let ghost before = engine@;
            engine.restore_stop(st);
            vol = vol + st.qty;
            proof {
                crate::stops::lemma_stops_volume_push(before.stops, st);
                assert forall|x: OrderId| #[trigger] known_id(engine@, x) implies x < next by {
                    if x != st.id {
                        if !contains_spec(engine@.book, x) {
                            let a = choose|a: int| 0 <= a < engine@.stops.len() && engine@.stops[a].id == x;
                            assert(before.stops[a].id == x);
                        }
                        assert(known_id(before, x));
                    }
                }
            }
            j = j + 1;
        }
        proof {
            assert(state.stops@.take(j as int) =~= state.stops@);
            assert(state.account_net@.take(0) =~= Seq::<(AccountId, i128)>::empty());
            lemma_nets_within_mono(engine@.book.accounts, u64::MAX as nat, stops_volume(engine@.stops));
        }
        let ghost after_stops = engine@;
        let sv = engine.pending_volume();
        let bound: i128 = i128::MAX - (sv as i128);
        let mut k: usize = 0;
        while k < state.account_net.len()
            invariant
                engine.wf(),
                k <= state.account_net@.len(),
                next == state.next_order_id,
                m == state.model(),
                init == (EngineModel { last: m.last_trade_price, ..empty_engine() }),
                vol == volume_of(engine@),
                sv == stops_volume(engine@.stops),
                bound == i128::MAX - sv,
                restore_stops(restore_orders(Some(init), m.orders, next), m.stops, next) == Some(after_stops),
                restore_nets(Some(after_stops), state.account_net@.take(k as int)) == Some(engine@),
                ids_below(engine@, next),
                nets_within(engine@.book.accounts, sv as nat),
            decreases state.account_net@.len() - k,
        {
            let (owner, net) = state.account_net[k];
            proof {
                assert(state.account_net@.take(k + 1).drop_last() =~= state.account_net@.take(k as int));
                assert(state.account_net@.take(k + 1).last() == state.account_net@[k as int]);
            }
            if net < -bound || net > bound {
                proof {
                    lemma_nets_prefix_none(Some(after_stops), state.account_net@, k + 1);
                }
                return None;
            }
            let ghost before = engine@;
            engine.restore_account_net(owner, net);
            proof {
                let acc = engine@.book.accounts;
                assert forall|o: AccountId| #[trigger] acc.contains_key(o) implies -(i128::MAX - sv) <= acc[o].net
                    <= i128::MAX - sv by {
                    if o != owner || owner == 0 || net == 0 {
                        assert(before.book.accounts.contains_key(o));
                        assert(-(i128::MAX - sv) <= before.book.accounts[o].net <= i128::MAX - sv);
                    }
                }
                assert forall|x: OrderId| #[trigger] known_id(engine@, x) implies x < next by {
                    if !contains_spec(engine@.book, x) {
                        let a = choose|a: int| 0 <= a < engine@.stops.len() && engine@.stops[a].id == x;
                        assert(before.stops[a].id == x);
                    }
                    assert(known_id(before, x));
                }
            }
            k = k + 1;
        }
        proof {
            assert(state.account_net@.take(k as int) =~= state.account_net@);
        }
        let c = Clob { gateway: Gateway::new(), sequencer: Sequencer::restore(state.seq, next), engine };
        Some(c)
    }
}

impl Default for Clob {
    fn default() -> (r: Self)
        ensures
            r.wf(),
            is_fresh(r@, RiskConfig { tick_size: 0, lot_size: 0, band_ticks: 0, position_limit: 0 }, FeeConfig { maker_ppm: 0, taker_ppm: 0 }),
    {
        Clob::new()
    }
}

} // verus!

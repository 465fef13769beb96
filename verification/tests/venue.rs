use clob::gateway::{Gateway, RiskContext};
use clob::{
    CancelOrder, Clob, Command, Event, FeeConfig, ModifyOrder, NewOrder, RejectReason,
    RiskConfig, Sequencer, Side, TimeInForce, TradeTape,
};

fn mixed() -> Vec<Command> {
    vec![
        Command::New(NewOrder::limit(Side::Sell, 102, 5)),
        Command::New(NewOrder::limit(Side::Sell, 101, 4)),
        Command::New(NewOrder::limit(Side::Buy, 99, 6)),
        Command::New(NewOrder::iceberg(Side::Sell, 103, 9, 3)),
        Command::New(NewOrder::stop(Side::Buy, 102, 2)),
        Command::New(NewOrder::limit(Side::Buy, 101, 6)),
        Command::Modify(ModifyOrder::new(3, 100, 4)),
        Command::New(NewOrder::market(Side::Buy, 7)),
        Command::Cancel(CancelOrder { order_id: 2 }),
        Command::New(NewOrder::limit(Side::Sell, 0, 1)),
        Command::New(NewOrder::limit(Side::Sell, 99, 20).with_tif(TimeInForce::Ioc)),
        Command::New(NewOrder::stop_limit(Side::Sell, 99, 98, 3)),
        Command::New(NewOrder::limit(Side::Buy, 104, 30)),
        Command::New(NewOrder::limit(Side::Sell, 90, 3)),
    ]
}

fn seq_of(e: &Event) -> u64 {
    match *e {
        Event::Accepted { seq, .. }
        | Event::Rejected { seq, .. }
        | Event::Trade { seq, .. }
        | Event::Resting { seq, .. }
        | Event::Filled { seq, .. }
        | Event::Canceled { seq, .. }
        | Event::Modified { seq, .. }
        | Event::Triggered { seq, .. } => seq,
    }
}

#[test]
fn every_command_takes_one_seq_and_tags_its_events() {
    let mut clob = Clob::new();
    for (i, c) in mixed().into_iter().enumerate() {
        assert!(clob.has_capacity_for(&c));
        let events = clob.submit(c);
        assert_eq!(clob.current_seq(), i as u64 + 1);
        assert!(!events.is_empty());
        assert!(events.iter().all(|e| seq_of(e) == i as u64 + 1));
    }
}

#[test]
fn book_stays_uncrossed_through_a_mixed_run() {
    let mut clob = Clob::new();
    for c in mixed() {
        clob.submit(c);
        if let (Some(bid), Some(ask)) = (clob.book().best_bid(), clob.book().best_ask()) {
            assert!(bid < ask);
        }
    }
}

#[test]
fn submit_into_appends_what_submit_returns() {
    let mut a = Clob::new();
    let mut b = Clob::new();
    let mut out = vec![Event::Filled { seq: 0, order_id: 0 }];
    let mut expected = out.clone();
    for c in mixed() {
        expected.extend(a.submit(c));
        b.submit_into(c, &mut out);
    }
    assert_eq!(out, expected);
}

#[test]
fn order_ids_are_handed_out_in_order() {
    let mut clob = Clob::new();
    let first = clob.submit(Command::New(NewOrder::limit(Side::Buy, 10, 1)));
    let second = clob.submit(Command::New(NewOrder::limit(Side::Buy, 11, 1)));
    assert_eq!(first[0], Event::Accepted { seq: 1, order_id: 1 });
    assert_eq!(second[0], Event::Accepted { seq: 2, order_id: 2 });
}

#[test]
fn rejected_command_leaves_the_book_alone() {
    let mut clob = Clob::new();
    clob.submit(Command::New(NewOrder::limit(Side::Buy, 100, 5)));
    let before = clob.book().depth(Side::Buy, 10);
    let events = clob.submit(Command::New(NewOrder::limit(Side::Buy, 100, 0)));
    assert_eq!(
        events,
        vec![Event::Rejected { seq: 2, reason: RejectReason::ZeroQuantity }]
    );
    assert_eq!(clob.book().depth(Side::Buy, 10), before);
}

#[test]
fn fee_formula_truncates_toward_zero() {
    let fees = FeeConfig::new().with_taker_ppm(2000).with_maker_ppm(-2000);
    assert_eq!(fees.taker_fee(1000, 100), 200);
    assert_eq!(fees.taker_fee(70, 10), 1);
    assert_eq!(fees.maker_fee(70, 10), -1);
    assert_eq!(fees.maker_fee(10, 10), 0);
    assert_eq!(FeeConfig::new().taker_fee(u64::MAX, u64::MAX), 0);
}

#[test]
fn risk_rules_one_by_one() {
    let r = RiskConfig::new().with_tick(10).with_lot(5).with_price_band(2);
    assert!(r.is_active());
    assert!(!RiskConfig::new().is_active());
    assert!(r.tick_ok(110));
    assert!(!r.tick_ok(105));
    assert!(r.lot_ok(15));
    assert!(!r.lot_ok(7));
    assert!(r.band_ok(None, 1));
    assert!(r.band_ok(Some(100), 120));
    assert!(r.band_ok(Some(100), 80));
    assert!(!r.band_ok(Some(100), 121));
    assert!(!r.band_ok(Some(100), 79));
    let p = RiskConfig::new().with_position_limit(50);
    assert!(p.position_ok(10, 20, Side::Buy, 20));
    assert!(!p.position_ok(10, 20, Side::Buy, 21));
    assert!(p.position_ok(-10, 20, Side::Sell, 20));
    assert!(!p.position_ok(-10, 20, Side::Sell, 21));
}

#[test]
fn gateway_structural_and_risk_checks() {
    let g = Gateway::with_config(RiskConfig::new().with_lot(5));
    assert!(g.has_risk());
    assert_eq!(
        g.validate(&Command::New(NewOrder::limit(Side::Buy, 0, 5))),
        Err(RejectReason::InvalidPrice)
    );
    assert_eq!(
        g.validate(&Command::Modify(ModifyOrder::new(1, 10, 0))),
        Err(RejectReason::ZeroQuantity)
    );
    assert_eq!(g.validate(&Command::Cancel(CancelOrder { order_id: 1 })), Ok(()));
    let ctx = RiskContext::inert();
    assert_eq!(
        g.validate_risk(&Command::New(NewOrder::limit(Side::Buy, 10, 7)), &ctx),
        Err(RejectReason::LotSize)
    );
    assert_eq!(
        g.validate_risk(&Command::New(NewOrder::limit(Side::Buy, 10, 10)), &ctx),
        Ok(())
    );
    assert!(!Gateway::new().has_risk());
}

#[test]
fn sequencer_counts_from_one() {
    let mut s = Sequencer::new();
    assert_eq!(s.current_seq(), 0);
    assert_eq!(s.next_seq(), 1);
    assert_eq!(s.next_seq(), 2);
    assert_eq!(s.next_order_id(), 1);
    assert_eq!(s.snapshot(), (2, 2));
    let r = Sequencer::restore(7, 9);
    assert_eq!(r.snapshot(), (7, 9));
}

#[test]
fn bounded_tape_never_holds_more_than_its_cap() {
    let mut clob = Clob::new();
    let mut tape = TradeTape::bounded(3);
    for i in 0..10u64 {
        clob.submit(Command::New(NewOrder::limit(Side::Sell, 100, 1)));
        tape.apply(&clob.submit(Command::New(NewOrder::limit(Side::Buy, 100, 1))));
        assert!(tape.len() <= 3);
        assert_eq!(tape.last().map(|t| t.seq), Some(2 * i + 2));
    }
    let seqs: Vec<u64> = tape.recent().iter().map(|t| t.seq).collect();
    assert_eq!(seqs, vec![16, 18, 20]);
}

#[test]
fn zero_cap_tape_keeps_nothing() {
    let mut clob = Clob::new();
    let mut tape = TradeTape::bounded(0);
    clob.submit(Command::New(NewOrder::limit(Side::Sell, 100, 1)));
    let prints = tape.apply(&clob.submit(Command::New(NewOrder::limit(Side::Buy, 100, 1))));
    assert_eq!(prints.len(), 1);
    assert!(tape.is_empty());
    assert!(tape.last().is_none());
}

#[test]
fn capacity_is_refused_near_the_limit() {
    let clob = Clob::new();
    assert!(clob.has_capacity_for(&Command::New(NewOrder::limit(Side::Buy, 1, u64::MAX))));
    assert!(clob.has_capacity_for(&Command::Cancel(CancelOrder { order_id: 1 })));
}

#[test]
fn refused_time_in_force_is_answered_alone() {
    let mut clob = Clob::new();
    clob.submit(Command::New(NewOrder::limit(Side::Sell, 100, 2)));
    let events = clob.submit(Command::New(
        NewOrder::limit(Side::Buy, 100, 5).with_tif(TimeInForce::Fok),
    ));
    assert_eq!(
        events,
        vec![Event::Rejected { seq: 2, reason: RejectReason::InsufficientLiquidity }]
    );
    let next = clob.submit(Command::New(NewOrder::limit(Side::Buy, 90, 1)));
    assert_eq!(next[0], Event::Accepted { seq: 3, order_id: 3 });
}

#[test]
fn stop_orders_are_acknowledged_with_their_id() {
    let mut clob = Clob::new();
    let events = clob.submit(Command::New(NewOrder::stop(Side::Buy, 120, 3)));
    assert_eq!(events, vec![Event::Accepted { seq: 1, order_id: 1 }]);
    assert_eq!(clob.pending_stops(), 1);
}

#[test]
fn commands_convert_from_their_requests() {
    let order = NewOrder::limit(Side::Buy, 100, 5);
    assert_eq!(Command::from(order), Command::New(order));
    let cancel = CancelOrder { order_id: 4 };
    assert_eq!(Command::from(cancel), Command::Cancel(cancel));
}

#[test]
fn defaults_are_empty() {
    let clob = Clob::default();
    assert_eq!(clob.current_seq(), 0);
    assert!(clob.book().is_empty());
    assert_eq!(clob.pending_stops(), 0);
    assert!(clob::OrderBook::default().is_empty());
    assert!(TradeTape::default().is_empty());
}

#[test]
fn book_views_agree() {
    let mut clob = Clob::new();
    clob.submit(Command::New(NewOrder::limit(Side::Buy, 100, 5)));
    clob.submit(Command::New(NewOrder::iceberg(Side::Buy, 100, 12, 4)));
    clob.submit(Command::New(NewOrder::limit(Side::Buy, 99, 7)));
    clob.submit(Command::New(NewOrder::limit(Side::Sell, 103, 2)));
    clob.submit(Command::New(NewOrder::stop(Side::Buy, 120, 3)));
    let b = clob.book();
    let orders = b.level_orders(Side::Buy, 100);
    assert_eq!(orders, vec![(1, 5), (2, 4)]);
    assert_eq!(orders.iter().map(|o| o.1).sum::<u64>(), b.level_qty(Side::Buy, 100));
    assert_eq!(b.depth(Side::Buy, usize::MAX), vec![(100, 9), (99, 7)]);
    assert_eq!(b.best_bid(), Some(100));
    assert_eq!(b.best_ask(), Some(103));
    assert_eq!(b.available_qty(Side::Sell, Some(100)), 9);
    assert_eq!(b.available_qty(Side::Sell, None), 16);
    assert_eq!(b.len(), 4);
    for id in 1..=4u64 {
        let (side, o) = b.get(id).unwrap();
        assert!(b.contains(id));
        assert!(b.level_orders(side, o.price).contains(&(id, o.qty)));
    }
    assert!(!b.contains(5));
    assert_eq!(b.reserve(2), Some((4, 8)));
    assert_eq!(b.level_qty(Side::Buy, 101), 0);
    assert!(b.level_orders(Side::Buy, 101).is_empty());
}

#[test]
fn sweep_prices_walk_down_the_book() {
    let mut clob = Clob::new();
    clob.submit(Command::New(NewOrder::limit(Side::Sell, 103, 2)));
    clob.submit(Command::New(NewOrder::limit(Side::Sell, 101, 2)));
    clob.submit(Command::New(NewOrder::limit(Side::Sell, 102, 2)));
    let events = clob.submit(Command::New(NewOrder::market(Side::Buy, 6)));
    let prices: Vec<u64> = events
        .iter()
        .filter_map(|e| match e {
            Event::Trade { price, .. } => Some(*price),
            _ => None,
        })
        .collect();
    assert_eq!(prices, vec![101, 102, 103]);
}

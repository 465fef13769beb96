use clob::snapshot::{decode, encode, unzigzag, zigzag};
use clob::{
    CancelOrder, Clob, Command, Event, JournalError, ModifyOrder, NewOrder, RestingOrder,
    RiskConfig, Side, SnapshotState, StpMode, TimeInForce,
};

fn script() -> Vec<Command> {
    vec![
        Command::New(NewOrder::limit(Side::Sell, 102, 5).with_owner(1)),
        Command::New(NewOrder::limit(Side::Sell, 101, 4).with_owner(2)),
        Command::New(NewOrder::limit(Side::Buy, 99, 6).with_owner(3)),
        Command::New(NewOrder::iceberg(Side::Sell, 103, 9, 3).with_owner(1)),
        Command::New(NewOrder::stop(Side::Buy, 104, 2).with_owner(4)),
        Command::New(NewOrder::stop_limit(Side::Sell, 90, 89, 3).with_owner(5)),
        Command::New(NewOrder::limit(Side::Buy, 98, 3).with_stp(StpMode::CancelMaker).with_owner(3)),
        Command::New(NewOrder::limit(Side::Buy, 101, 6).with_owner(6)),
        Command::Modify(ModifyOrder::new(3, 100, 4)),
        Command::Cancel(CancelOrder { order_id: 6 }),
        Command::New(NewOrder::limit(Side::Sell, 100, 2).with_tif(TimeInForce::Ioc)),
    ]
}

fn run(commands: &[Command]) -> (Clob, Vec<Event>) {
    let mut clob = Clob::new();
    let mut events = Vec::new();
    for c in commands {
        events.extend(clob.submit(*c));
    }
    (clob, events)
}

fn state_bytes(clob: &Clob) -> Vec<u8> {
    encode(&clob.capture())
}

#[test]
fn snapshot_bytes_round_trip() {
    let (clob, _) = run(&script());
    let bytes = state_bytes(&clob);
    let back = decode(&bytes).unwrap();
    assert_eq!(back.seq, clob.current_seq());
    assert_eq!(encode(&back), bytes);
}

#[test]
fn restored_venue_continues_like_the_live_one() {
    let (mut plain, _) = run(&script());
    let mut restored = Clob::from_snapshot(&decode(&state_bytes(&plain)).unwrap()).unwrap();
    assert_eq!(state_bytes(&restored), state_bytes(&plain));
    assert_eq!(restored.current_seq(), plain.current_seq());
    assert_eq!(restored.pending_stops(), plain.pending_stops());
    assert_eq!(restored.book().depth(Side::Sell, 10), plain.book().depth(Side::Sell, 10));
    assert_eq!(restored.book().depth(Side::Buy, 10), plain.book().depth(Side::Buy, 10));

    let probes = vec![
        Command::New(NewOrder::limit(Side::Buy, 105, 12).with_owner(9)),
        Command::New(NewOrder::market(Side::Sell, 20)),
        Command::New(NewOrder::limit(Side::Buy, 103, 1)),
    ];
    for p in probes {
        assert_eq!(restored.submit(p), plain.submit(p));
    }
    assert_eq!(state_bytes(&restored), state_bytes(&plain));
}

#[test]
fn corrupt_snapshot_bytes_are_rejected() {
    let (clob, _) = run(&script());
    let mut bytes = state_bytes(&clob);
    let mid = bytes.len() / 2;
    bytes[mid] ^= 0xFF;
    assert!(matches!(decode(&bytes), Err(JournalError::CorruptSnapshot)));
}

#[test]
fn short_snapshot_is_rejected() {
    assert!(matches!(decode(&[1, 2, 3]), Err(JournalError::CorruptSnapshot)));
}

#[test]
fn empty_venue_snapshot_restores_empty() {
    let clob = Clob::new();
    let restored = Clob::from_snapshot(&decode(&state_bytes(&clob)).unwrap()).unwrap();
    assert_eq!(restored.current_seq(), 0);
    assert!(restored.book().is_empty());
    assert_eq!(restored.pending_stops(), 0);
}

#[test]
fn snapshot_keeps_positions_for_risk() {
    let risk = RiskConfig::new().with_position_limit(10);
    let mut clob = Clob::with_risk(risk);
    clob.submit(Command::New(NewOrder::limit(Side::Sell, 100, 8).with_owner(1)));
    clob.submit(Command::New(NewOrder::limit(Side::Buy, 100, 8).with_owner(2)));
    let mut restored = Clob::from_snapshot(&clob.capture()).unwrap();
    restored.set_risk(risk);
    let probe = Command::New(NewOrder::limit(Side::Buy, 90, 3).with_owner(2));
    let a = clob.submit(probe);
    let b = restored.submit(probe);
    assert_eq!(a, b);
    assert!(a.iter().any(|e| matches!(e, Event::Rejected { .. })));
}

#[test]
fn inconsistent_snapshot_is_refused() {
    let order = RestingOrder { id: 1, seq: 1, price: 100, qty: 5, timestamp: 1, owner: 0 };
    let twice = SnapshotState {
        seq: 2,
        next_order_id: 3,
        last_trade_price: None,
        orders: vec![(Side::Buy, order, None), (Side::Buy, order, None)],
        stops: vec![],
        account_net: vec![],
    };
    assert!(Clob::from_snapshot(&twice).is_none());

    let unissued = SnapshotState {
        seq: 2,
        next_order_id: 1,
        last_trade_price: None,
        orders: vec![(Side::Buy, order, None)],
        stops: vec![],
        account_net: vec![],
    };
    assert!(Clob::from_snapshot(&unissued).is_none());

    let fine = SnapshotState {
        seq: 2,
        next_order_id: 2,
        last_trade_price: Some(100),
        orders: vec![(Side::Buy, order, Some((5, 10)))],
        stops: vec![],
        account_net: vec![(7, -3)],
    };
    let clob = Clob::from_snapshot(&fine).unwrap();
    assert_eq!(clob.book().depth(Side::Buy, 1), vec![(100, 5)]);
    assert_eq!(clob.book().account_net(7), -3);
}

#[test]
fn zigzag_maps_small_magnitudes_to_small_numbers() {
    assert_eq!(zigzag(0), 0);
    assert_eq!(zigzag(-1), 1);
    assert_eq!(zigzag(1), 2);
    assert_eq!(zigzag(-2), 3);
    assert_eq!(zigzag(i128::MAX), u128::MAX - 1);
    assert_eq!(zigzag(i128::MIN), u128::MAX);
    for n in [0i128, 1, -1, 63, -64, 1 << 100, i128::MIN, i128::MAX] {
        assert_eq!(unzigzag(zigzag(n)), n);
    }
}

#[test]
fn replay_skips_what_the_snapshot_holds() {
    let commands = script();
    let (plain, _) = run(&commands);
    let (half, _) = run(&commands[..5]);
    let mut restored = Clob::from_snapshot(&half.capture()).unwrap();
    assert_eq!(restored.replay(0, &commands, 5), commands.len());
    assert_eq!(state_bytes(&restored), state_bytes(&plain));
}

#[test]
fn replay_of_a_rotated_segment_starts_at_its_base() {
    let commands = script();
    let (plain, _) = run(&commands);
    let (half, _) = run(&commands[..5]);
    let mut restored = Clob::from_snapshot(&half.capture()).unwrap();
    assert_eq!(restored.replay(5, &commands[5..], 5), commands.len() - 5);
    assert_eq!(state_bytes(&restored), state_bytes(&plain));
}

#[test]
fn replay_onto_a_fresh_venue_runs_everything() {
    let commands = script();
    let (plain, _) = run(&commands);
    let mut fresh = Clob::new();
    assert_eq!(fresh.replay(0, &commands, 0), commands.len());
    assert_eq!(state_bytes(&fresh), state_bytes(&plain));
}

#[test]
fn replay_of_a_fully_applied_segment_changes_nothing() {
    let commands = script();
    let (plain, _) = run(&commands);
    let mut restored = Clob::from_snapshot(&plain.capture()).unwrap();
    let n = commands.len() as u64;
    assert_eq!(restored.replay(0, &commands, n), commands.len());
    assert_eq!(state_bytes(&restored), state_bytes(&plain));
}

fn journal_of(base: u64, commands: &[Command]) -> Vec<u8> {
    let mut bytes = clob::journal::encode_header(base);
    let mut w = clob::codec::Writer::new();
    for c in commands {
        clob::journal::encode_command(&mut w, c);
    }
    bytes.extend_from_slice(&clob::wal::frame_block(commands.len() as u64, w.as_slice()));
    bytes
}

#[test]
fn owner_survives_snapshot_bytes_and_journal_replay() {
    let first = Command::New(NewOrder::limit(Side::Sell, 100, 5).with_owner(1));
    let second = Command::New(
        NewOrder::limit(Side::Buy, 100, 3)
            .with_owner(1)
            .with_stp(StpMode::CancelMaker),
    );
    let mut live = Clob::new();
    live.submit(first);
    let snap = state_bytes(&live);
    live.submit(second);
    assert_eq!(live.book().best_bid(), Some(100));
    assert_eq!(live.book().best_ask(), None);

    let tail = clob::read_commands(&journal_of(1, &[second])).unwrap();
    let mut recovered = Clob::from_snapshot(&decode(&snap).unwrap()).unwrap();
    assert_eq!(recovered.replay(1, &tail, 1), 1);
    assert_eq!(recovered.book().best_bid(), Some(100));
    assert_eq!(recovered.book().best_ask(), None);
    assert_eq!(recovered.book().level_qty(Side::Buy, 100), 3);
    assert_eq!(state_bytes(&recovered), state_bytes(&live));
}

#[test]
fn fees_apply_to_replayed_commands() {
    let fees = clob::FeeConfig::new().with_taker_ppm(2000).with_maker_ppm(1000);
    let commands = vec![
        Command::New(NewOrder::limit(Side::Sell, 1000, 60)),
        Command::New(NewOrder::limit(Side::Buy, 1000, 60)),
    ];
    let read = clob::read_commands(&journal_of(0, &commands)).unwrap();
    let mut replayed = Clob::with_fees(fees);
    assert_eq!(replayed.replay(0, &read, 0), 2);
    let mut live = Clob::with_fees(fees);
    live.submit(Command::New(NewOrder::limit(Side::Sell, 1000, 50)));
    replayed.submit(Command::New(NewOrder::limit(Side::Sell, 1000, 50)));
    let probe = Command::New(NewOrder::limit(Side::Buy, 1000, 50));
    let a = replayed.submit(probe);
    assert!(a.iter().any(|e| matches!(
        e,
        Event::Trade { taker_fee: 100, maker_fee: 50, .. }
    )));
}

#[test]
fn position_rebuilt_by_journal_replay() {
    let risk = RiskConfig::new().with_position_limit(100);
    let commands = vec![
        Command::New(NewOrder::limit(Side::Sell, 50, 60).with_owner(2)),
        Command::New(NewOrder::limit(Side::Buy, 50, 60).with_owner(1)),
    ];
    let read = clob::read_commands(&journal_of(0, &commands)).unwrap();
    let mut replayed = Clob::with_risk(risk);
    assert_eq!(replayed.replay(0, &read, 0), 2);
    assert_eq!(replayed.book().account_net(1), 60);
    let refused = replayed.submit(Command::New(NewOrder::limit(Side::Buy, 40, 41).with_owner(1)));
    assert!(refused.iter().any(|e| matches!(e, Event::Rejected { .. })));
    let taken = replayed.submit(Command::New(NewOrder::limit(Side::Buy, 40, 40).with_owner(1)));
    assert!(taken.iter().any(|e| matches!(e, Event::Accepted { .. })));
}

#[test]
fn rejected_commands_consume_seq_on_journal_replay() {
    let commands = vec![
        Command::New(NewOrder::limit(Side::Buy, 100, 0)),
        Command::New(NewOrder::limit(Side::Buy, 100, 5)),
    ];
    let read = clob::read_commands(&journal_of(0, &commands)).unwrap();
    let mut recovered = Clob::new();
    assert_eq!(recovered.replay(0, &read, 0), 2);
    assert_eq!(recovered.current_seq(), 2);
    assert_eq!(recovered.book().depth(Side::Buy, 4), vec![(100, 5)]);
    assert!(recovered.book().contains(1));
}


use clob::{Clob, L2Feed, L3Feed, TradeTape};

const ALL: usize = usize::MAX;

#[test]
fn all_channels_anchor_to_the_command_seq() {
    let mut clob = Clob::new();
    let mut l2 = L2Feed::new();
    let mut l3 = L3Feed::new();
    let mut tape = TradeTape::new();

    let mut prev = 0;
    for command in script() {
        let events = clob.submit(command);
        let seq = clob.current_seq();
        assert_eq!(seq, prev + 1, "seq must advance by one per command");
        prev = seq;

        let u2 = l2.apply(&events, clob.book());
        let u3 = l3.apply(&events, clob.book());
        let prints = tape.apply(&events);

        assert_eq!(u2.seq, seq, "L2 increment seq");
        assert_eq!(u3.seq, seq, "L3 increment seq");
        for print in &prints {
            assert_eq!(print.seq, seq, "trade-tape print seq");
        }
        assert_eq!(clob.l2_snapshot(ALL).seq, seq, "L2 snapshot seq");
        assert_eq!(clob.l3_snapshot().seq, seq, "L3 snapshot seq");
    }
}

#[test]
fn snapshot_and_increments_align_for_a_late_joiner() {
    let mut clob = Clob::new();
    let mut warmup = TradeTape::new();
    for command in script().into_iter().take(6) {
        warmup.apply(&clob.submit(command));
    }

    let base = clob.l2_snapshot(ALL).seq;
    assert_eq!(base, clob.l3_snapshot().seq);

    let mut l2 = L2Feed::from_book(clob.book());
    let mut l3 = L3Feed::from_book(clob.book());
    for command in script().into_iter().skip(6) {
        let events = clob.submit(command);
        let u2 = l2.apply(&events, clob.book());
        let u3 = l3.apply(&events, clob.book());
        assert!(u2.seq > base, "increments must follow the snapshot");
        assert_eq!(u2.seq, u3.seq);
    }
}

/// A mixed run of commands: resting orders on both sides, crosses, an
/// iceberg, stops that trigger, a modify, a cancel and a rejected order.
#[allow(dead_code)]
fn script() -> Vec<::clob::Command> {
    let limit = |side: ::clob::Side, price: u64, qty: u64| ::clob::Command::New(::clob::NewOrder::limit(side, price, qty));
    let buy = ::clob::Side::Buy;
    let sell = ::clob::Side::Sell;
    vec![
        limit(sell, 102, 5),
        limit(sell, 101, 4),
        limit(buy, 99, 6),
        ::clob::Command::New(::clob::NewOrder::iceberg(sell, 103, 9, 3)),
        ::clob::Command::New(::clob::NewOrder::stop(buy, 102, 2)),
        limit(buy, 98, 3),
        limit(buy, 101, 6),
        ::clob::Command::Modify(::clob::ModifyOrder::new(3, 100, 4)),
        ::clob::Command::New(::clob::NewOrder::market(buy, 7)),
        ::clob::Command::Cancel(::clob::CancelOrder { order_id: 6 }),
        limit(buy, 0, 1),
        ::clob::Command::New(
            ::clob::NewOrder::limit(sell, 100, 2).with_tif(::clob::TimeInForce::Ioc),
        ),
        ::clob::Command::New(::clob::NewOrder::stop_limit(sell, 99, 98, 3)),
        limit(sell, 99, 5),
        ::clob::Command::Cancel(::clob::CancelOrder { order_id: 999 }),
    ]
}

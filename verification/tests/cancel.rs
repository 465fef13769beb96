
use clob::{CancelOrder, Clob, Command, Event, NewOrder, RejectReason, Side};

fn cancel(clob: &mut Clob, order_id: u64) -> Vec<Event> {
    clob.submit(Command::Cancel(CancelOrder { order_id }))
}

#[test]
fn cancel_head_preserves_fifo_of_remaining() {
    let mut clob = Clob::new();
    let a = place_limit(&mut clob, Side::Sell, 101, 3);
    let b = place_limit(&mut clob, Side::Sell, 101, 3);
    let c = place_limit(&mut clob, Side::Sell, 101, 3);

    cancel(&mut clob, a);
    let buy = clob.submit(Command::New(NewOrder::limit(Side::Buy, 101, 6)));
    assert_eq!(trades(&buy), vec![(b, 101, 3), (c, 101, 3)]);
}

#[test]
fn cancel_middle_preserves_fifo_of_remaining() {
    let mut clob = Clob::new();
    let a = place_limit(&mut clob, Side::Sell, 101, 3);
    let b = place_limit(&mut clob, Side::Sell, 101, 3);
    let c = place_limit(&mut clob, Side::Sell, 101, 3);

    cancel(&mut clob, b);
    let buy = clob.submit(Command::New(NewOrder::limit(Side::Buy, 101, 6)));
    assert_eq!(trades(&buy), vec![(a, 101, 3), (c, 101, 3)]);
}

#[test]
fn cancel_tail_preserves_fifo_of_remaining() {
    let mut clob = Clob::new();
    let a = place_limit(&mut clob, Side::Sell, 101, 3);
    let b = place_limit(&mut clob, Side::Sell, 101, 3);
    let c = place_limit(&mut clob, Side::Sell, 101, 3);

    cancel(&mut clob, c);
    let buy = clob.submit(Command::New(NewOrder::limit(Side::Buy, 101, 6)));
    assert_eq!(trades(&buy), vec![(a, 101, 3), (b, 101, 3)]);
}

#[test]
fn cancel_only_order_removes_price_level() {
    let mut clob = Clob::new();
    let a = place_limit(&mut clob, Side::Buy, 100, 5);

    cancel(&mut clob, a);
    assert!(clob.book().is_empty());
    assert_eq!(clob.book().best_bid(), None);
    assert!(clob.book().depth(Side::Buy, 5).is_empty());
}

#[test]
fn cancel_updates_level_total_qty() {
    let mut clob = Clob::new();
    place_limit(&mut clob, Side::Buy, 100, 10);
    let b = place_limit(&mut clob, Side::Buy, 100, 7);
    assert_eq!(clob.book().depth(Side::Buy, 1), vec![(100, 17)]);

    cancel(&mut clob, b);
    assert_eq!(clob.book().depth(Side::Buy, 1), vec![(100, 10)]);
}

#[test]
fn cancel_does_not_affect_other_levels() {
    let mut clob = Clob::new();
    let a = place_limit(&mut clob, Side::Buy, 100, 5);
    place_limit(&mut clob, Side::Buy, 99, 8);

    cancel(&mut clob, a);
    assert_eq!(clob.book().best_bid(), Some(99));
    assert_eq!(clob.book().depth(Side::Buy, 5), vec![(99, 8)]);
}

#[test]
fn cancel_twice_second_is_rejected() {
    let mut clob = Clob::new();
    let a = place_limit(&mut clob, Side::Buy, 100, 5);

    cancel(&mut clob, a);
    let ev = cancel(&mut clob, a);
    assert!(ev.iter().any(|e| matches!(
        e,
        Event::Rejected {
            reason: RejectReason::UnknownOrder,
            ..
        }
    )));
}

#[test]
fn churned_insert_cancel_keeps_book_correct() {
    let mut clob = Clob::new();
    for _ in 0..50 {
        let id = place_limit(&mut clob, Side::Buy, 100, 1);
        cancel(&mut clob, id);
    }
    assert!(clob.book().is_empty());

    let a = place_limit(&mut clob, Side::Sell, 101, 4);
    let b = place_limit(&mut clob, Side::Sell, 101, 4);
    let buy = clob.submit(Command::New(NewOrder::limit(Side::Buy, 101, 6)));
    assert_eq!(trades(&buy), vec![(a, 101, 4), (b, 101, 2)]);
    assert!(clob.book().contains(b));
}

#[allow(dead_code)]
fn trades(events: &[::clob::Event]) -> Vec<(u64, u64, u64)> {
    events
        .iter()
        .filter_map(|e| match e {
            ::clob::Event::Trade {
                maker_order_id,
                price,
                qty,
                ..
            } => Some((*maker_order_id, *price, *qty)),
            _ => None,
        })
        .collect()
}

#[allow(dead_code)]
fn accepted_id(events: &[::clob::Event]) -> u64 {
    events
        .iter()
        .find_map(|e| match e {
            ::clob::Event::Accepted { order_id, .. } => Some(*order_id),
            _ => None,
        })
        .expect("expected an Accepted event")
}

#[allow(dead_code)]
fn place_limit(clob: &mut ::clob::Clob, side: ::clob::Side, price: u64, qty: u64) -> u64 {
    let events = clob.submit(::clob::Command::New(::clob::NewOrder::limit(side, price, qty)));
    accepted_id(&events)
}

use mbooks::server::{Fanout, SUBSCRIBER_CAPACITY};
use mbooks::types::{WireLevel, WireSummary};

fn wire(price: u64) -> WireSummary {
    WireSummary {
        spread: None,
        bids: vec![WireLevel { exchange: "binance".to_string(), price, amount: 1 }],
        asks: Vec::new(),
    }
}

#[test]
fn should_deliver_summaries_in_emission_order() {
    let mut fanout = Fanout::new();
    let id = fanout.register();
    assert_eq!(0, id);
    assert_eq!(1, fanout.len());

    fanout.broadcast(&wire(1));
    fanout.broadcast(&wire(2));

    let first = fanout.drain(0).unwrap();
    let second = fanout.drain(0).unwrap();
    assert_eq!(1, first.bids[0].price);
    assert_eq!(2, second.bids[0].price);
    assert!(fanout.drain(0).is_none());
}

#[test]
fn should_evict_subscriber_that_never_drains() {
    let mut fanout = Fanout::new();
    fanout.register();
    for i in 0..SUBSCRIBER_CAPACITY as u64 {
        fanout.broadcast(&wire(i));
        assert_eq!(1, fanout.len());
    }
    // The queue is full: one more failed delivery evicts the subscriber.
    fanout.broadcast(&wire(99));
    assert_eq!(0, fanout.len());
}

#[test]
fn should_keep_subscriber_that_drains() {
    let mut fanout = Fanout::new();
    fanout.register();
    for i in 0..SUBSCRIBER_CAPACITY as u64 {
        fanout.broadcast(&wire(i));
    }
    assert_eq!(0, fanout.drain(0).unwrap().bids[0].price);
    fanout.broadcast(&wire(99));
    assert_eq!(1, fanout.len());
}

#[test]
fn should_evict_only_the_full_subscriber() {
    let mut fanout = Fanout::new();
    fanout.register();
    fanout.register();
    fanout.broadcast(&wire(1));
    // The first subscriber drains; the second falls behind.
    let _ = fanout.drain(0);
    for i in 0..SUBSCRIBER_CAPACITY as u64 {
        fanout.broadcast(&wire(10 + i));
        let _ = fanout.drain(0);
    }
    assert_eq!(1, fanout.len());
}

#[test]
fn should_let_late_subscriber_join_mid_flight() {
    let mut fanout = Fanout::new();
    fanout.broadcast(&wire(1));
    let id = fanout.register();
    assert_eq!(0, id);
    fanout.broadcast(&wire(2));
    // A subscriber only sees what was emitted after it joined.
    assert_eq!(2, fanout.drain(0).unwrap().bids[0].price);
    assert!(fanout.drain(0).is_none());
}

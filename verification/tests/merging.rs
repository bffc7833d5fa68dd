use mbooks::merger::OrderbookMerger;
use mbooks::types::{Level, Summary};

fn level(exchange: &str, price: u64, quantity: u64) -> Level {
    Level { exchange: exchange.to_string(), price, quantity }
}

const TEN: u64 = 1_000_000_000;

#[test]
fn should_add_to_an_empty_orderbook() {
    let mut merger = OrderbookMerger::new(2);

    let emitted = merger.process_summary(Summary {
        bids: vec![level("binance", 100_000_000, TEN), level("binance", 90_000_000, TEN)],
        asks: vec![
            level("binance", 200_000_000, TEN),
            level("binance", 300_000_000, TEN),
            level("binance", 400_000_000, TEN),
        ],
    });

    assert_eq!(3, merger.asks.len());
    assert_eq!(
        merger.asks,
        vec![
            level("binance", 200_000_000, TEN),
            level("binance", 300_000_000, TEN),
            level("binance", 400_000_000, TEN),
        ],
    );

    assert_eq!(2, merger.bids.len());
    assert_eq!(
        merger.bids,
        vec![level("binance", 100_000_000, TEN), level("binance", 90_000_000, TEN)],
    );
    assert_eq!(Some(100_000_000), merger.summary().spread());

    let emitted = emitted.unwrap();
    assert_eq!(2, emitted.bids.len());
    assert_eq!(2, emitted.asks.len());
}

#[test]
fn should_add_to_an_existing_orderbook() {
    let mut merger = OrderbookMerger::new(2);
    merger.bids = vec![level("binance", 100_000_000, TEN), level("bitstamp", 90_000_000, TEN)];
    merger.asks = vec![level("binance", 200_000_000, TEN), level("bitstamp", 300_000_000, TEN)];

    let _ = merger.process_summary(Summary {
        bids: vec![level("binance", 110_000_000, TEN), level("binance", 105_000_000, TEN)],
        asks: vec![level("binance", 210_000_000, TEN), level("binance", 310_000_000, TEN)],
    });

    let _ = merger.process_summary(Summary {
        bids: vec![level("bitstamp", 111_000_000, TEN), level("bitstamp", 105_100_000, TEN)],
        asks: vec![level("bitstamp", 211_000_000, TEN), level("bitstamp", 311_000_000, TEN)],
    });

    assert_eq!(4, merger.bids.len());
    assert_eq!(
        merger.bids,
        vec![
            level("bitstamp", 111_000_000, TEN),
            level("binance", 110_000_000, TEN),
            level("bitstamp", 105_100_000, TEN),
            level("binance", 105_000_000, TEN),
        ],
    );

    assert_eq!(4, merger.asks.len());
    assert_eq!(
        merger.asks,
        vec![
            level("binance", 210_000_000, TEN),
            level("bitstamp", 211_000_000, TEN),
            level("binance", 310_000_000, TEN),
            level("bitstamp", 311_000_000, TEN),
        ],
    );

    let summary = merger.summary();
    assert_eq!(Some(99_000_000), summary.spread());
    assert_eq!(2, summary.bids.len());
    assert_eq!(
        summary.bids,
        vec![level("bitstamp", 111_000_000, TEN), level("binance", 110_000_000, TEN)],
    );

    assert_eq!(2, summary.asks.len());
    assert_eq!(
        summary.asks,
        vec![level("binance", 210_000_000, TEN), level("bitstamp", 211_000_000, TEN)],
    );
}

#[test]
fn should_add_empty_summary_to_an_existing_orderbook() {
    let mut merger = OrderbookMerger::new(2);
    merger.bids = vec![level("binance", 100_000_000, TEN), level("bitstamp", 90_000_000, TEN)];
    merger.asks = vec![level("binance", 200_000_000, TEN), level("bitstamp", 300_000_000, TEN)];

    let emitted = merger.process_summary(Summary { bids: Vec::new(), asks: Vec::new() });

    assert!(emitted.is_none());
    assert_eq!(2, merger.asks.len());
    assert_eq!(2, merger.bids.len());
}

#[test]
fn should_replace_outdated_data_from_same_exchange() {
    let mut merger = OrderbookMerger::new(2);
    merger.bids = vec![level("binance", 100_000_000, TEN), level("bitstamp", 90_000_000, TEN)];
    merger.asks = vec![level("binance", 200_000_000, TEN), level("bitstamp", 300_000_000, TEN)];

    let _ = merger.process_summary(Summary {
        bids: vec![level("binance", 80_000_000, TEN)],
        asks: vec![level("binance", 400_000_000, TEN)],
    });

    assert_eq!(2, merger.bids.len());
    assert_eq!(
        merger.bids,
        vec![level("bitstamp", 90_000_000, TEN), level("binance", 80_000_000, TEN)],
    );
    assert_eq!(2, merger.asks.len());
    assert_eq!(
        merger.asks,
        vec![level("bitstamp", 300_000_000, TEN), level("binance", 400_000_000, TEN)],
    );
}

#[test]
fn should_emit_identical_summary_for_replayed_update() {
    let mut merger = OrderbookMerger::new(2);
    merger.bids = vec![level("bitstamp", 90_000_000, TEN)];
    merger.asks = vec![level("bitstamp", 300_000_000, TEN)];

    let update = Summary {
        bids: vec![level("binance", 100_000_000, TEN)],
        asks: vec![level("binance", 200_000_000, TEN)],
    };
    let first = merger.process_summary(update.clone()).unwrap();
    let second = merger.process_summary(update).unwrap();

    assert_eq!(first, second);
}

#[test]
fn should_emit_empty_summaries_at_depth_zero() {
    let mut merger = OrderbookMerger::new(0);
    let emitted = merger
        .process_summary(Summary {
            bids: vec![level("binance", 100_000_000, TEN)],
            asks: vec![level("binance", 200_000_000, TEN)],
        })
        .unwrap();
    assert_eq!(0, emitted.bids.len());
    assert_eq!(0, emitted.asks.len());
    // The canonical book still holds the levels; only emissions truncate.
    assert_eq!(1, merger.bids.len());
    assert_eq!(1, merger.asks.len());
}

#[test]
fn should_prefer_incoming_level_on_equal_price() {
    let mut merger = OrderbookMerger::new(4);
    merger.bids = vec![level("bitstamp", 100_000_000, TEN)];
    merger.asks = vec![level("bitstamp", 200_000_000, TEN)];

    let _ = merger.process_summary(Summary {
        bids: vec![level("binance", 100_000_000, TEN)],
        asks: vec![level("binance", 200_000_000, TEN)],
    });

    assert_eq!(
        merger.bids,
        vec![level("binance", 100_000_000, TEN), level("bitstamp", 100_000_000, TEN)],
    );
    assert_eq!(
        merger.asks,
        vec![level("binance", 200_000_000, TEN), level("bitstamp", 200_000_000, TEN)],
    );
}

#[test]
fn should_check_summary_well_formedness() {
    let sorted = Summary {
        bids: vec![level("binance", 100_000_000, TEN), level("binance", 90_000_000, TEN)],
        asks: vec![level("binance", 200_000_000, TEN), level("binance", 300_000_000, TEN)],
    };
    assert!(sorted.is_well_formed());
    assert!(sorted.is_homogeneous());

    let unsorted = Summary {
        bids: vec![level("binance", 90_000_000, TEN), level("binance", 100_000_000, TEN)],
        asks: Vec::new(),
    };
    assert!(!unsorted.is_well_formed());

    let mixed = Summary {
        bids: vec![level("bitstamp", 90_000_000, TEN)],
        asks: vec![level("binance", 200_000_000, TEN)],
    };
    assert!(!mixed.is_homogeneous());
}

use mbooks::decimal::{parse_fixed, PRICE_SCALE};
use mbooks::types::{Asset, Level, Summary, Symbol, WebsocketError};

#[test]
fn should_parse_ethbtc_pair() {
    // Given
    let msg = "eth/btC".to_string();

    // When
    let pair = Symbol::try_from(msg);

    // Then
    assert!(pair.is_ok());
    let pair = pair.ok().unwrap();
    assert_eq!(Symbol { base: Asset::ETH, quote: Asset::BTC }, pair);
}

#[test]
fn should_parse_every_asset_code() {
    assert_eq!(Asset::try_from("ada").unwrap(), Asset::ADA);
    assert_eq!(Asset::try_from("btc").unwrap(), Asset::BTC);
    assert_eq!(Asset::try_from("dot").unwrap(), Asset::DOT);
    assert_eq!(Asset::try_from("eth").unwrap(), Asset::ETH);
    assert_eq!(Asset::try_from("link").unwrap(), Asset::LINK);
    assert_eq!(Asset::try_from("ltc").unwrap(), Asset::LTC);
    assert_eq!(Asset::try_from("sol").unwrap(), Asset::SOL);
    assert_eq!(Asset::try_from("usd").unwrap(), Asset::USD);
    assert_eq!(Asset::try_from("usdc").unwrap(), Asset::USDC);
    assert_eq!(Asset::try_from("usdt").unwrap(), Asset::USDT);
}

#[test]
fn should_reject_unknown_asset_code() {
    match Asset::try_from("xyz") {
        Err(WebsocketError::InvalidAsset(t)) => assert_eq!("xyz", t),
        _ => panic!("expected InvalidAsset"),
    }
    // Asset codes are matched in lowercase only; `Symbol` lowercases first.
    assert!(Asset::try_from("ETH").is_err());
}

#[test]
fn should_reject_pair_without_slash() {
    match Symbol::try_from("ethbtc".to_string()) {
        Err(WebsocketError::InvalidPair(t)) => assert_eq!("ethbtc", t),
        _ => panic!("expected InvalidPair"),
    }
}

#[test]
fn should_reject_pair_with_unknown_side() {
    match Symbol::try_from("eth/xyz".to_string()) {
        Err(WebsocketError::InvalidPair(t)) => assert_eq!("eth/xyz", t),
        _ => panic!("expected InvalidPair"),
    }
}

#[test]
fn should_reject_pair_of_equal_assets() {
    match Symbol::try_from("BTC/btc".to_string()) {
        Err(WebsocketError::InvalidPair(t)) => assert_eq!("btc/btc", t),
        _ => panic!("expected InvalidPair"),
    }
}

#[test]
fn should_carry_lowercased_text_in_pair_error() {
    match Symbol::try_from("ETHBTC".to_string()) {
        Err(WebsocketError::InvalidPair(t)) => assert_eq!("ethbtc", t),
        _ => panic!("expected InvalidPair"),
    }
}

#[test]
fn should_parse_uppercase_pair() {
    let pair = Symbol::try_from("ETH/BTC".to_string()).unwrap();
    assert_eq!(Symbol { base: Asset::ETH, quote: Asset::BTC }, pair);
}

#[test]
fn should_parse_plain_integer_decimal() {
    assert_eq!(Some(PRICE_SCALE), parse_fixed(b"1"));
    assert_eq!(Some(0), parse_fixed(b"0"));
    assert_eq!(Some(1_050_000_000), parse_fixed(b"10.5"));
}

#[test]
fn should_parse_eight_decimal_places_exactly() {
    assert_eq!(Some(6_754_400), parse_fixed(b"0.06754400"));
    assert_eq!(Some(150_000_000), parse_fixed(b"1.5"));
    assert_eq!(Some(99_000_000), parse_fixed(b"0.99"));
}

#[test]
fn should_truncate_decimals_beyond_the_eighth() {
    assert_eq!(Some(12_345_678), parse_fixed(b"0.123456789"));
}

#[test]
fn should_reject_malformed_decimals() {
    assert_eq!(None, parse_fixed(b""));
    assert_eq!(None, parse_fixed(b"."));
    assert_eq!(None, parse_fixed(b"1."));
    assert_eq!(None, parse_fixed(b".5"));
    assert_eq!(None, parse_fixed(b"1.2.3"));
    assert_eq!(None, parse_fixed(b"1e5"));
    assert_eq!(None, parse_fixed(b"-1.5"));
    assert_eq!(None, parse_fixed(b"99999999999999999999"));
}

#[test]
fn should_parse_the_largest_representable_decimal() {
    assert_eq!(Some(u64::MAX), parse_fixed(b"184467440737.09551615"));
    assert_eq!(None, parse_fixed(b"184467440737.09551616"));
    assert_eq!(None, parse_fixed(b"184467440738"));
}

#[test]
fn should_compute_spread_only_when_both_sides_are_present() {
    let level = |price: u64| Level {
        exchange: "binance".to_string(),
        price,
        quantity: PRICE_SCALE,
    };
    let both = Summary { bids: vec![level(100_000_000)], asks: vec![level(200_000_000)] };
    assert_eq!(Some(100_000_000), both.spread());

    let no_bids = Summary { bids: vec![], asks: vec![level(200_000_000)] };
    assert_eq!(None, no_bids.spread());

    let no_asks = Summary { bids: vec![level(100_000_000)], asks: vec![] };
    assert_eq!(None, no_asks.spread());

    let empty = Summary { bids: vec![], asks: vec![] };
    assert_eq!(None, empty.spread());
}

#[test]
fn should_rename_quantity_to_amount_on_the_wire() {
    let sum = Summary {
        bids: vec![Level { exchange: "binance".to_string(), price: 100_000_000, quantity: 7 }],
        asks: vec![Level { exchange: "bitstamp".to_string(), price: 300_000_000, quantity: 9 }],
    };
    let wire = sum.to_wire();
    assert_eq!(Some(200_000_000), wire.spread);
    assert_eq!(1, wire.bids.len());
    assert_eq!("binance", wire.bids[0].exchange);
    assert_eq!(100_000_000, wire.bids[0].price);
    assert_eq!(7, wire.bids[0].amount);
    assert_eq!("bitstamp", wire.asks[0].exchange);
    assert_eq!(9, wire.asks[0].amount);
}

#[test]
fn should_format_asset_display_code_in_uppercase() {
    assert_eq!("ETH", Asset::ETH.to_string());
    assert_eq!("USDT", Asset::USDT.to_string());
}

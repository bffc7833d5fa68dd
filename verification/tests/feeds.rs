use mbooks::binance::{parse_depth_snapshot, symbol_to_string};
use mbooks::bitstamp::{parse_event, WebSocketEvent};
use mbooks::json::{parse_json, JsonValue};
use mbooks::types::{Asset, Symbol, WebsocketError};

#[test]
fn should_parse_data() {
    // Given
    let msg = r#"{"lastUpdateId":6062044077,"bids":[["0.06754400","31.99050000"],["0.06754300","4.60890000"]],"asks":[["0.06754500","27.06160000"],["0.06754600","5.45080000"],["0.06754700","0.03340000"]]}"#;

    // When
    let resp = parse_depth_snapshot(msg.as_bytes()).unwrap();

    // Then
    assert_eq!(2, resp.bids.len());
    assert_eq!(3, resp.asks.len());
}

#[test]
fn should_convert_symbol() {
    // Given
    let symbol = Symbol { base: Asset::ETH, quote: Asset::BTC };

    // When
    let resp = symbol_to_string(&symbol);

    // Then
    assert_eq!("ethbtc", resp)
}

#[test]
fn should_parse_a_subscribe() {
    // Given
    let msg = r#"{"event":"bts:subscription_succeeded","channel":"order_book_ethbtc","data":{}}"#;

    // When
    let resp = parse_event(msg.as_bytes()).unwrap();

    // Then
    if let WebSocketEvent::Succeeded = resp {
        assert!(true);
    } else {
        assert!(false, "not a subscribe");
    }
}

#[test]
fn bitstamp_should_parse_data() {
    // Given
    let msg = r#"{"data":{"timestamp":"1666200249","microtimestamp":"1666200249249913","bids":[["0.06760079","0.55000000"],["0.06759456","5.79242377"]],"asks":[["0.06764067","0.55000000"],["0.06764614","5.78800796"],["0.06765134","7.71643786"]]},"channel":"order_book_ethbtc","event":"data"}"#;

    // When
    let resp = parse_event(msg.as_bytes()).unwrap();

    // Then
    if let WebSocketEvent::Data { data } = resp {
        assert_eq!(2, data.bids.len());
        assert_eq!(3, data.asks.len());
    } else {
        assert!(false, "not a subscribe");
    }
}

#[test]
fn bitstamp_should_convert_symbol() {
    // Given
    let symbol = Symbol { base: Asset::ETH, quote: Asset::BTC };

    // When
    let resp = mbooks::bitstamp::symbol_to_string(&symbol);

    // Then
    assert_eq!("ethbtc", resp)
}

#[test]
fn should_build_subscribe_frame_for_symbol() {
    let symbol = Symbol { base: Asset::ETH, quote: Asset::BTC };
    assert_eq!(
        r#"{"event":"bts:subscribe","data":{"channel": "order_book_ethbtc"}}"#,
        mbooks::bitstamp::subscribe_message(&symbol),
    );
}

#[test]
fn should_round_trip_pair_text_to_stream_name() {
    let symbol = Symbol::try_from("ETH/BTC".to_string()).unwrap();
    assert_eq!("ethbtc", symbol_to_string(&symbol));
    assert_eq!("ethbtc", mbooks::bitstamp::symbol_to_string(&symbol));
}

#[test]
fn should_decode_binance_frame_to_fixed_point_levels() {
    let msg = r#"{"bids":[["1.0","10.0"]],"asks":[["2.0","10.0"],["3.5","0.25"]]}"#;
    let snapshot = parse_depth_snapshot(msg.as_bytes()).unwrap();
    let summary = snapshot.try_into().unwrap();
    assert_eq!(1, summary.bids.len());
    assert_eq!(2, summary.asks.len());
    assert_eq!("binance", summary.bids[0].exchange);
    assert_eq!(100_000_000, summary.bids[0].price);
    assert_eq!(1_000_000_000, summary.bids[0].quantity);
    assert_eq!("binance", summary.asks[0].exchange);
    assert_eq!(200_000_000, summary.asks[0].price);
    assert_eq!(350_000_000, summary.asks[1].price);
    assert_eq!(25_000_000, summary.asks[1].quantity);
}

#[test]
fn should_fail_frame_decode_on_bad_number() {
    let msg = r#"{"bids":[["abc","10.0"]],"asks":[]}"#;
    let snapshot = parse_depth_snapshot(msg.as_bytes()).unwrap();
    match snapshot.try_into() {
        Err(WebsocketError::ParseError(_)) => {},
        _ => panic!("expected ParseError"),
    }
}

#[test]
fn should_truncate_bitstamp_data_to_depth() {
    let msg = r#"{"data":{"bids":[["1.0","1"],["0.9","1"],["0.8","1"]],"asks":[["2.0","1"]]},"event":"data"}"#;
    let resp = parse_event(msg.as_bytes()).unwrap();
    if let WebSocketEvent::Data { mut data } = resp {
        data.truncate_to_depth(2);
        assert_eq!(2, data.bids.len());
        assert_eq!(1, data.asks.len());
        let summary = data.try_into().unwrap();
        assert_eq!("bitstamp", summary.bids[0].exchange);
        assert_eq!(100_000_000, summary.bids[0].price);
        assert_eq!(90_000_000, summary.bids[1].price);
    } else {
        panic!("not a data frame");
    }
}

#[test]
fn should_drop_frame_with_unknown_event() {
    let msg = r#"{"event":"bts:unsubscribe","data":{}}"#;
    assert!(parse_event(msg.as_bytes()).is_none());
}

#[test]
fn should_parse_json_scalars_and_nesting() {
    let msg = r#" { "a" : [ true , false , null , 1.5e3 , "x" ] , "b" : { "c" : "d" } } "#;
    let v = parse_json(msg.as_bytes()).unwrap();
    match v.get(b"a").unwrap() {
        JsonValue::Arr(items) => assert_eq!(5, items.len()),
        _ => panic!("expected an array"),
    }
    match v.get(b"b").unwrap().get(b"c").unwrap() {
        JsonValue::Str(s) => assert_eq!(b"d".to_vec(), s.clone()),
        _ => panic!("expected a string"),
    }
}

#[test]
fn should_unescape_quotes_and_backslashes() {
    let msg = r#"{"k":"a\"b\\c\/d"}"#;
    let v = parse_json(msg.as_bytes()).unwrap();
    match v.get(b"k").unwrap() {
        JsonValue::Str(s) => assert_eq!(br#"a"b\c/d"#.to_vec(), s.clone()),
        _ => panic!("expected a string"),
    }
}

#[test]
fn should_look_up_the_first_of_duplicate_keys() {
    let v = parse_json(br#"{"k":"first","k":"second"}"#).unwrap();
    match v.get(b"k").unwrap() {
        JsonValue::Str(s) => assert_eq!(b"first".to_vec(), s.clone()),
        _ => panic!("expected a string"),
    }
}

#[test]
fn should_unescape_control_characters() {
    let v = parse_json(br#"{"k":"a\nb\tc\rd\be\ff"}"#).unwrap();
    match v.get(b"k").unwrap() {
        JsonValue::Str(s) => {
            assert_eq!(b"a\nb\tc\rd\x08e\x0cf".to_vec(), s.clone());
        }
        _ => panic!("expected a string"),
    }
}

#[test]
fn should_unescape_unicode_escapes() {
    let v = parse_json(br#"{"k":"\u0041\u00e9\u20ac\ud83d\ude00"}"#).unwrap();
    match v.get(b"k").unwrap() {
        JsonValue::Str(s) => {
            let mut expected = b"A".to_vec();
            expected.extend_from_slice("\u{e9}\u{20ac}\u{1f600}".as_bytes());
            assert_eq!(expected, s.clone());
        }
        _ => panic!("expected a string"),
    }
}

#[test]
fn should_reject_lone_surrogates_and_bad_escapes() {
    assert!(parse_json(br#"{"k":"\ud800"}"#).is_none());
    assert!(parse_json(br#"{"k":"\udc00"}"#).is_none());
    assert!(parse_json(br#"{"k":"\ud83dx"}"#).is_none());
    assert!(parse_json(br#"{"k":"\u12"}"#).is_none());
    assert!(parse_json(br#"{"k":"a\xb"}"#).is_none());
}

#[test]
fn should_build_stream_url_for_symbol_and_depth() {
    let symbol = Symbol { base: Asset::ETH, quote: Asset::BTC };
    assert_eq!(
        "wss://stream.binance.com:9443/ws/ethbtc@depth10@100ms",
        mbooks::binance::connect_url(&symbol, 10),
    );
    assert_eq!(
        "wss://stream.binance.com:9443/ws/ethbtc@depth0@100ms",
        mbooks::binance::connect_url(&symbol, 0),
    );
}

#[test]
fn should_reject_unsupported_escape_and_trailing_garbage() {
    assert!(parse_json(br#"{"k":1} extra"#).is_none());
    assert!(parse_json(br#"{"k":}"#).is_none());
    assert!(parse_json(b"").is_none());
}

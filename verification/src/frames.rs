//! The shape shared by the exchange feeds' frames: a book of raw levels,
//! each a `[price, quantity]` pair of decimal strings, under the keys
//! `bids` and `asks`; and its decoding into domain levels carrying one
//! exchange's tag.

use vstd::prelude::*;

verus! {

use vstd::utf8::encode_utf8;
use crate::json::{JsonValue, JsonV, spec_views, spec_json_get, lemma_views_index};
use crate::types::{Level, Summary, WebsocketError};
use crate::decimal::spec_decimal;

/// One quoted level: a price string and a quantity string.
#[derive(Debug, PartialEq)]
pub struct RawLevel {
    pub price: Vec<u8>,
    pub quantity: Vec<u8>,
}

/// The mathematical content of a quoted level.
#[verifier::ext_equal]
pub struct RawLevelV {
    pub price: Seq<u8>,
    pub quantity: Seq<u8>,
}

impl View for RawLevel {
    type V = RawLevelV;

    open spec fn view(&self) -> RawLevelV {
        RawLevelV { price: self.price@, quantity: self.quantity@ }
    }
}

/// The views of a sequence of quoted levels.
pub open spec fn raw_views(v: Seq<RawLevel>) -> Seq<RawLevelV> {
    v.map_values(|r: RawLevel| r@)
}

/// The quoted level denoted by a JSON value: an array whose first two
/// items are strings; further items are ignored.
pub open spec fn spec_raw_level(j: JsonV) -> Option<RawLevelV> {
    match j {
        JsonV::Arr(items) => if items.len() >= 2 {
            match (items[0], items[1]) {
                (JsonV::Str(p), JsonV::Str(q)) => Some(RawLevelV { price: p, quantity: q }),
                _ => None,
            }
        } else {
            None
        },
        _ => None,
    }
}

/// The quoted levels denoted by a sequence of JSON values; any item of the
/// wrong shape fails the whole sequence.
pub open spec fn spec_raw_levels(items: Seq<JsonV>) -> Option<Seq<RawLevelV>>
    decreases items.len(),
{
    if items.len() == 0 {
        Some(Seq::empty())
    } else {
        match (spec_raw_level(items[0]), spec_raw_levels(items.skip(1))) {
            (Some(r), Some(rest)) => Some(seq![r] + rest),
            _ => None,
        }
    }
}

/// The raw book denoted by a JSON value: arrays of quoted levels under the
/// keys `bids` and `asks`.
pub open spec fn spec_raw_book(j: JsonV) -> Option<(Seq<RawLevelV>, Seq<RawLevelV>)> {
    match (
        spec_json_get(j, encode_utf8("bids"@)),
        spec_json_get(j, encode_utf8("asks"@)),
    ) {
        (Some(JsonV::Arr(bs)), Some(JsonV::Arr(az))) => match (
            spec_raw_levels(bs),
            spec_raw_levels(az),
        ) {
            (Some(b), Some(a)) => Some((b, a)),
            _ => None,
        },
        _ => None,
    }
}

/// Copies a byte string.
fn clone_bytes(v: &Vec<u8>) -> (r: Vec<u8>)
    ensures
        r@ == v@,
{
    vstd::slice::slice_to_vec(v.as_slice())
}

/// Extracts one quoted level from a JSON value.
fn raw_level_from_json(v: &JsonValue) -> (r: Option<RawLevel>)
    ensures
        match r {
            Some(l) => spec_raw_level(v@) == Some(l@),
            None => spec_raw_level(v@) is None,
        },
{
    match v {
        JsonValue::Arr(items) => {
            proof {
                lemma_views_index(items@);
            }
            if items.len() >= 2 {
                match (&items[0], &items[1]) {
                    (JsonValue::Str(p), JsonValue::Str(q)) => Some(
                        RawLevel { price: clone_bytes(p), quantity: clone_bytes(q) },
                    ),
                    _ => None,
                }
            } else {
                None
            }
        },
        _ => None,
    }
}

/// Extracts the quoted levels from the items of a JSON array.
pub fn raw_levels_from_json(items: &Vec<JsonValue>) -> (r: Option<Vec<RawLevel>>)
    ensures
        match r {
            Some(v) => spec_raw_levels(spec_views(items@)) == Some(raw_views(v@)),
            None => spec_raw_levels(spec_views(items@)) is None,
        },
{
    let ghost sv = spec_views(items@);
    proof {
        lemma_views_index(items@);
        assert(sv.skip(0) =~= sv);
    }
    let mut acc: Vec<RawLevel> = Vec::new();
    let mut i: usize = 0;
    proof {
        assert(raw_views(acc@) =~= Seq::<RawLevelV>::empty());
    }
    while i < items.len()
        invariant
            i <= items@.len(),
            sv == spec_views(items@),
            sv.len() == items@.len(),
            forall|k: int| 0 <= k < items@.len() ==> sv[k] == items@[k]@,
            match spec_raw_levels(sv.skip(i as int)) {
                Some(rest) => spec_raw_levels(sv) == Some(raw_views(acc@) + rest),
                None => spec_raw_levels(sv) is None,
            },
        decreases items@.len() - i,
    {
        proof {
            assert(sv.skip(i as int)[0] == sv[i as int]);
            assert(sv.skip(i as int).skip(1) =~= sv.skip(i + 1));
        }
        match raw_level_from_json(&items[i]) {
            Some(l) => {
                let ghost accv = raw_views(acc@);
                acc.push(l);
                proof {
                    assert(raw_views(acc@) =~= accv.push(l@));
                    if spec_raw_levels(sv.skip(i + 1)) is Some {
                        let rest = spec_raw_levels(sv.skip(i + 1)).unwrap();
                        assert(accv.push(l@) + rest =~= accv + (seq![l@] + rest));
                    }
                }
            },
            None => {
                return None;
            },
        }
        i = i + 1;
    }
    proof {
        assert(sv.skip(items@.len() as int) =~= Seq::<JsonV>::empty());
        assert(raw_views(acc@) + Seq::<RawLevelV>::empty() =~= raw_views(acc@));
    }
    Some(acc)
}

/// Extracts the raw book from a parsed JSON document.
pub fn raw_book_from_json(v: &JsonValue) -> (r: Option<(Vec<RawLevel>, Vec<RawLevel>)>)
    ensures
        match r {
            Some(b) => spec_raw_book(v@) == Some((raw_views(b.0@), raw_views(b.1@))),
            None => spec_raw_book(v@) is None,
        },
{
    let bids_val = match v.get("bids".as_bytes()) {
        Some(x) => x,
        None => {
            return None;
        },
    };
    let asks_val = match v.get("asks".as_bytes()) {
        Some(x) => x,
        None => {
            return None;
        },
    };
    match (bids_val, asks_val) {
        (JsonValue::Arr(bs), JsonValue::Arr(az)) => {
            let bids = match raw_levels_from_json(bs) {
                Some(x) => x,
                None => {
                    return None;
                },
            };
            let asks = match raw_levels_from_json(az) {
                Some(x) => x,
                None => {
                    return None;
                },
            };
            Some((bids, asks))
        },
        _ => None,
    }
}

/// Whether a parsed decimal fits the fixed-point range.
pub open spec fn spec_fits(o: Option<int>) -> bool {
    match o {
        Some(n) => 0 <= n <= u64::MAX,
        None => false,
    }
}

/// Whether both strings of a quoted level denote representable values.
pub open spec fn spec_raw_ok(r: RawLevelV) -> bool {
    spec_fits(spec_decimal(r.price)) && spec_fits(spec_decimal(r.quantity))
}

/// Whether every quoted level of `raw` denotes representable values.
pub open spec fn spec_levels_ok(raw: Seq<RawLevelV>) -> bool {
    forall|i: int| 0 <= i < raw.len() ==> spec_raw_ok(#[trigger] raw[i])
}

/// `out` is `raw` decoded: same length, each level tagged `tag`, each
/// price and quantity the fixed-point value of its string.
pub open spec fn spec_levels_decoded(raw: Seq<RawLevelV>, tag: Seq<char>, out: Seq<Level>) -> bool {
    &&& out.len() == raw.len()
    &&& forall|i: int|
        0 <= i < raw.len() ==> (#[trigger] out[i]).exchange@ == tag && spec_decimal(
            raw[i].price,
        ) == Some(out[i].price as int) && spec_decimal(raw[i].quantity) == Some(
            out[i].quantity as int,
        )
}

/// Decodes quoted levels into domain levels carrying `tag`.  Fails with
/// `ParseError` exactly when some string is not a representable decimal.
pub fn decode_levels(raw: &Vec<RawLevel>, tag: &str) -> (r: Result<Vec<Level>, WebsocketError>)
    ensures
        match r {
            Ok(out) => spec_levels_ok(raw_views(raw@)) && spec_levels_decoded(
                raw_views(raw@),
                tag@,
                out@,
            ),
            Err(e) => !spec_levels_ok(raw_views(raw@)) && (e matches WebsocketError::ParseError(t)
                && t@ == "invalid decimal level"@),
        },
{
    let ghost rv = raw_views(raw@);
    let mut out: Vec<Level> = Vec::new();
    let mut i: usize = 0;
    while i < raw.len()
        invariant
            i <= raw@.len(),
            rv == raw_views(raw@),
            rv.len() == raw@.len(),
            forall|k: int| 0 <= k < raw@.len() ==> rv[k] == raw@[k]@,
            out@.len() == i,
            forall|k: int| 0 <= k < i ==> spec_raw_ok(#[trigger] rv[k]),
            forall|k: int|
                0 <= k < i ==> (#[trigger] out@[k]).exchange@ == tag@ && spec_decimal(
                    rv[k].price,
                ) == Some(out@[k].price as int) && spec_decimal(rv[k].quantity) == Some(
                    out@[k].quantity as int,
                ),
        decreases raw@.len() - i,
    {
        let l = &raw[i];
        let price = match crate::decimal::parse_fixed(l.price.as_slice()) {
            Some(p) => p,
            None => {
                proof {
                    assert(!spec_raw_ok(rv[i as int]));
                }
                return Err(WebsocketError::ParseError("invalid decimal level".to_owned()));
            },
        };
        let quantity = match crate::decimal::parse_fixed(l.quantity.as_slice()) {
            Some(q) => q,
            None => {
                proof {
                    assert(!spec_raw_ok(rv[i as int]));
                }
                return Err(WebsocketError::ParseError("invalid decimal level".to_owned()));
            },
        };
        out.push(Level { exchange: tag.to_owned(), price, quantity });
        i = i + 1;
    }
    Ok(out)
}

/// Decodes a raw book into a summary whose levels all carry `tag`.
pub fn decode_book(bids: &Vec<RawLevel>, asks: &Vec<RawLevel>, tag: &str) -> (r: Result<
    Summary,
    WebsocketError,
>)
    ensures
        match r {
            Ok(sum) => spec_levels_ok(raw_views(bids@)) && spec_levels_ok(raw_views(asks@))
                && spec_levels_decoded(raw_views(bids@), tag@, sum.bids@) && spec_levels_decoded(
                raw_views(asks@),
                tag@,
                sum.asks@,
            ) && crate::types::spec_summary_homogeneous(sum),
            Err(e) => (!spec_levels_ok(raw_views(bids@)) || !spec_levels_ok(raw_views(asks@))) && (
            e matches WebsocketError::ParseError(t) && t@ == "invalid decimal level"@),
        },
{
    let b = decode_levels(bids, tag)?;
    let a = decode_levels(asks, tag)?;
    let sum = Summary { bids: b, asks: a };
    proof {
        assert(crate::types::spec_summary_homogeneous(sum));
    }
    Ok(sum)
}

} // verus!

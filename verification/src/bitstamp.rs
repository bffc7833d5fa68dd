//! Decoding of the Bitstamp-style channel feed: after a subscribe
//! handshake, each frame is a JSON object tagged by an `event` field, with
//! the book under `data` for data frames.  The feed may quote more levels
//! than asked for; the caller truncates to the configured depth.

use vstd::prelude::*;

verus! {

use vstd::string::StringExecFns;
use vstd::utf8::encode_utf8;
use crate::frames::{
    RawLevel,
    RawLevelV,
    raw_views,
    spec_raw_book,
    spec_levels_ok,
    spec_levels_decoded,
    raw_book_from_json,
    decode_book,
};
use crate::json::{spec_json_doc, spec_json_get, parse_json, JsonV, JsonValue};
use crate::types::{Summary, Symbol, WebsocketError, spec_asset_lower, spec_summary_homogeneous};

/// The book carried by a data frame: the quoted bids and asks.
#[derive(Debug, PartialEq)]
pub struct Data {
    pub bids: Vec<RawLevel>,
    pub asks: Vec<RawLevel>,
}

/// A frame of the feed: the subscribe acknowledgement, or a book update.
#[derive(Debug, PartialEq)]
pub enum WebSocketEvent {
    Succeeded,
    Data { data: Data },
}

/// The mathematical content of a frame.
#[verifier::ext_equal]
pub enum EventV {
    Succeeded,
    Book(Seq<RawLevelV>, Seq<RawLevelV>),
}

/// The event denoted by the bytes of a frame: a JSON object whose `event`
/// field names the subscribe acknowledgement or a book update under
/// `data`.
pub open spec fn spec_event_of(s: Seq<u8>) -> Option<EventV> {
    match spec_json_doc(s) {
        Some(j) => match spec_json_get(j, encode_utf8("event"@)) {
            Some(JsonV::Str(ev)) => if ev == encode_utf8("bts:subscription_succeeded"@) {
                Some(EventV::Succeeded)
            } else if ev == encode_utf8("data"@) {
                match spec_json_get(j, encode_utf8("data"@)) {
                    Some(d) => match spec_raw_book(d) {
                        Some((b, a)) => Some(EventV::Book(b, a)),
                        None => None,
                    },
                    None => None,
                }
            } else {
                None
            },
            _ => None,
        },
        None => None,
    }
}

/// Decodes the bytes of one frame; an undecodable frame yields nothing and
/// is dropped by the caller.
pub fn parse_event(data: &[u8]) -> (r: Option<WebSocketEvent>)
    requires
        data@.len() + 2 <= usize::MAX,
    ensures
        match r {
            Some(WebSocketEvent::Succeeded) => spec_event_of(data@) == Some(EventV::Succeeded),
            Some(WebSocketEvent::Data { data: d }) => spec_event_of(data@) == Some(
                EventV::Book(raw_views(d.bids@), raw_views(d.asks@)),
            ),
            None => spec_event_of(data@) is None,
        },
{
    let v = match parse_json(data) {
        Some(v) => v,
        None => {
            return None;
        },
    };
    let ev = match v.get("event".as_bytes()) {
        Some(JsonValue::Str(ev)) => ev,
        _ => {
            return None;
        },
    };
    if crate::types::eq_bytes(ev.as_slice(), "bts:subscription_succeeded".as_bytes()) {
        Some(WebSocketEvent::Succeeded)
    } else if crate::types::eq_bytes(ev.as_slice(), "data".as_bytes()) {
        let d = match v.get("data".as_bytes()) {
            Some(d) => d,
            None => {
                return None;
            },
        };
        match raw_book_from_json(d) {
            Some((bids, asks)) => Some(WebSocketEvent::Data { data: Data { bids, asks } }),
            None => None,
        }
    } else {
        None
    }
}

impl Data {
    /// Keeps only the best `depth` quoted levels of each side, as the
    /// merger's contract expects from this feed.
    pub fn truncate_to_depth(&mut self, depth: usize)
        ensures
            final(self).bids@ == if depth <= old(self).bids@.len() {
                old(self).bids@.subrange(0, depth as int)
            } else {
                old(self).bids@
            },
            final(self).asks@ == if depth <= old(self).asks@.len() {
                old(self).asks@.subrange(0, depth as int)
            } else {
                old(self).asks@
            },
    {
        self.bids.truncate(depth);
        self.asks.truncate(depth);
    }

    /// Decodes the quoted strings into a summary whose levels all carry
    /// the `bitstamp` tag.  Fails with `ParseError` exactly when a quoted
    /// value is not a representable decimal.
    pub fn try_into(self) -> (r: Result<Summary, WebsocketError>)
        ensures
            match r {
                Ok(sum) => spec_levels_ok(raw_views(self.bids@)) && spec_levels_ok(
                    raw_views(self.asks@),
                ) && spec_levels_decoded(raw_views(self.bids@), "bitstamp"@, sum.bids@)
                    && spec_levels_decoded(raw_views(self.asks@), "bitstamp"@, sum.asks@)
                    && spec_summary_homogeneous(sum),
                Err(e) => (!spec_levels_ok(raw_views(self.bids@)) || !spec_levels_ok(
                    raw_views(self.asks@),
                )) && (e matches WebsocketError::ParseError(t) && t@ == "invalid decimal level"@),
            },
    {
        decode_book(&self.bids, &self.asks, "bitstamp")
    }
}

/// The one text frame sent after connecting: it subscribes to the order
/// book channel of the symbol.
pub fn subscribe_message(symbol: &Symbol) -> (r: String)
    ensures
        r@ == "{\"event\":\"bts:subscribe\",\"data\":{\"channel\": \"order_book_"@
            + spec_asset_lower(symbol.base) + spec_asset_lower(symbol.quote) + "\"}}"@,
{
    let mut r = "{\"event\":\"bts:subscribe\",\"data\":{\"channel\": \"order_book_".to_owned();
    r.append(symbol.base.lower_code());
    r.append(symbol.quote.lower_code());
    r.append("\"}}");
    r
}

/// The lowercase concatenation of a symbol's codes, as the feed's channel
/// names use it.
pub fn symbol_to_string(symbol: &Symbol) -> (r: String)
    ensures
        r@ == spec_asset_lower(symbol.base) + spec_asset_lower(symbol.quote),
        vstd::utf8::encode_utf8(r@) == crate::types::spec_asset_code(symbol.base)
            + crate::types::spec_asset_code(symbol.quote),
{
    let mut r = symbol.base.lower_code().to_owned();
    r.append(symbol.quote.lower_code());
    proof {
        crate::types::lemma_asset_pair_code(symbol.base, symbol.quote);
    }
    r
}

} // verus!

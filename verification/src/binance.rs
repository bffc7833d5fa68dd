//! Decoding of the Binance-style depth feed: each frame is a JSON object
//! carrying the whole top of the book under `bids` and `asks`, pre-sorted
//! by the exchange, with no subscribe handshake.

use vstd::prelude::*;

verus! {

use vstd::string::StringExecFns;
use crate::frames::{
    RawLevel,
    RawLevelV,
    raw_views,
    spec_raw_book,
    spec_levels_ok,
    spec_levels_decoded,
    raw_book_from_json,
    decode_book,
};
use crate::json::{spec_json_doc, parse_json};
use crate::types::{
    Summary,
    Symbol,
    WebsocketError,
    spec_asset_lower,
    spec_asset_code,
    spec_summary_homogeneous,
    lemma_asset_code_coherent,
    lemma_ascii_bytes_valid,
    string_from_utf8,
};
use vstd::utf8::encode_utf8;

/// One depth frame: the quoted bids and asks.
#[derive(Debug, PartialEq)]
pub struct DepthSnapshot {
    pub bids: Vec<RawLevel>,
    pub asks: Vec<RawLevel>,
}

/// The raw book denoted by the bytes of a frame, if they are a JSON
/// document of the right shape.
pub open spec fn spec_depth_of(s: Seq<u8>) -> Option<(Seq<RawLevelV>, Seq<RawLevelV>)> {
    match spec_json_doc(s) {
        Some(j) => spec_raw_book(j),
        None => None,
    }
}

/// Decodes the bytes of one frame; an undecodable frame yields nothing and
/// is dropped by the caller.
pub fn parse_depth_snapshot(data: &[u8]) -> (r: Option<DepthSnapshot>)
    requires
        data@.len() + 2 <= usize::MAX,
    ensures
        match r {
            Some(d) => spec_depth_of(data@) == Some((raw_views(d.bids@), raw_views(d.asks@))),
            None => spec_depth_of(data@) is None,
        },
{
    let v = match parse_json(data) {
        Some(v) => v,
        None => {
            return None;
        },
    };
    match raw_book_from_json(&v) {
        Some((bids, asks)) => Some(DepthSnapshot { bids, asks }),
        None => None,
    }
}

impl DepthSnapshot {
    /// Decodes the quoted strings into a summary whose levels all carry
    /// the `binance` tag.  Fails with `ParseError` exactly when a quoted
    /// value is not a representable decimal.
    pub fn try_into(self) -> (r: Result<Summary, WebsocketError>)
        ensures
            match r {
                Ok(sum) => spec_levels_ok(raw_views(self.bids@)) && spec_levels_ok(
                    raw_views(self.asks@),
                ) && spec_levels_decoded(raw_views(self.bids@), "binance"@, sum.bids@)
                    && spec_levels_decoded(raw_views(self.asks@), "binance"@, sum.asks@)
                    && spec_summary_homogeneous(sum),
                Err(e) => (!spec_levels_ok(raw_views(self.bids@)) || !spec_levels_ok(
                    raw_views(self.asks@),
                )) && (e matches WebsocketError::ParseError(t) && t@ == "invalid decimal level"@),
            },
    {
        decode_book(&self.bids, &self.asks, "binance")
    }
}

/// The decimal digits of `n`, most significant first.
pub open spec fn spec_u64_digits(n: int) -> Seq<u8>
    recommends
        n >= 0,
    decreases n,
{
    if n < 10 {
        seq![('0' as u8 + n) as u8]
    } else {
        spec_u64_digits(n / 10) + seq![('0' as u8 + n % 10) as u8]
    }
}

/// Appends the decimal digits of `n`.
fn push_u64_digits(v: &mut Vec<u8>, n: u64)
    ensures
        final(v)@ == old(v)@ + spec_u64_digits(n as int),
    decreases n,
{
    if n < 10 {
        v.push('0' as u8 + n as u8);
        proof {
            assert(final(v)@ =~= old(v)@ + spec_u64_digits(n as int));
        }
    } else {
        push_u64_digits(v, n / 10);
        v.push('0' as u8 + (n % 10) as u8);
        proof {
            assert(final(v)@ =~= old(v)@ + spec_u64_digits(n as int));
        }
    }
}

/// Every digit byte is an ASCII digit.
proof fn lemma_u64_digits_ascii(n: int)
    requires
        n >= 0,
    ensures
        forall|k: int|
            0 <= k < spec_u64_digits(n).len() ==> (#[trigger] spec_u64_digits(n)[k]) <= 0x7f,
    decreases n,
{
    if n >= 10 {
        lemma_u64_digits_ascii(n / 10);
        assert(forall|k: int|
            0 <= k < spec_u64_digits(n / 10).len() ==> #[trigger] spec_u64_digits(n)[k]
                == spec_u64_digits(n / 10)[k]);
    }
}

/// Appends a byte string.
fn append_bytes(v: &mut Vec<u8>, s: &[u8])
    ensures
        final(v)@ == old(v)@ + s@,
{
    let mut i: usize = 0;
    while i < s.len()
        invariant
            i <= s@.len(),
            v@ =~= old(v)@ + s@.take(i as int),
        decreases s@.len() - i,
    {
        v.push(s[i]);
        i = i + 1;
        proof {
            assert(s@.take(i as int) =~= s@.take(i - 1).push(s@[i - 1]));
            assert(v@ =~= old(v)@ + s@.take(i as int));
        }
    }
    proof {
        assert(s@.take(s@.len() as int) =~= s@);
    }
}

/// The address of the feed's depth stream for one symbol and depth.
pub fn connect_url(symbol: &Symbol, depth: usize) -> (r: String)
    ensures
        encode_utf8(r@) == encode_utf8("wss://stream.binance.com:9443/ws/"@) + spec_asset_code(
            symbol.base,
        ) + spec_asset_code(symbol.quote) + encode_utf8("@depth"@) + spec_u64_digits(depth as int)
            + encode_utf8("@100ms"@),
{
    let mut v: Vec<u8> = Vec::new();
    append_bytes(&mut v, "wss://stream.binance.com:9443/ws/".as_bytes());
    append_bytes(&mut v, symbol.base.lower_code().as_bytes());
    append_bytes(&mut v, symbol.quote.lower_code().as_bytes());
    append_bytes(&mut v, "@depth".as_bytes());
    push_u64_digits(&mut v, depth as u64);
    append_bytes(&mut v, "@100ms".as_bytes());
    proof {
        lemma_asset_code_coherent(symbol.base);
        lemma_asset_code_coherent(symbol.quote);
        vstd::utf8::encode_utf8_valid_utf8("wss://stream.binance.com:9443/ws/"@);
        vstd::utf8::encode_utf8_valid_utf8(spec_asset_lower(symbol.base));
        vstd::utf8::encode_utf8_valid_utf8(spec_asset_lower(symbol.quote));
        vstd::utf8::encode_utf8_valid_utf8("@depth"@);
        vstd::utf8::encode_utf8_valid_utf8("@100ms"@);
        lemma_u64_digits_ascii(depth as int);
        lemma_ascii_bytes_valid(spec_u64_digits(depth as int));
        let p1 = encode_utf8("wss://stream.binance.com:9443/ws/"@);
        let p2 = spec_asset_code(symbol.base);
        let p3 = spec_asset_code(symbol.quote);
        let p4 = encode_utf8("@depth"@);
        let p5 = spec_u64_digits(depth as int);
        let p6 = encode_utf8("@100ms"@);
        vstd::utf8::valid_utf8_concat(p1, p2);
        vstd::utf8::valid_utf8_concat(p1 + p2, p3);
        vstd::utf8::valid_utf8_concat(p1 + p2 + p3, p4);
        vstd::utf8::valid_utf8_concat(p1 + p2 + p3 + p4, p5);
        vstd::utf8::valid_utf8_concat(p1 + p2 + p3 + p4 + p5, p6);
        assert(v@ =~= p1 + p2 + p3 + p4 + p5 + p6);
    }
    match string_from_utf8(v) {
        Some(r) => r,
        None => {
            proof {
                assert(false);
            }
            String::new()
        },
    }
}

/// The lowercase concatenation of a symbol's codes, as the feed's stream
/// names use it.
pub fn symbol_to_string(symbol: &Symbol) -> (r: String)
    ensures
        r@ == spec_asset_lower(symbol.base) + spec_asset_lower(symbol.quote),
        vstd::utf8::encode_utf8(r@) == crate::types::spec_asset_code(symbol.base)
            + crate::types::spec_asset_code(symbol.quote),
{
    let mut r = symbol.base.lower_code().to_owned();
    r.append(symbol.quote.lower_code());
    proof {
        crate::types::lemma_asset_pair_code(symbol.base, symbol.quote);
    }
    r
}

} // verus!

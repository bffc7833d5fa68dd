//! Domain model: recognized assets, trading symbols, book levels, summaries
//! and the spread computation.
//!
//! Prices and quantities are fixed-point values: the number of
//! hundred-millionths (1e-8) of the quoted unit, held in a `u64`.  Exchange
//! feeds quote eight decimal places, so every quoted value is representable
//! exactly.

use vstd::prelude::*;

verus! {

use vstd::utf8::encode_utf8;

/// Errors raised while turning text from the command line or from an
/// exchange feed into domain values.
#[derive(Debug)]
pub enum WebsocketError {
    /// The text is not a recognized asset code.
    InvalidAsset(String),
    /// The text is not a `base/quote` pair of recognized asset codes.
    InvalidPair(String),
    /// A numeric field of a level could not be parsed.
    ParseError(String),
}

/// The closed set of ticker codes the aggregator recognizes.
#[derive(Debug, PartialEq, Eq, Structural, Clone, Copy)]
#[allow(clippy::upper_case_acronyms)]
pub enum Asset {
    ADA,
    BTC,
    DOT,
    ETH,
    LINK,
    LTC,
    SOL,
    USD,
    USDC,
    USDT,
}

/// The lowercase code naming `a`, as UTF-8 bytes.
pub open spec fn spec_asset_code(a: Asset) -> Seq<u8> {
    match a {
        Asset::ADA => seq!['a' as u8, 'd' as u8, 'a' as u8],
        Asset::BTC => seq!['b' as u8, 't' as u8, 'c' as u8],
        Asset::DOT => seq!['d' as u8, 'o' as u8, 't' as u8],
        Asset::ETH => seq!['e' as u8, 't' as u8, 'h' as u8],
        Asset::LINK => seq!['l' as u8, 'i' as u8, 'n' as u8, 'k' as u8],
        Asset::LTC => seq!['l' as u8, 't' as u8, 'c' as u8],
        Asset::SOL => seq!['s' as u8, 'o' as u8, 'l' as u8],
        Asset::USD => seq!['u' as u8, 's' as u8, 'd' as u8],
        Asset::USDC => seq!['u' as u8, 's' as u8, 'd' as u8, 'c' as u8],
        Asset::USDT => seq!['u' as u8, 's' as u8, 'd' as u8, 't' as u8],
    }
}

/// The asset whose lowercase code is exactly `s`, if any.
pub open spec fn spec_asset_of(s: Seq<u8>) -> Option<Asset> {
    if s =~= spec_asset_code(Asset::ADA) {
        Some(Asset::ADA)
    } else if s =~= spec_asset_code(Asset::BTC) {
        Some(Asset::BTC)
    } else if s =~= spec_asset_code(Asset::DOT) {
        Some(Asset::DOT)
    } else if s =~= spec_asset_code(Asset::ETH) {
        Some(Asset::ETH)
    } else if s =~= spec_asset_code(Asset::LINK) {
        Some(Asset::LINK)
    } else if s =~= spec_asset_code(Asset::LTC) {
        Some(Asset::LTC)
    } else if s =~= spec_asset_code(Asset::SOL) {
        Some(Asset::SOL)
    } else if s =~= spec_asset_code(Asset::USD) {
        Some(Asset::USD)
    } else if s =~= spec_asset_code(Asset::USDC) {
        Some(Asset::USDC)
    } else if s =~= spec_asset_code(Asset::USDT) {
        Some(Asset::USDT)
    } else {
        None
    }
}

/// ASCII uppercase letters map to their lowercase form; every other byte is
/// unchanged.
pub open spec fn spec_lower_byte(b: u8) -> u8 {
    if 'A' as u8 <= b && b <= 'Z' as u8 {
        (b + 32) as u8
    } else {
        b
    }
}

/// Bytewise ASCII lowercasing.
pub open spec fn spec_lower_bytes(s: Seq<u8>) -> Seq<u8> {
    s.map_values(|b: u8| spec_lower_byte(b))
}

/// Index of the first occurrence of `c` in `s`, if any.
pub open spec fn spec_find_byte(s: Seq<u8>, c: u8) -> Option<int>
    decreases s.len(),
{
    if s.len() == 0 {
        None
    } else if s[0] == c {
        Some(0)
    } else {
        match spec_find_byte(s.skip(1), c) {
            Some(i) => Some(i + 1),
            None => None,
        }
    }
}

/// The symbol denoted by the UTF-8 bytes `b`: lowercase `b`, split it at the
/// first slash, and require both sides to be recognized asset codes naming
/// two distinct assets.
pub open spec fn spec_symbol_of(b: Seq<u8>) -> Option<Symbol> {
    let low = spec_lower_bytes(b);
    match spec_find_byte(low, '/' as u8) {
        None => None,
        Some(i) => match (spec_asset_of(low.take(i)), spec_asset_of(low.skip(i + 1))) {
            (Some(base), Some(quote)) => if base != quote {
                Some(Symbol { base, quote })
            } else {
                None
            },
            _ => None,
        },
    }
}

impl Asset {
    /// Parses an exact lowercase asset code.
    pub fn try_from(value: &str) -> (r: Result<Asset, WebsocketError>)
        ensures
            match r {
                Ok(a) => spec_asset_of(encode_utf8(value@)) == Some(a),
                Err(e) => spec_asset_of(encode_utf8(value@)) is None && (e matches
                    WebsocketError::InvalidAsset(t) && t@ == value@),
            },
    {
        let b = value.as_bytes();
        match asset_from_bytes(b) {
            Some(a) => Ok(a),
            None => Err(WebsocketError::InvalidAsset(value.to_owned())),
        }
    }

    /// The uppercase display code for this asset.
    pub fn to_string(&self) -> (r: String)
        ensures
            r@ == spec_asset_upper(*self),
    {
        let r = match self {
            Asset::ADA => "ADA",
            Asset::BTC => "BTC",
            Asset::DOT => "DOT",
            Asset::ETH => "ETH",
            Asset::LINK => "LINK",
            Asset::LTC => "LTC",
            Asset::SOL => "SOL",
            Asset::USD => "USD",
            Asset::USDC => "USDC",
            Asset::USDT => "USDT",
        };
        r.to_owned()
    }

    /// The lowercase code for this asset, as used in exchange channel names.
    pub fn lower_code(&self) -> (r: &'static str)
        ensures
            r@ == spec_asset_lower(*self),
    {
        match self {
            Asset::ADA => "ada",
            Asset::BTC => "btc",
            Asset::DOT => "dot",
            Asset::ETH => "eth",
            Asset::LINK => "link",
            Asset::LTC => "ltc",
            Asset::SOL => "sol",
            Asset::USD => "usd",
            Asset::USDC => "usdc",
            Asset::USDT => "usdt",
        }
    }
}

/// The uppercase display code of `a`, as characters.
pub open spec fn spec_asset_upper(a: Asset) -> Seq<char> {
    match a {
        Asset::ADA => "ADA"@,
        Asset::BTC => "BTC"@,
        Asset::DOT => "DOT"@,
        Asset::ETH => "ETH"@,
        Asset::LINK => "LINK"@,
        Asset::LTC => "LTC"@,
        Asset::SOL => "SOL"@,
        Asset::USD => "USD"@,
        Asset::USDC => "USDC"@,
        Asset::USDT => "USDT"@,
    }
}

/// The lowercase code of `a`, as characters.
pub open spec fn spec_asset_lower(a: Asset) -> Seq<char> {
    match a {
        Asset::ADA => "ada"@,
        Asset::BTC => "btc"@,
        Asset::DOT => "dot"@,
        Asset::ETH => "eth"@,
        Asset::LINK => "link"@,
        Asset::LTC => "ltc"@,
        Asset::SOL => "sol"@,
        Asset::USD => "usd"@,
        Asset::USDC => "usdc"@,
        Asset::USDT => "usdt"@,
    }
}

/// The two spellings of an asset's lowercase code agree: the code is
/// ASCII, and encoding its characters yields exactly the bytes the parser
/// recognizes.
pub proof fn lemma_asset_code_coherent(a: Asset)
    ensures
        vstd::utf8::is_ascii_chars(spec_asset_lower(a)),
        encode_utf8(spec_asset_lower(a)) == spec_asset_code(a),
{
    match a {
        Asset::ADA => {
            reveal_strlit("ada");
            assert(vstd::utf8::is_ascii_chars("ada"@));
            vstd::utf8::is_ascii_chars_encode_utf8("ada"@);
            assert(encode_utf8("ada"@) =~= spec_asset_code(a));
        },
        Asset::BTC => {
            reveal_strlit("btc");
            assert(vstd::utf8::is_ascii_chars("btc"@));
            vstd::utf8::is_ascii_chars_encode_utf8("btc"@);
            assert(encode_utf8("btc"@) =~= spec_asset_code(a));
        },
        Asset::DOT => {
            reveal_strlit("dot");
            assert(vstd::utf8::is_ascii_chars("dot"@));
            vstd::utf8::is_ascii_chars_encode_utf8("dot"@);
            assert(encode_utf8("dot"@) =~= spec_asset_code(a));
        },
        Asset::ETH => {
            reveal_strlit("eth");
            assert(vstd::utf8::is_ascii_chars("eth"@));
            vstd::utf8::is_ascii_chars_encode_utf8("eth"@);
            assert(encode_utf8("eth"@) =~= spec_asset_code(a));
        },
        Asset::LINK => {
            reveal_strlit("link");
            assert(vstd::utf8::is_ascii_chars("link"@));
            vstd::utf8::is_ascii_chars_encode_utf8("link"@);
            assert(encode_utf8("link"@) =~= spec_asset_code(a));
        },
        Asset::LTC => {
            reveal_strlit("ltc");
            assert(vstd::utf8::is_ascii_chars("ltc"@));
            vstd::utf8::is_ascii_chars_encode_utf8("ltc"@);
            assert(encode_utf8("ltc"@) =~= spec_asset_code(a));
        },
        Asset::SOL => {
            reveal_strlit("sol");
            assert(vstd::utf8::is_ascii_chars("sol"@));
            vstd::utf8::is_ascii_chars_encode_utf8("sol"@);
            assert(encode_utf8("sol"@) =~= spec_asset_code(a));
        },
        Asset::USD => {
            reveal_strlit("usd");
            assert(vstd::utf8::is_ascii_chars("usd"@));
            vstd::utf8::is_ascii_chars_encode_utf8("usd"@);
            assert(encode_utf8("usd"@) =~= spec_asset_code(a));
        },
        Asset::USDC => {
            reveal_strlit("usdc");
            assert(vstd::utf8::is_ascii_chars("usdc"@));
            vstd::utf8::is_ascii_chars_encode_utf8("usdc"@);
            assert(encode_utf8("usdc"@) =~= spec_asset_code(a));
        },
        Asset::USDT => {
            reveal_strlit("usdt");
            assert(vstd::utf8::is_ascii_chars("usdt"@));
            vstd::utf8::is_ascii_chars_encode_utf8("usdt"@);
            assert(encode_utf8("usdt"@) =~= spec_asset_code(a));
        },
    }
}

/// Encoding the concatenation of two assets' lowercase codes yields the
/// concatenation of the bytes the parser recognizes.
pub proof fn lemma_asset_pair_code(a: Asset, b: Asset)
    ensures
        encode_utf8(spec_asset_lower(a) + spec_asset_lower(b)) == spec_asset_code(a)
            + spec_asset_code(b),
{
    lemma_asset_code_coherent(a);
    lemma_asset_code_coherent(b);
    let ca = spec_asset_lower(a);
    let cb = spec_asset_lower(b);
    vstd::utf8::is_ascii_chars_encode_utf8(ca);
    vstd::utf8::is_ascii_chars_encode_utf8(cb);
    assert forall|i: int| 0 <= i < (ca + cb).len() implies '\0' <= #[trigger] (ca + cb)[i]
        <= '\u{7f}' by {
        if i < ca.len() {
            assert((ca + cb)[i] == ca[i]);
        } else {
            assert((ca + cb)[i] == cb[i - ca.len()]);
        }
    }
    assert(vstd::utf8::is_ascii_chars(ca + cb));
    vstd::utf8::is_ascii_chars_encode_utf8(ca + cb);
    assert forall|i: int| 0 <= i < (ca + cb).len() implies encode_utf8(ca + cb)[i] == (
    spec_asset_code(a) + spec_asset_code(b))[i] by {
        assert(encode_utf8(ca + cb)[i] == (ca + cb)[i] as u8);
        if i < ca.len() {
            assert((ca + cb)[i] == ca[i]);
            assert(encode_utf8(ca)[i] == ca[i] as u8);
            assert((spec_asset_code(a) + spec_asset_code(b))[i] == spec_asset_code(a)[i]);
        } else {
            assert((ca + cb)[i] == cb[i - ca.len()]);
            assert(encode_utf8(cb)[i - ca.len()] == cb[i - ca.len()] as u8);
            assert((spec_asset_code(a) + spec_asset_code(b))[i] == spec_asset_code(b)[i
                - ca.len()]);
        }
    }
    assert(encode_utf8(ca + cb) =~= spec_asset_code(a) + spec_asset_code(b));
}

/// Recognizes an exact lowercase asset code given as bytes.
pub fn asset_from_bytes(b: &[u8]) -> (r: Option<Asset>)
    ensures
        r == spec_asset_of(b@),
{
    if b.len() == 3 {
        let (x, y, z) = (b[0], b[1], b[2]);
        if x == 'a' as u8 && y == 'd' as u8 && z == 'a' as u8 {
            Some(Asset::ADA)
        } else if x == 'b' as u8 && y == 't' as u8 && z == 'c' as u8 {
            Some(Asset::BTC)
        } else if x == 'd' as u8 && y == 'o' as u8 && z == 't' as u8 {
            Some(Asset::DOT)
        } else if x == 'e' as u8 && y == 't' as u8 && z == 'h' as u8 {
            Some(Asset::ETH)
        } else if x == 'l' as u8 && y == 't' as u8 && z == 'c' as u8 {
            Some(Asset::LTC)
        } else if x == 's' as u8 && y == 'o' as u8 && z == 'l' as u8 {
            Some(Asset::SOL)
        } else if x == 'u' as u8 && y == 's' as u8 && z == 'd' as u8 {
            Some(Asset::USD)
        } else {
            None
        }
    } else if b.len() == 4 {
        let (x, y, z, w) = (b[0], b[1], b[2], b[3]);
        if x == 'l' as u8 && y == 'i' as u8 && z == 'n' as u8 && w == 'k' as u8 {
            Some(Asset::LINK)
        } else if x == 'u' as u8 && y == 's' as u8 && z == 'd' as u8 && w == 'c' as u8 {
            Some(Asset::USDC)
        } else if x == 'u' as u8 && y == 's' as u8 && z == 'd' as u8 && w == 't' as u8 {
            Some(Asset::USDT)
        } else {
            None
        }
    } else {
        None
    }
}

/// A `base/quote` trading pair.
#[derive(Debug, PartialEq, Eq, Structural, Clone, Copy)]
pub struct Symbol {
    pub base: Asset,
    pub quote: Asset,
}

impl Symbol {
    /// Parses the textual form `"<base>/<quote>"`, case-insensitively.
    /// A missing slash, an unrecognized side, or two equal sides fails
    /// with `InvalidPair` carrying the lowercased text.
    pub fn try_from(value: String) -> (r: Result<Symbol, WebsocketError>)
        ensures
            match r {
                Ok(sym) => spec_symbol_of(encode_utf8(value@)) == Some(sym),
                Err(e) => spec_symbol_of(encode_utf8(value@)) is None && (e matches
                    WebsocketError::InvalidPair(t) && encode_utf8(t@) == spec_lower_bytes(
                    encode_utf8(value@),
                )),
            },
    {
        let low = lower_bytes(value.as_str().as_bytes());
        let parsed: Option<Symbol> = match find_byte(low.as_slice(), '/' as u8) {
            None => None,
            Some(i) => {
                let s = low.as_slice();
                let n = s.len();
                proof {
                    assert(i < n);
                    assert(s@.subrange(0, i as int) =~= s@.take(i as int));
                    assert(s@.subrange(i + 1, s@.len() as int) =~= s@.skip(i + 1));
                }
                let left = asset_from_bytes(slice_range(s, 0, i));
                let right = asset_from_bytes(slice_range(s, i + 1, n));
                match (left, right) {
                    (Some(base), Some(quote)) => if !(base == quote) {
                        Some(Symbol { base, quote })
                    } else {
                        None
                    },
                    _ => None,
                }
            },
        };
        match parsed {
            Some(sym) => Ok(sym),
            None => {
                proof {
                    vstd::utf8::encode_utf8_valid_utf8(value@);
                    lemma_lower_bytes_valid(encode_utf8(value@));
                }
                match string_from_utf8(low) {
                    Some(t) => Err(WebsocketError::InvalidPair(t)),
                    None => {
                        proof {
                            assert(false);
                        }
                        Err(WebsocketError::InvalidPair(String::new()))
                    },
                }
            },
        }
    }
}

/// Relies on `String::from_utf8`: a byte vector holding valid UTF-8
/// becomes the string with exactly those bytes; any other vector is
/// refused.
#[verifier::external_body]
pub(crate) fn string_from_utf8(v: Vec<u8>) -> (r: Option<String>)
    ensures
        match r {
            Some(s) => encode_utf8(s@) == v@,
            None => !vstd::utf8::valid_utf8(v@),
        },
{
    match String::from_utf8(v) {
        Ok(s) => Some(s),
        Err(_) => None,
    }
}

/// Lowercasing commutes with taking a subrange of the bytes.
proof fn lemma_lower_bytes_subrange(b: Seq<u8>, i: int, j: int)
    requires
        0 <= i <= j <= b.len(),
    ensures
        spec_lower_bytes(b).subrange(i, j) == spec_lower_bytes(b.subrange(i, j)),
{
    assert(spec_lower_bytes(b).subrange(i, j) =~= spec_lower_bytes(b.subrange(i, j)));
}

/// ASCII lowercasing keeps a byte sequence valid UTF-8: it maps bytes
/// below 0x80 to bytes below 0x80 and leaves all others unchanged, so
/// every scalar encoding stays one.
pub proof fn lemma_lower_bytes_valid(b: Seq<u8>)
    requires
        vstd::utf8::valid_utf8(b),
    ensures
        vstd::utf8::valid_utf8(spec_lower_bytes(b)),
    decreases b.len(),
{
    let low = spec_lower_bytes(b);
    if b.len() > 0 {
        let len = vstd::utf8::length_of_first_scalar(b);
        assert(vstd::utf8::valid_first_scalar(b));
        if vstd::utf8::is_leading_byte_width_1(b[0]) {
            assert(low[0] == spec_lower_byte(b[0]));
            assert(vstd::utf8::is_leading_byte_width_1(low[0]));
            let x = low[0];
            assert((x & 0x7f) <= 0x7f) by (bit_vector);
            assert(vstd::utf8::valid_first_scalar(low));
            assert(vstd::utf8::length_of_first_scalar(low) == 1);
        } else {
            assert(low[0] == b[0]);
            if vstd::utf8::is_leading_byte_width_2(b[0]) {
                assert(low[1] == b[1]);
            } else if vstd::utf8::is_leading_byte_width_3(b[0]) {
                assert(low[1] == b[1]);
                assert(low[2] == b[2]);
            } else {
                assert(low[1] == b[1]);
                assert(low[2] == b[2]);
                assert(low[3] == b[3]);
            }
            assert(vstd::utf8::valid_first_scalar(low));
            assert(vstd::utf8::length_of_first_scalar(low) == len);
        }
        assert(vstd::utf8::pop_first_scalar(low) =~= spec_lower_bytes(
            vstd::utf8::pop_first_scalar(b),
        )) by {
            lemma_lower_bytes_subrange(b, len, b.len() as int);
        }
        assert(vstd::utf8::pop_first_scalar(b).len() < b.len());
        lemma_lower_bytes_valid(vstd::utf8::pop_first_scalar(b));
    }
}

/// A byte sequence of ASCII bytes is valid UTF-8: each byte is its own
/// one-byte scalar encoding.
pub proof fn lemma_ascii_bytes_valid(b: Seq<u8>)
    requires
        forall|k: int| 0 <= k < b.len() ==> b[k] <= 0x7f,
    ensures
        vstd::utf8::valid_utf8(b),
    decreases b.len(),
{
    if b.len() > 0 {
        let x = b[0];
        assert((x & 0x7f) <= 0x7f) by (bit_vector);
        assert(vstd::utf8::valid_first_scalar(b));
        assert(vstd::utf8::length_of_first_scalar(b) == 1);
        assert(forall|k: int|
            0 <= k < vstd::utf8::pop_first_scalar(b).len()
                ==> #[trigger] vstd::utf8::pop_first_scalar(b)[k] == b[k + 1]);
        lemma_ascii_bytes_valid(vstd::utf8::pop_first_scalar(b));
    }
}

/// ASCII-lowercases every byte of `b`.
pub fn lower_bytes(b: &[u8]) -> (r: Vec<u8>)
    ensures
        r@ == spec_lower_bytes(b@),
{
    let mut r: Vec<u8> = Vec::new();
    let mut i: usize = 0;
    while i < b.len()
        invariant
            i <= b@.len(),
            r@ =~= spec_lower_bytes(b@.take(i as int)),
        decreases b@.len() - i,
    {
        let c = b[i];
        if 'A' as u8 <= c && c <= 'Z' as u8 {
            r.push(c + 32);
        } else {
            r.push(c);
        }
        i = i + 1;
        proof {
            assert(b@.take(i as int) =~= b@.take(i - 1).push(b@[i - 1]));
            assert(r@ =~= spec_lower_bytes(b@.take(i as int)));
        }
    }
    proof {
        assert(b@.take(b@.len() as int) =~= b@);
    }
    r
}

/// Index of the first occurrence of `c` in `s`, if any.
pub fn find_byte(s: &[u8], c: u8) -> (r: Option<usize>)
    ensures
        match r {
            Some(i) => i < s@.len() && s@[i as int] == c && spec_find_byte(s@, c) == Some(
                i as int,
            ),
            None => spec_find_byte(s@, c) is None,
        },
{
    let mut i: usize = 0;
    while i < s.len()
        invariant
            i <= s@.len(),
            forall|j: int| 0 <= j < i ==> s@[j] != c,
        decreases s@.len() - i,
    {
        if s[i] == c {
            proof {
                lemma_find_byte_first(s@, c, i as int);
            }
            return Some(i);
        }
        i = i + 1;
    }
    proof {
        lemma_find_byte_none(s@, c);
    }
    None
}

/// If `s[i] == c` and no earlier byte equals `c`, the first occurrence is `i`.
proof fn lemma_find_byte_first(s: Seq<u8>, c: u8, i: int)
    requires
        0 <= i < s.len(),
        s[i] == c,
        forall|j: int| 0 <= j < i ==> s[j] != c,
    ensures
        spec_find_byte(s, c) == Some(i),
    decreases i,
{
    if i == 0 {
    } else {
        lemma_find_byte_first(s.skip(1), c, i - 1);
    }
}

/// If no byte of `s` equals `c`, there is no first occurrence.
proof fn lemma_find_byte_none(s: Seq<u8>, c: u8)
    requires
        forall|j: int| 0 <= j < s.len() ==> s[j] != c,
    ensures
        spec_find_byte(s, c) is None,
    decreases s.len(),
{
    if s.len() == 0 {
    } else {
        lemma_find_byte_none(s.skip(1), c);
    }
}

/// Compares two byte strings.
pub fn eq_bytes(a: &[u8], b: &[u8]) -> (r: bool)
    ensures
        r == (a@ == b@),
{
    if a.len() != b.len() {
        return false;
    }
    let mut i: usize = 0;
    while i < a.len()
        invariant
            i <= a@.len(),
            a@.len() == b@.len(),
            forall|j: int| 0 <= j < i ==> a@[j] == b@[j],
        decreases a@.len() - i,
    {
        if a[i] != b[i] {
            return false;
        }
        i = i + 1;
    }
    proof {
        assert(a@ =~= b@);
    }
    true
}

/// Borrows `s[from..to]`.
pub fn slice_range(s: &[u8], from: usize, to: usize) -> (r: &[u8])
    requires
        from <= to <= s@.len(),
    ensures
        r@ == s@.subrange(from as int, to as int),
{
    &s[from..to]
}

/// A single price/quantity offer attributed to one exchange.  Prices and
/// quantities are fixed-point values (see `decimal`).
#[derive(Debug, PartialEq)]
pub struct Level {
    pub exchange: String,
    pub price: u64,
    pub quantity: u64,
}

impl Clone for Level {
    /// Cloning keeps every field.
    fn clone(&self) -> (res: Self)
        ensures
            res == *self,
    {
        Level { exchange: self.exchange.clone(), price: self.price, quantity: self.quantity }
    }
}

/// Which side of the book a sequence of levels belongs to.
#[derive(Debug, PartialEq, Eq, Structural, Clone, Copy)]
pub enum Side {
    Bid,
    Ask,
}

/// Whether price `a` is at least as good as price `b` on `side`: bids favour
/// high prices, asks low ones.
pub open spec fn spec_price_le(side: Side, a: u64, b: u64) -> bool {
    match side {
        Side::Bid => a >= b,
        Side::Ask => a <= b,
    }
}

/// Whether price `a` is strictly better than price `b` on `side`.
pub open spec fn spec_price_before(side: Side, a: u64, b: u64) -> bool {
    match side {
        Side::Bid => a > b,
        Side::Ask => a < b,
    }
}

/// The levels are ordered best price first: non-increasing prices for bids,
/// non-decreasing prices for asks.
pub open spec fn spec_side_sorted(s: Seq<Level>, side: Side) -> bool {
    forall|i: int, j: int|
        0 <= i <= j < s.len() ==> spec_price_le(
            side,
            (#[trigger] s[i]).price,
            (#[trigger] s[j]).price,
        )
}

/// All levels of `s` carry the exchange tag `ex`.
pub open spec fn spec_all_from(s: Seq<Level>, ex: Seq<char>) -> bool {
    forall|k: int| 0 <= k < s.len() ==> (#[trigger] s[k]).exchange@ == ex
}

/// No level of `s` carries the exchange tag `ex`.
pub open spec fn spec_none_from(s: Seq<Level>, ex: Seq<char>) -> bool {
    forall|k: int| 0 <= k < s.len() ==> (#[trigger] s[k]).exchange@ != ex
}

/// A snapshot of bids and asks, best first on each side.
#[derive(Debug, PartialEq)]
pub struct Summary {
    pub bids: Vec<Level>,
    pub asks: Vec<Level>,
}

/// Both sides of `s` are ordered best price first.
pub open spec fn spec_summary_wf(s: Summary) -> bool {
    spec_side_sorted(s.bids@, Side::Bid) && spec_side_sorted(s.asks@, Side::Ask)
}

/// Whether `s` carries no levels at all.
pub open spec fn spec_summary_empty(s: Summary) -> bool {
    s.bids@.len() == 0 && s.asks@.len() == 0
}

/// The exchange an update came from: the tag of its first ask, else of its
/// first bid, else the empty tag.
pub open spec fn spec_source(s: Summary) -> Seq<char> {
    if s.asks@.len() > 0 {
        s.asks@[0].exchange@
    } else if s.bids@.len() > 0 {
        s.bids@[0].exchange@
    } else {
        Seq::empty()
    }
}

/// Every level of `s` carries the tag of its source exchange.
pub open spec fn spec_summary_homogeneous(s: Summary) -> bool {
    spec_all_from(s.bids@, spec_source(s)) && spec_all_from(s.asks@, spec_source(s))
}

/// The spread denoted by `s`: best ask price minus best bid price, absent
/// when either side is empty.
pub open spec fn spec_spread(s: Summary) -> Option<int> {
    if s.bids@.len() > 0 && s.asks@.len() > 0 {
        Some(s.asks@[0].price - s.bids@[0].price)
    } else {
        None
    }
}

impl Summary {
    /// Best ask price minus best bid price; `None` (the wire's NaN) exactly
    /// when either side is empty.
    pub fn spread(&self) -> (r: Option<i128>)
        ensures
            match r {
                Some(v) => spec_spread(*self) == Some(v as int),
                None => spec_spread(*self) is None,
            },
    {
        if self.asks.len() == 0 || self.bids.len() == 0 {
            None
        } else {
            Some(self.asks[0].price as i128 - self.bids[0].price as i128)
        }
    }

    /// Whether both sides are ordered best price first.
    pub fn is_well_formed(&self) -> (r: bool)
        ensures
            r == spec_summary_wf(*self),
    {
        side_is_sorted(&self.bids, Side::Bid) && side_is_sorted(&self.asks, Side::Ask)
    }

    /// Whether every level carries the tag of the source exchange.
    pub fn is_homogeneous(&self) -> (r: bool)
        ensures
            r == spec_summary_homogeneous(*self),
    {
        let ex: &String = if self.asks.len() > 0 {
            &self.asks[0].exchange
        } else if self.bids.len() > 0 {
            &self.bids[0].exchange
        } else {
            return true;
        };
        all_from(&self.bids, ex) && all_from(&self.asks, ex)
    }

    /// The wire projection: quantities renamed to amounts, the spread
    /// computed once.
    pub fn to_wire(&self) -> (r: WireSummary)
        ensures
            r.bids@ == self.bids@.map_values(|l: Level| spec_wire_level(l)),
            r.asks@ == self.asks@.map_values(|l: Level| spec_wire_level(l)),
            match r.spread {
                Some(v) => spec_spread(*self) == Some(v as int),
                None => spec_spread(*self) is None,
            },
    {
        WireSummary {
            spread: self.spread(),
            bids: wire_levels(&self.bids),
            asks: wire_levels(&self.asks),
        }
    }
}

impl Clone for Summary {
    /// Cloning keeps both sides.
    fn clone(&self) -> (res: Self)
        ensures
            res.bids@ == self.bids@,
            res.asks@ == self.asks@,
    {
        Summary { bids: clone_levels(&self.bids), asks: clone_levels(&self.asks) }
    }
}

/// Copies a sequence of levels.
pub fn clone_levels(v: &Vec<Level>) -> (r: Vec<Level>)
    ensures
        r@ == v@,
{
    let mut r: Vec<Level> = Vec::new();
    let mut i: usize = 0;
    while i < v.len()
        invariant
            i <= v@.len(),
            r@ =~= v@.take(i as int),
        decreases v@.len() - i,
    {
        r.push(v[i].clone());
        i = i + 1;
        proof {
            assert(v@.take(i as int) =~= v@.take(i - 1).push(v@[i - 1]));
        }
    }
    proof {
        assert(v@.take(v@.len() as int) =~= v@);
    }
    r
}

/// Whether the levels are ordered best price first for `side`.
pub fn side_is_sorted(v: &Vec<Level>, side: Side) -> (r: bool)
    ensures
        r == spec_side_sorted(v@, side),
{
    let mut i: usize = 1;
    while i < v.len()
        invariant
            1 <= i,
            forall|p: int, q: int|
                0 <= p <= q < i && q < v@.len() ==> spec_price_le(
                    side,
                    (#[trigger] v@[p]).price,
                    (#[trigger] v@[q]).price,
                ),
        decreases v@.len() - i,
    {
        let ok = match side {
            Side::Bid => v[i - 1].price >= v[i].price,
            Side::Ask => v[i - 1].price <= v[i].price,
        };
        if !ok {
            proof {
                assert(!spec_price_le(side, v@[i - 1].price, v@[i as int].price));
            }
            return false;
        }
        proof {
            assert forall|p: int, q: int|
                0 <= p <= q < i + 1 && q < v@.len() implies spec_price_le(
                side,
                (#[trigger] v@[p]).price,
                (#[trigger] v@[q]).price,
            ) by {
                if q == i {
                    if p < i {
                        assert(spec_price_le(side, v@[p].price, v@[i - 1].price));
                    }
                }
            }
        }
        i = i + 1;
    }
    true
}

/// Whether every level carries the exchange tag `ex`.
pub fn all_from(v: &Vec<Level>, ex: &String) -> (r: bool)
    ensures
        r == spec_all_from(v@, ex@),
{
    let mut i: usize = 0;
    while i < v.len()
        invariant
            i <= v@.len(),
            forall|k: int| 0 <= k < i ==> (#[trigger] v@[k]).exchange@ == ex@,
        decreases v@.len() - i,
    {
        if !(v[i].exchange == *ex) {
            return false;
        }
        i = i + 1;
    }
    true
}

/// A level as published on the wire: the quantity field renamed to amount.
#[derive(Debug, PartialEq)]
pub struct WireLevel {
    pub exchange: String,
    pub price: u64,
    pub amount: u64,
}

impl Clone for WireLevel {
    /// Cloning keeps every field.
    fn clone(&self) -> (res: Self)
        ensures
            res == *self,
    {
        WireLevel { exchange: self.exchange.clone(), price: self.price, amount: self.amount }
    }
}

/// The wire form of `l`.
pub open spec fn spec_wire_level(l: Level) -> WireLevel {
    WireLevel { exchange: l.exchange, price: l.price, amount: l.quantity }
}

impl Level {
    /// The wire projection of one level: the quantity renamed to amount.
    pub fn to_wire(&self) -> (r: WireLevel)
        ensures
            r == spec_wire_level(*self),
    {
        WireLevel { exchange: self.exchange.clone(), price: self.price, amount: self.quantity }
    }
}

/// A summary as published on the wire: a precomputed spread (absent for NaN)
/// and both sides as wire levels.
#[derive(Debug, PartialEq)]
pub struct WireSummary {
    pub spread: Option<i128>,
    pub bids: Vec<WireLevel>,
    pub asks: Vec<WireLevel>,
}

impl Clone for WireSummary {
    /// Cloning keeps the spread and both sides.
    fn clone(&self) -> (res: Self)
        ensures
            res.spread == self.spread,
            res.bids@ == self.bids@,
            res.asks@ == self.asks@,
    {
        WireSummary {
            spread: self.spread,
            bids: clone_wire_levels(&self.bids),
            asks: clone_wire_levels(&self.asks),
        }
    }
}

/// The mathematical content of a wire summary: its spread and the two
/// sides as sequences.
#[verifier::ext_equal]
pub struct WireSummaryV {
    pub spread: Option<i128>,
    pub bids: Seq<WireLevel>,
    pub asks: Seq<WireLevel>,
}

impl View for WireSummary {
    type V = WireSummaryV;

    open spec fn view(&self) -> WireSummaryV {
        WireSummaryV { spread: self.spread, bids: self.bids@, asks: self.asks@ }
    }
}

/// Copies a sequence of wire levels.
pub fn clone_wire_levels(v: &Vec<WireLevel>) -> (r: Vec<WireLevel>)
    ensures
        r@ == v@,
{
    let mut r: Vec<WireLevel> = Vec::new();
    let mut i: usize = 0;
    while i < v.len()
        invariant
            i <= v@.len(),
            r@ =~= v@.take(i as int),
        decreases v@.len() - i,
    {
        r.push(v[i].clone());
        i = i + 1;
        proof {
            assert(v@.take(i as int) =~= v@.take(i - 1).push(v@[i - 1]));
        }
    }
    proof {
        assert(v@.take(v@.len() as int) =~= v@);
    }
    r
}

/// Projects every level to its wire form.
pub fn wire_levels(v: &Vec<Level>) -> (r: Vec<WireLevel>)
    ensures
        r@ == v@.map_values(|l: Level| spec_wire_level(l)),
{
    let mut r: Vec<WireLevel> = Vec::new();
    let mut i: usize = 0;
    while i < v.len()
        invariant
            i <= v@.len(),
            r@ =~= v@.take(i as int).map_values(|l: Level| spec_wire_level(l)),
        decreases v@.len() - i,
    {
        r.push(v[i].to_wire());
        i = i + 1;
        proof {
            assert(v@.take(i as int) =~= v@.take(i - 1).push(v@[i - 1]));
            assert(r@ =~= v@.take(i as int).map_values(|l: Level| spec_wire_level(l)));
        }
    }
    proof {
        assert(v@.take(v@.len() as int) =~= v@);
    }
    r
}

} // verus!

//! A small JSON reader for the frames the exchange feeds push.
//!
//! The accepted grammar is JSON with objects, arrays, strings, numbers,
//! booleans and null.  Strings admit the one-character escapes and
//! `\uXXXX`, with surrogate pairs for scalars beyond the basic plane; any
//! other escape fails the frame.  Numbers are read over lexically and carry
//! no value: the feeds quote prices as strings, and a frame's other numeric
//! fields are skipped.  Object members are kept in order and a key is looked
//! up by its first occurrence.

use vstd::prelude::*;

verus! {

/// The mathematical content of a JSON value.
#[verifier::ext_equal]
pub enum JsonV {
    Null,
    Bool(bool),
    Num,
    Str(Seq<u8>),
    Arr(Seq<JsonV>),
    Obj(Seq<(Seq<u8>, JsonV)>),
}

/// A JSON value as parsed: strings are byte strings, numbers carry no
/// value, object members are kept in order.
pub enum JsonValue {
    Null,
    Bool(bool),
    Num,
    Str(Vec<u8>),
    Arr(Vec<JsonValue>),
    Obj(Vec<(Vec<u8>, JsonValue)>),
}

impl View for JsonValue {
    type V = JsonV;

    open spec fn view(&self) -> JsonV
        decreases self,
    {
        match self {
            JsonValue::Null => JsonV::Null,
            JsonValue::Bool(b) => JsonV::Bool(*b),
            JsonValue::Num => JsonV::Num,
            JsonValue::Str(v) => JsonV::Str(v@),
            JsonValue::Arr(v) => JsonV::Arr(spec_views(v@)),
            JsonValue::Obj(v) => JsonV::Obj(spec_member_views(v@)),
        }
    }
}

/// The views of a sequence of JSON values.
pub open spec fn spec_views(v: Seq<JsonValue>) -> Seq<JsonV>
    decreases v,
{
    if v.len() == 0 {
        Seq::empty()
    } else {
        seq![v[0]@] + spec_views(v.skip(1))
    }
}

/// The views of a sequence of object members.
pub open spec fn spec_member_views(v: Seq<(Vec<u8>, JsonValue)>) -> Seq<(Seq<u8>, JsonV)>
    decreases v,
{
    if v.len() == 0 {
        Seq::empty()
    } else {
        seq![(v[0].0@, v[0].1@)] + spec_member_views(v.skip(1))
    }
}

/// The length of a sequence of views equals the length of the values, and
/// each view is the corresponding value's view.
pub proof fn lemma_views_index(v: Seq<JsonValue>)
    ensures
        spec_views(v).len() == v.len(),
        forall|i: int| 0 <= i < v.len() ==> spec_views(v)[i] == v[i]@,
    decreases v.len(),
{
    if v.len() > 0 {
        lemma_views_index(v.skip(1));
        assert(spec_views(v) == seq![v[0]@] + spec_views(v.skip(1)));
        assert(forall|k: int| 0 <= k < v.skip(1).len() ==> #[trigger] v.skip(1)[k] == v[k + 1]);
        assert forall|i: int| 0 <= i < v.len() implies spec_views(v)[i] == v[i]@ by {
            if i > 0 {
                assert(spec_views(v)[i] == spec_views(v.skip(1))[i - 1]);
            }
        }
    }
}

/// The length of a sequence of member views equals the length of the
/// members, and each view is the corresponding member's view.
pub proof fn lemma_member_views_index(v: Seq<(Vec<u8>, JsonValue)>)
    ensures
        spec_member_views(v).len() == v.len(),
        forall|i: int|
            0 <= i < v.len() ==> spec_member_views(v)[i] == (v[i].0@, v[i].1@),
    decreases v.len(),
{
    if v.len() > 0 {
        lemma_member_views_index(v.skip(1));
        assert(spec_member_views(v) == seq![(v[0].0@, v[0].1@)] + spec_member_views(v.skip(1)));
        assert(forall|k: int| 0 <= k < v.skip(1).len() ==> #[trigger] v.skip(1)[k] == v[k + 1]);
        assert forall|i: int| 0 <= i < v.len() implies spec_member_views(v)[i] == (
        v[i].0@,
        v[i].1@,
        ) by {
            if i > 0 {
                assert(spec_member_views(v)[i] == spec_member_views(v.skip(1))[i - 1]);
            }
        }
    }
}

/// The value under the first member named `key`, if any.
pub open spec fn spec_obj_get(m: Seq<(Seq<u8>, JsonV)>, key: Seq<u8>) -> Option<JsonV>
    decreases m.len(),
{
    if m.len() == 0 {
        None
    } else if m[0].0 == key {
        Some(m[0].1)
    } else {
        spec_obj_get(m.skip(1), key)
    }
}

/// The value under `key` when `v` is an object holding that key.
pub open spec fn spec_json_get(v: JsonV, key: Seq<u8>) -> Option<JsonV> {
    match v {
        JsonV::Obj(m) => spec_obj_get(m, key),
        _ => None,
    }
}

impl JsonValue {
    /// Looks up the first member named `key` of an object.
    pub fn get<'a>(&'a self, key: &[u8]) -> (r: Option<&'a JsonValue>)
        ensures
            match r {
                Some(x) => spec_json_get(self@, key@) == Some(x@),
                None => spec_json_get(self@, key@) is None,
            },
    {
        match self {
            JsonValue::Obj(m) => {
                proof {
                    assert(self@ == JsonV::Obj(spec_member_views(m@)));
                    lemma_member_views_index(m@);
                }
                let ghost mv = spec_member_views(m@);
                proof {
                    assert(mv.skip(0) =~= mv);
                }
                let mut i: usize = 0;
                while i < m.len()
                    invariant
                        i <= m@.len(),
                        self@ == JsonV::Obj(mv),
                        mv == spec_member_views(m@),
                        mv.len() == m@.len(),
                        forall|k: int| 0 <= k < m@.len() ==> mv[k] == (m@[k].0@, m@[k].1@),
                        spec_obj_get(mv, key@) == spec_obj_get(mv.skip(i as int), key@),
                    decreases m@.len() - i,
                {
                    proof {
                        assert(mv.skip(i as int)[0] == mv[i as int]);
                        assert(mv.skip(i as int).skip(1) =~= mv.skip(i + 1));
                    }
                    if crate::types::eq_bytes(m[i].0.as_slice(), key) {
                        proof {
                            assert(self@ == JsonV::Obj(mv));
                            assert(mv[i as int].0 == key@);
                            assert(spec_obj_get(mv.skip(i as int), key@) == Some(mv[i as int].1));
                            assert(mv[i as int].1 == m@[i as int].1@);
                        }
                        return Some(&m[i].1);
                    }
                    i = i + 1;
                }
                proof {
                    assert(mv.skip(m@.len() as int) =~= Seq::<(Seq<u8>, JsonV)>::empty());
                }
                None
            },
            _ => None,
        }
    }
}

/// Whether `b` is JSON whitespace.
pub open spec fn spec_is_ws(b: u8) -> bool {
    b == ' ' as u8 || b == '\t' as u8 || b == '\n' as u8 || b == '\r' as u8
}

/// The first position at or after `i` holding no whitespace.
pub open spec fn spec_skip_ws(s: Seq<u8>, i: int) -> int
    decreases s.len() - i,
{
    if 0 <= i < s.len() && spec_is_ws(s[i]) {
        spec_skip_ws(s, i + 1)
    } else {
        i
    }
}

/// Skips whitespace.
pub fn skip_ws(s: &[u8], i: usize) -> (r: usize)
    requires
        i <= s@.len(),
    ensures
        r == spec_skip_ws(s@, i as int),
        i <= r <= s@.len(),
{
    let mut cur = i;
    while cur < s.len() && (s[cur] == ' ' as u8 || s[cur] == '\t' as u8 || s[cur] == '\n' as u8
        || s[cur] == '\r' as u8)
        invariant
            i <= cur <= s@.len(),
            spec_skip_ws(s@, i as int) == spec_skip_ws(s@, cur as int),
        decreases s@.len() - cur,
    {
        cur = cur + 1;
    }
    cur
}

/// The first position at or after `i` holding no decimal digit.
pub open spec fn spec_skip_digits(s: Seq<u8>, i: int) -> int
    decreases s.len() - i,
{
    if 0 <= i < s.len() && crate::decimal::spec_is_digit(s[i]) {
        spec_skip_digits(s, i + 1)
    } else {
        i
    }
}

/// Skips decimal digits.
fn skip_digits(s: &[u8], i: usize) -> (r: usize)
    requires
        i <= s@.len(),
    ensures
        r == spec_skip_digits(s@, i as int),
        i <= r <= s@.len(),
{
    let mut cur = i;
    while cur < s.len() && '0' as u8 <= s[cur] && s[cur] <= '9' as u8
        invariant
            i <= cur <= s@.len(),
            spec_skip_digits(s@, i as int) == spec_skip_digits(s@, cur as int),
        decreases s@.len() - cur,
    {
        cur = cur + 1;
    }
    cur
}

/// The value of an ASCII hexadecimal digit.
pub open spec fn spec_hex_val(b: u8) -> Option<int> {
    if '0' as u8 <= b && b <= '9' as u8 {
        Some((b - '0' as u8) as int)
    } else if 'a' as u8 <= b && b <= 'f' as u8 {
        Some((b - 'a' as u8 + 10) as int)
    } else if 'A' as u8 <= b && b <= 'F' as u8 {
        Some((b - 'A' as u8 + 10) as int)
    } else {
        None
    }
}

/// The value of the four hexadecimal digits starting at `i`.
pub open spec fn spec_hex4(s: Seq<u8>, i: int) -> Option<int> {
    if 0 <= i && i + 4 <= s.len() {
        match (spec_hex_val(s[i]), spec_hex_val(s[i + 1]), spec_hex_val(s[i + 2]), spec_hex_val(
            s[i + 3],
        )) {
            (Some(a), Some(b), Some(c), Some(d)) => Some(a * 4096 + b * 256 + c * 16 + d),
            _ => None,
        }
    } else {
        None
    }
}

/// The UTF-8 encoding of the scalar value `c`.
pub open spec fn spec_encode_scalar(c: int) -> Seq<u8> {
    if c < 0x80 {
        seq![c as u8]
    } else if c < 0x800 {
        seq![(0xC0 + c / 64) as u8, (0x80 + c % 64) as u8]
    } else if c < 0x10000 {
        seq![(0xE0 + c / 4096) as u8, (0x80 + (c / 64) % 64) as u8, (0x80 + c % 64) as u8]
    } else {
        seq![
            (0xF0 + c / 262144) as u8,
            (0x80 + (c / 4096) % 64) as u8,
            (0x80 + (c / 64) % 64) as u8,
            (0x80 + c % 64) as u8,
        ]
    }
}

/// The byte a one-character escape denotes, if the character names one.
pub open spec fn spec_simple_escape(b: u8) -> Option<u8> {
    if b == '"' as u8 {
        Some('"' as u8)
    } else if b == '\\' as u8 {
        Some('\\' as u8)
    } else if b == '/' as u8 {
        Some('/' as u8)
    } else if b == 'n' as u8 {
        Some('\n' as u8)
    } else if b == 't' as u8 {
        Some('\t' as u8)
    } else if b == 'r' as u8 {
        Some('\r' as u8)
    } else if b == 'b' as u8 {
        Some(0x08u8)
    } else if b == 'f' as u8 {
        Some(0x0Cu8)
    } else {
        None
    }
}

/// The content and end position of a string whose opening quote stands just
/// before `i`.  The one-character escapes and `\uXXXX` (with a surrogate
/// pair for scalars beyond the basic plane) denote the escaped content; any
/// other escape or a missing closing quote fails.
pub open spec fn spec_json_string(s: Seq<u8>, i: int) -> Option<(Seq<u8>, int)>
    decreases s.len() - i,
{
    if i < 0 || i >= s.len() {
        None
    } else if s[i] == '"' as u8 {
        Some((Seq::empty(), i + 1))
    } else if s[i] == '\\' as u8 {
        if i + 1 >= s.len() {
            None
        } else if s[i + 1] == 'u' as u8 {
            match spec_hex4(s, i + 2) {
                Some(h) => if 0xD800 <= h < 0xDC00 {
                    if i + 8 <= s.len() && s[i + 6] == '\\' as u8 && s[i + 7] == 'u' as u8 {
                        match spec_hex4(s, i + 8) {
                            Some(lo) => if 0xDC00 <= lo < 0xE000 {
                                match spec_json_string(s, i + 12) {
                                    Some((c, e)) => Some(
                                        (
                                            spec_encode_scalar(
                                                0x10000 + (h - 0xD800) * 1024 + (lo - 0xDC00),
                                            ) + c,
                                            e,
                                        ),
                                    ),
                                    None => None,
                                }
                            } else {
                                None
                            },
                            None => None,
                        }
                    } else {
                        None
                    }
                } else if 0xDC00 <= h < 0xE000 {
                    None
                } else {
                    match spec_json_string(s, i + 6) {
                        Some((c, e)) => Some((spec_encode_scalar(h) + c, e)),
                        None => None,
                    }
                },
                None => None,
            }
        } else {
            match spec_simple_escape(s[i + 1]) {
                Some(b) => match spec_json_string(s, i + 2) {
                    Some((c, e)) => Some((seq![b] + c, e)),
                    None => None,
                },
                None => None,
            }
        }
    } else {
        match spec_json_string(s, i + 1) {
            Some((c, e)) => Some((seq![s[i]] + c, e)),
            None => None,
        }
    }
}

/// Reads one ASCII hexadecimal digit.
fn hex_val(b: u8) -> (r: Option<u8>)
    ensures
        match r {
            Some(v) => spec_hex_val(b) == Some(v as int) && v < 16,
            None => spec_hex_val(b) is None,
        },
{
    if '0' as u8 <= b && b <= '9' as u8 {
        Some(b - '0' as u8)
    } else if 'a' as u8 <= b && b <= 'f' as u8 {
        Some(b - 'a' as u8 + 10)
    } else if 'A' as u8 <= b && b <= 'F' as u8 {
        Some(b - 'A' as u8 + 10)
    } else {
        None
    }
}

/// Reads four hexadecimal digits starting at `i`.
fn hex4(s: &[u8], i: usize) -> (r: Option<u32>)
    requires
        i <= s@.len(),
    ensures
        match r {
            Some(v) => spec_hex4(s@, i as int) == Some(v as int) && v < 0x10000,
            None => spec_hex4(s@, i as int) is None,
        },
{
    if s.len() - i < 4 {
        return None;
    }
    let (a, b, c, d) = (hex_val(s[i]), hex_val(s[i + 1]), hex_val(s[i + 2]), hex_val(s[i + 3]));
    match (a, b, c, d) {
        (Some(a), Some(b), Some(c), Some(d)) => Some(
            (a as u32) * 4096 + (b as u32) * 256 + (c as u32) * 16 + (d as u32),
        ),
        _ => None,
    }
}

/// Appends the UTF-8 encoding of the scalar value `c`.
fn push_scalar(acc: &mut Vec<u8>, c: u32)
    ensures
        final(acc)@ == old(acc)@ + spec_encode_scalar(c as int),
{
    if c < 0x80 {
        acc.push(c as u8);
        proof {
            assert(final(acc)@ =~= old(acc)@ + spec_encode_scalar(c as int));
        }
    } else if c < 0x800 {
        acc.push((0xC0 + c / 64) as u8);
        acc.push((0x80 + c % 64) as u8);
        proof {
            assert(final(acc)@ =~= old(acc)@ + spec_encode_scalar(c as int));
        }
    } else if c < 0x10000 {
        acc.push((0xE0 + c / 4096) as u8);
        acc.push((0x80 + (c / 64) % 64) as u8);
        acc.push((0x80 + c % 64) as u8);
        proof {
            assert(final(acc)@ =~= old(acc)@ + spec_encode_scalar(c as int));
        }
    } else {
        acc.push((0xF0 + c / 262144) as u8);
        acc.push((0x80 + (c / 4096) % 64) as u8);
        acc.push((0x80 + (c / 64) % 64) as u8);
        acc.push((0x80 + c % 64) as u8);
        proof {
            assert(final(acc)@ =~= old(acc)@ + spec_encode_scalar(c as int));
        }
    }
}

/// Reads a string whose opening quote stands just before `i`.
pub fn parse_string(s: &[u8], i: usize) -> (r: Option<(Vec<u8>, usize)>)
    requires
        i <= s@.len(),
    ensures
        match r {
            Some((c, e)) => spec_json_string(s@, i as int) == Some((c@, e as int)) && i <= e
                <= s@.len(),
            None => spec_json_string(s@, i as int) is None,
        },
{
    let mut acc: Vec<u8> = Vec::new();
    let mut cur = i;
    loop
        invariant
            i <= cur <= s@.len(),
            match spec_json_string(s@, cur as int) {
                Some((c, e)) => spec_json_string(s@, i as int) == Some((acc@ + c, e)),
                None => spec_json_string(s@, i as int) is None,
            },
        decreases s@.len() - cur,
    {
        if cur >= s.len() {
            return None;
        }
        let b = s[cur];
        if b == '"' as u8 {
            proof {
                assert(acc@ + Seq::<u8>::empty() =~= acc@);
            }
            return Some((acc, cur + 1));
        } else if b == '\\' as u8 {
            if cur + 1 >= s.len() {
                return None;
            }
            let e = s[cur + 1];
            if e == 'u' as u8 {
                let h = match hex4(s, cur + 2) {
                    Some(h) => h,
                    None => {
                        return None;
                    },
                };
                if 0xD800 <= h && h < 0xDC00 {
                    if s.len() - cur >= 8 && s[cur + 6] == '\\' as u8 && s[cur + 7] == 'u' as u8 {
                        let lo = match hex4(s, cur + 8) {
                            Some(lo) => lo,
                            None => {
                                return None;
                            },
                        };
                        if 0xDC00 <= lo && lo < 0xE000 {
                            let c = 0x10000 + (h - 0xD800) * 1024 + (lo - 0xDC00);
                            let ghost acc0 = acc@;
                            push_scalar(&mut acc, c);
                            proof {
                                if spec_json_string(s@, cur + 12) is Some {
                                    let (c2, e2) = spec_json_string(s@, cur + 12).unwrap();
                                    assert(acc@ + c2 =~= acc0 + (spec_encode_scalar(c as int)
                                        + c2));
                                }
                            }
                            cur = cur + 12;
                        } else {
                            return None;
                        }
                    } else {
                        return None;
                    }
                } else if 0xDC00 <= h && h < 0xE000 {
                    return None;
                } else {
                    let ghost acc0 = acc@;
                    push_scalar(&mut acc, h);
                    proof {
                        if spec_json_string(s@, cur + 6) is Some {
                            let (c2, e2) = spec_json_string(s@, cur + 6).unwrap();
                            assert(acc@ + c2 =~= acc0 + (spec_encode_scalar(h as int) + c2));
                        }
                    }
                    cur = cur + 6;
                }
            } else {
                let esc = if e == '"' as u8 {
                    '"' as u8
                } else if e == '\\' as u8 {
                    '\\' as u8
                } else if e == '/' as u8 {
                    '/' as u8
                } else if e == 'n' as u8 {
                    '\n' as u8
                } else if e == 't' as u8 {
                    '\t' as u8
                } else if e == 'r' as u8 {
                    '\r' as u8
                } else if e == 'b' as u8 {
                    0x08u8
                } else if e == 'f' as u8 {
                    0x0Cu8
                } else {
                    return None;
                };
                acc.push(esc);
                proof {
                    if spec_json_string(s@, cur + 2) is Some {
                        let (c2, e2) = spec_json_string(s@, cur + 2).unwrap();
                        assert(acc@ + c2 =~= acc@.drop_last() + (seq![esc] + c2));
                    }
                }
                cur = cur + 2;
            }
        } else {
            acc.push(b);
            proof {
                if spec_json_string(s@, cur + 1) is Some {
                    let (c2, e2) = spec_json_string(s@, cur + 1).unwrap();
                    assert(acc@ + c2 =~= acc@.drop_last() + (seq![b] + c2));
                }
            }
            cur = cur + 1;
        }
    }
}

/// The end position of a number starting at `i`: an optional minus sign,
/// digits, an optional fraction, an optional exponent.
pub open spec fn spec_json_number(s: Seq<u8>, i: int) -> Option<int> {
    let j = if 0 <= i < s.len() && s[i] == '-' as u8 {
        i + 1
    } else {
        i
    };
    if j < s.len() && crate::decimal::spec_is_digit(s[j]) {
        let k = spec_skip_digits(s, j);
        let k2 = if k < s.len() && s[k] == '.' as u8 && k + 1 < s.len()
            && crate::decimal::spec_is_digit(s[k + 1]) {
            spec_skip_digits(s, k + 1)
        } else {
            k
        };
        if k2 < s.len() && (s[k2] == 'e' as u8 || s[k2] == 'E' as u8) {
            let k3 = if k2 + 1 < s.len() && (s[k2 + 1] == '+' as u8 || s[k2 + 1] == '-' as u8) {
                k2 + 2
            } else {
                k2 + 1
            };
            if k3 < s.len() && crate::decimal::spec_is_digit(s[k3]) {
                Some(spec_skip_digits(s, k3))
            } else {
                None
            }
        } else {
            Some(k2)
        }
    } else {
        None
    }
}

/// Reads over a number starting at `i`.
pub fn parse_number(s: &[u8], i: usize) -> (r: Option<usize>)
    requires
        i <= s@.len(),
    ensures
        match r {
            Some(e) => spec_json_number(s@, i as int) == Some(e as int) && i <= e <= s@.len(),
            None => spec_json_number(s@, i as int) is None,
        },
{
    let j = if i < s.len() && s[i] == '-' as u8 {
        i + 1
    } else {
        i
    };
    if j < s.len() && '0' as u8 <= s[j] && s[j] <= '9' as u8 {
        let k = skip_digits(s, j);
        let k2 = if k < s.len() && s[k] == '.' as u8 && k + 1 < s.len() && '0' as u8 <= s[k + 1]
            && s[k + 1] <= '9' as u8 {
            skip_digits(s, k + 1)
        } else {
            k
        };
        if k2 < s.len() && (s[k2] == 'e' as u8 || s[k2] == 'E' as u8) {
            let k3 = if k2 + 1 < s.len() && (s[k2 + 1] == '+' as u8 || s[k2 + 1] == '-' as u8) {
                k2 + 2
            } else {
                k2 + 1
            };
            if k3 < s.len() && '0' as u8 <= s[k3] && s[k3] <= '9' as u8 {
                Some(skip_digits(s, k3))
            } else {
                None
            }
        } else {
            Some(k2)
        }
    } else {
        None
    }
}

/// The value starting at `i` (after whitespace) and its end position.
/// `fuel` bounds the recursion depth; every nesting level consumes at
/// least one byte, so the document-level fuel in `spec_json_doc` never
/// runs out on input the grammar accepts.
pub open spec fn spec_json_value(s: Seq<u8>, i: int, fuel: nat) -> Option<(JsonV, int)>
    decreases fuel,
{
    if fuel == 0 {
        None
    } else {
        let j = spec_skip_ws(s, i);
        if j >= s.len() {
            None
        } else if s[j] == '{' as u8 {
            let k = spec_skip_ws(s, j + 1);
            if k < s.len() && s[k] == '}' as u8 {
                Some((JsonV::Obj(Seq::empty()), k + 1))
            } else {
                match spec_json_members(s, j + 1, (fuel - 1) as nat) {
                    Some((m, e)) => Some((JsonV::Obj(m), e)),
                    None => None,
                }
            }
        } else if s[j] == '[' as u8 {
            let k = spec_skip_ws(s, j + 1);
            if k < s.len() && s[k] == ']' as u8 {
                Some((JsonV::Arr(Seq::empty()), k + 1))
            } else {
                match spec_json_items(s, j + 1, (fuel - 1) as nat) {
                    Some((m, e)) => Some((JsonV::Arr(m), e)),
                    None => None,
                }
            }
        } else if s[j] == '"' as u8 {
            match spec_json_string(s, j + 1) {
                Some((c, e)) => Some((JsonV::Str(c), e)),
                None => None,
            }
        } else if s[j] == 't' as u8 {
            if j + 4 <= s.len() && s[j + 1] == 'r' as u8 && s[j + 2] == 'u' as u8 && s[j + 3]
                == 'e' as u8 {
                Some((JsonV::Bool(true), j + 4))
            } else {
                None
            }
        } else if s[j] == 'f' as u8 {
            if j + 5 <= s.len() && s[j + 1] == 'a' as u8 && s[j + 2] == 'l' as u8 && s[j + 3]
                == 's' as u8 && s[j + 4] == 'e' as u8 {
                Some((JsonV::Bool(false), j + 5))
            } else {
                None
            }
        } else if s[j] == 'n' as u8 {
            if j + 4 <= s.len() && s[j + 1] == 'u' as u8 && s[j + 2] == 'l' as u8 && s[j + 3]
                == 'l' as u8 {
                Some((JsonV::Null, j + 4))
            } else {
                None
            }
        } else {
            match spec_json_number(s, j) {
                Some(e) => Some((JsonV::Num, e)),
                None => None,
            }
        }
    }
}

/// The members of an object whose opening brace stands just before `i`,
/// and the position after the closing brace.
pub open spec fn spec_json_members(s: Seq<u8>, i: int, fuel: nat) -> Option<
    (Seq<(Seq<u8>, JsonV)>, int),
>
    decreases fuel,
{
    if fuel == 0 {
        None
    } else {
        let j = spec_skip_ws(s, i);
        if j < s.len() && s[j] == '"' as u8 {
            match spec_json_string(s, j + 1) {
                Some((key, e1)) => {
                    let k = spec_skip_ws(s, e1);
                    if k < s.len() && s[k] == ':' as u8 {
                        match spec_json_value(s, k + 1, (fuel - 1) as nat) {
                            Some((v, e2)) => {
                                let m = spec_skip_ws(s, e2);
                                if m < s.len() && s[m] == ',' as u8 {
                                    match spec_json_members(s, m + 1, (fuel - 1) as nat) {
                                        Some((rest, e3)) => Some((seq![(key, v)] + rest, e3)),
                                        None => None,
                                    }
                                } else if m < s.len() && s[m] == '}' as u8 {
                                    Some((seq![(key, v)], m + 1))
                                } else {
                                    None
                                }
                            },
                            None => None,
                        }
                    } else {
                        None
                    }
                },
                None => None,
            }
        } else {
            None
        }
    }
}

/// The items of an array whose opening bracket stands just before `i`,
/// and the position after the closing bracket.
pub open spec fn spec_json_items(s: Seq<u8>, i: int, fuel: nat) -> Option<(Seq<JsonV>, int)>
    decreases fuel,
{
    if fuel == 0 {
        None
    } else {
        match spec_json_value(s, i, (fuel - 1) as nat) {
            Some((v, e)) => {
                let m = spec_skip_ws(s, e);
                if m < s.len() && s[m] == ',' as u8 {
                    match spec_json_items(s, m + 1, (fuel - 1) as nat) {
                        Some((rest, e2)) => Some((seq![v] + rest, e2)),
                        None => None,
                    }
                } else if m < s.len() && s[m] == ']' as u8 {
                    Some((seq![v], m + 1))
                } else {
                    None
                }
            },
            None => None,
        }
    }
}

/// Reads the value starting at `i`.
pub fn parse_value(s: &[u8], i: usize, fuel: usize) -> (r: Option<(JsonValue, usize)>)
    requires
        i <= s@.len(),
    ensures
        match r {
            Some((v, e)) => spec_json_value(s@, i as int, fuel as nat) == Some((v@, e as int)) && e
                <= s@.len(),
            None => spec_json_value(s@, i as int, fuel as nat) is None,
        },
    decreases fuel,
{
    if fuel == 0 {
        return None;
    }
    let j = skip_ws(s, i);
    if j >= s.len() {
        return None;
    }
    let b = s[j];
    if b == '{' as u8 {
        let k = skip_ws(s, j + 1);
        if k < s.len() && s[k] == '}' as u8 {
            let v = JsonValue::Obj(Vec::new());
            proof {
                assert(v@ =~= JsonV::Obj(Seq::empty()));
            }
            Some((v, k + 1))
        } else {
            match parse_members(s, j + 1, fuel - 1) {
                Some((m, e)) => Some((JsonValue::Obj(m), e)),
                None => None,
            }
        }
    } else if b == '[' as u8 {
        let k = skip_ws(s, j + 1);
        if k < s.len() && s[k] == ']' as u8 {
            let v = JsonValue::Arr(Vec::new());
            proof {
                assert(v@ =~= JsonV::Arr(Seq::empty()));
            }
            Some((v, k + 1))
        } else {
            match parse_items(s, j + 1, fuel - 1) {
                Some((m, e)) => Some((JsonValue::Arr(m), e)),
                None => None,
            }
        }
    } else if b == '"' as u8 {
        match parse_string(s, j + 1) {
            Some((c, e)) => Some((JsonValue::Str(c), e)),
            None => None,
        }
    } else if b == 't' as u8 {
        if s.len() - j >= 4 && s[j + 1] == 'r' as u8 && s[j + 2] == 'u' as u8 && s[j + 3]
            == 'e' as u8 {
            Some((JsonValue::Bool(true), j + 4))
        } else {
            None
        }
    } else if b == 'f' as u8 {
        if s.len() - j >= 5 && s[j + 1] == 'a' as u8 && s[j + 2] == 'l' as u8 && s[j + 3]
            == 's' as u8 && s[j + 4] == 'e' as u8 {
            Some((JsonValue::Bool(false), j + 5))
        } else {
            None
        }
    } else if b == 'n' as u8 {
        if s.len() - j >= 4 && s[j + 1] == 'u' as u8 && s[j + 2] == 'l' as u8 && s[j + 3]
            == 'l' as u8 {
            Some((JsonValue::Null, j + 4))
        } else {
            None
        }
    } else {
        match parse_number(s, j) {
            Some(e) => Some((JsonValue::Num, e)),
            None => None,
        }
    }
}

/// Reads the members of an object whose opening brace stands just before
/// `i`.
pub fn parse_members(s: &[u8], i: usize, fuel: usize) -> (r: Option<
    (Vec<(Vec<u8>, JsonValue)>, usize),
>)
    requires
        i <= s@.len(),
    ensures
        match r {
            Some((m, e)) => spec_json_members(s@, i as int, fuel as nat) == Some(
                (spec_member_views(m@), e as int),
            ) && e <= s@.len(),
            None => spec_json_members(s@, i as int, fuel as nat) is None,
        },
    decreases fuel,
{
    if fuel == 0 {
        return None;
    }
    let j = skip_ws(s, i);
    if !(j < s.len() && s[j] == '"' as u8) {
        return None;
    }
    let (key, e1) = match parse_string(s, j + 1) {
        Some(x) => x,
        None => {
            return None;
        },
    };
    let k = skip_ws(s, e1);
    if !(k < s.len() && s[k] == ':' as u8) {
        return None;
    }
    let (v, e2) = match parse_value(s, k + 1, fuel - 1) {
        Some(x) => x,
        None => {
            return None;
        },
    };
    let m = skip_ws(s, e2);
    if m < s.len() && s[m] == ',' as u8 {
        match parse_members(s, m + 1, fuel - 1) {
            Some((rest, e3)) => {
                let ghost restv = rest@;
                let mut rest = rest;
                rest.insert(0, (key, v));
                proof {
                    assert(rest@ =~= seq![(key, v)] + restv);
                    lemma_member_views_cons((key, v), restv);
                }
                Some((rest, e3))
            },
            None => None,
        }
    } else if m < s.len() && s[m] == '}' as u8 {
        let mut one: Vec<(Vec<u8>, JsonValue)> = Vec::new();
        one.push((key, v));
        proof {
            assert(one@ =~= seq![(key, v)] + Seq::<(Vec<u8>, JsonValue)>::empty());
            lemma_member_views_cons((key, v), Seq::empty());
            assert(spec_member_views(Seq::empty()) =~= Seq::<(Seq<u8>, JsonV)>::empty());
            assert(seq![(key@, v@)] + Seq::<(Seq<u8>, JsonV)>::empty() =~= seq![(key@, v@)]);
        }
        Some((one, m + 1))
    } else {
        None
    }
}

/// Prepending a member prepends its view.
proof fn lemma_member_views_cons(x: (Vec<u8>, JsonValue), rest: Seq<(Vec<u8>, JsonValue)>)
    ensures
        spec_member_views(seq![x] + rest) == seq![(x.0@, x.1@)] + spec_member_views(rest),
{
    let c = seq![x] + rest;
    assert(c[0] == x);
    assert(c.skip(1) =~= rest);
}

/// Reads the items of an array whose opening bracket stands just before
/// `i`.
pub fn parse_items(s: &[u8], i: usize, fuel: usize) -> (r: Option<(Vec<JsonValue>, usize)>)
    requires
        i <= s@.len(),
    ensures
        match r {
            Some((m, e)) => spec_json_items(s@, i as int, fuel as nat) == Some(
                (spec_views(m@), e as int),
            ) && e <= s@.len(),
            None => spec_json_items(s@, i as int, fuel as nat) is None,
        },
    decreases fuel,
{
    if fuel == 0 {
        return None;
    }
    let (v, e) = match parse_value(s, i, fuel - 1) {
        Some(x) => x,
        None => {
            return None;
        },
    };
    let m = skip_ws(s, e);
    if m < s.len() && s[m] == ',' as u8 {
        match parse_items(s, m + 1, fuel - 1) {
            Some((rest, e2)) => {
                let ghost restv = rest@;
                let mut rest = rest;
                rest.insert(0, v);
                proof {
                    assert(rest@ =~= seq![v] + restv);
                    lemma_views_cons(v, restv);
                }
                Some((rest, e2))
            },
            None => None,
        }
    } else if m < s.len() && s[m] == ']' as u8 {
        let mut one: Vec<JsonValue> = Vec::new();
        one.push(v);
        proof {
            assert(one@ =~= seq![v] + Seq::<JsonValue>::empty());
            lemma_views_cons(v, Seq::empty());
            assert(spec_views(Seq::empty()) =~= Seq::<JsonV>::empty());
            assert(seq![v@] + Seq::<JsonV>::empty() =~= seq![v@]);
        }
        Some((one, m + 1))
    } else {
        None
    }
}

/// Prepending a value prepends its view.
proof fn lemma_views_cons(x: JsonValue, rest: Seq<JsonValue>)
    ensures
        spec_views(seq![x] + rest) == seq![x@] + spec_views(rest),
{
    let c = seq![x] + rest;
    assert(c[0] == x);
    assert(c.skip(1) =~= rest);
}

/// The whole document `s`: one value with only whitespace after it.
pub open spec fn spec_json_doc(s: Seq<u8>) -> Option<JsonV> {
    match spec_json_value(s, 0, (s.len() + 2) as nat) {
        Some((v, e)) => {
            if spec_skip_ws(s, e) == s.len() {
                Some(v)
            } else {
                None
            }
        },
        None => None,
    }
}

/// Reads `s` as one JSON document.
pub fn parse_json(s: &[u8]) -> (r: Option<JsonValue>)
    requires
        s@.len() + 2 <= usize::MAX,
    ensures
        match r {
            Some(v) => spec_json_doc(s@) == Some(v@),
            None => spec_json_doc(s@) is None,
        },
{
    let fuel = s.len() + 2;
    match parse_value(s, 0, fuel) {
        Some((v, e)) => {
            if skip_ws(s, e) == s.len() {
                Some(v)
            } else {
                None
            }
        },
        None => None,
    }
}

} // verus!

//! The bencode value model and its grammar, stated as a recursive-descent
//! parser over bytes.
use vstd::prelude::*;

verus! {

/// The mathematical form of a bencode value.
pub enum BValue {
    Int(int),
    Bytes(Seq<u8>),
    List(Seq<BValue>),
    Dict(Seq<(Seq<u8>, BValue)>),
}

/// A decoded bencode value. Dictionary entries keep the order in which their
/// keys were first met.
#[derive(Debug)]
pub enum Value {
    Integer(i64),
    ByteString(Vec<u8>),
    List(Vec<Value>),
    Dictionary(Vec<(Vec<u8>, Value)>),
}

impl Value {
    pub open spec fn view(&self) -> BValue
        decreases self,
    {
        match self {
            Value::Integer(n) => BValue::Int(*n as int),
            Value::ByteString(b) => BValue::Bytes(b@),
            Value::List(items) => BValue::List(
                Seq::new(
                    items.len() as nat,
                    |i: int|
                        if 0 <= i < items.len() {
                            items[i].view()
                        } else {
                            BValue::Int(0)
                        },
                ),
            ),
            Value::Dictionary(es) => BValue::Dict(
                Seq::new(
                    es.len() as nat,
                    |i: int|
                        if 0 <= i < es.len() {
                            (es[i].0@, es[i].1.view())
                        } else {
                            (Seq::empty(), BValue::Int(0))
                        },
                ),
            ),
        }
    }
}


pub open spec fn is_digit(b: u8) -> bool {
    48 <= b <= 57
}

pub open spec fn all_digits(t: Seq<u8>) -> bool {
    forall|i: int| 0 <= i < t.len() ==> is_digit(#[trigger] t[i])
}

/// The number that a run of ASCII digits spells in decimal.
pub open spec fn digits_value(t: Seq<u8>) -> nat
    decreases t.len(),
{
    if t.len() == 0 {
        0
    } else {
        digits_value(t.drop_last()) * 10 + (t.last() - 48) as nat
    }
}

/// The first position at or after `p` that does not hold a digit.
pub open spec fn digit_end(s: Seq<u8>, p: int) -> int
    decreases s.len() - p,
{
    if p < 0 || p >= s.len() {
        s.len() as int
    } else if is_digit(s[p]) {
        digit_end(s, p + 1)
    } else {
        p
    }
}

/// The first position at or after `p` that holds `b`, or the length if none does.
pub open spec fn find_from(s: Seq<u8>, p: int, b: u8) -> int
    decreases s.len() - p,
{
    if p < 0 || p >= s.len() {
        s.len() as int
    } else if s[p] == b {
        p
    } else {
        find_from(s, p + 1, b)
    }
}

/// The text of a bencode integer: an optional minus sign and decimal digits,
/// without leading zeros, where `0` is written only unsigned.
pub open spec fn parse_int_text(t: Seq<u8>) -> Option<int> {
    if t.len() > 0 && t[0] == 45u8 {
        let m = t.drop_first();
        if m.len() > 0 && all_digits(m) && m[0] != 48u8 {
            Some(-(digits_value(m) as int))
        } else {
            None
        }
    } else if t.len() > 0 && all_digits(t) && (t.len() == 1 || t[0] != 48u8) {
        Some(digits_value(t) as int)
    } else {
        None
    }
}

pub open spec fn in_i64(v: int) -> bool {
    i64::MIN <= v <= i64::MAX
}

/// A byte string at `p`: a decimal length, a colon and that many bytes.
/// Gives the payload and the position just past it.
pub open spec fn parse_bytes(s: Seq<u8>, p: int) -> Option<(Seq<u8>, int)> {
    if 0 <= p < s.len() && is_digit(s[p]) {
        let c = digit_end(s, p);
        let n = digits_value(s.subrange(p, c));
        if c < s.len() && s[c] == 58u8 && c + 1 + n <= s.len() {
            Some((s.subrange(c + 1, c + 1 + n), c + 1 + n))
        } else {
            None
        }
    } else {
        None
    }
}

/// An integer at `p`: `i`, its text, then `e`.
pub open spec fn parse_int(s: Seq<u8>, p: int) -> Option<(int, int)> {
    let e = find_from(s, p + 1, 101u8);
    if e < s.len() {
        match parse_int_text(s.subrange(p + 1, e)) {
            Some(v) => if in_i64(v) {
                Some((v, e + 1))
            } else {
                None
            },
            None => None,
        }
    } else {
        None
    }
}

/// Whether some entry of `es` has key `k`.
pub open spec fn has_key(es: Seq<(Seq<u8>, BValue)>, k: Seq<u8>) -> bool {
    exists|i: int| 0 <= i < es.len() && (#[trigger] es[i]).0 == k
}

/// No two entries of `es` share a key.
pub open spec fn keys_unique(es: Seq<(Seq<u8>, BValue)>) -> bool {
    forall|i: int, j: int|
        0 <= i < es.len() && 0 <= j < es.len() && i != j ==> (#[trigger] es[i]).0 != (#[trigger] es[j]).0
}

/// Inserting into a dictionary: a key already present keeps its place and
/// takes the new value; a new key goes last.
pub open spec fn dict_insert(es: Seq<(Seq<u8>, BValue)>, k: Seq<u8>, v: BValue) -> Seq<(Seq<u8>, BValue)> {
    if has_key(es, k) {
        let i = choose|i: int| 0 <= i < es.len() && (#[trigger] es[i]).0 == k;
        es.update(i, (k, v))
    } else {
        es.push((k, v))
    }
}

/// A value at `p`, chosen by its first byte. Gives the value and the
/// position just past it.
pub open spec fn parse_value(s: Seq<u8>, p: int) -> Option<(BValue, int)>
    decreases s.len() - p, 0int,
{
    if p < 0 || p >= s.len() {
        None
    } else if is_digit(s[p]) {
        match parse_bytes(s, p) {
            Some((b, q)) => Some((BValue::Bytes(b), q)),
            None => None,
        }
    } else if s[p] == 105u8 {
        match parse_int(s, p) {
            Some((v, q)) => Some((BValue::Int(v), q)),
            None => None,
        }
    } else if s[p] == 108u8 {
        match parse_items(s, p + 1, Seq::empty()) {
            Some((vs, q)) => Some((BValue::List(vs), q)),
            None => None,
        }
    } else if s[p] == 100u8 {
        match parse_entries(s, p + 1, Seq::empty()) {
            Some((es, q)) => Some((BValue::Dict(es), q)),
            None => None,
        }
    } else {
        None
    }
}

/// The items of a list from `p` up to its closing `e`, after those in `acc`.
pub open spec fn parse_items(s: Seq<u8>, p: int, acc: Seq<BValue>) -> Option<(Seq<BValue>, int)>
    decreases s.len() - p, 1int,
{
    if p < 0 || p >= s.len() {
        None
    } else if s[p] == 101u8 {
        Some((acc, p + 1))
    } else {
        match parse_value(s, p) {
            Some((v, q)) => if p < q <= s.len() {
                parse_items(s, q, acc.push(v))
            } else {
                None
            },
            None => None,
        }
    }
}

/// The entries of a dictionary from `p` up to its closing `e`, inserted into
/// `acc` in the order met.
pub open spec fn parse_entries(s: Seq<u8>, p: int, acc: Seq<(Seq<u8>, BValue)>) -> Option<
    (Seq<(Seq<u8>, BValue)>, int),
>
    decreases s.len() - p, 1int,
{
    if p < 0 || p >= s.len() {
        None
    } else if s[p] == 101u8 {
        Some((acc, p + 1))
    } else {
        match parse_bytes(s, p) {
            Some((k, q)) => if p < q <= s.len() {
                match parse_value(s, q) {
                    Some((v, r)) => if q < r <= s.len() {
                        parse_entries(s, r, dict_insert(acc, k, v))
                    } else {
                        None
                    },
                    None => None,
                }
            } else {
                None
            },
            None => None,
        }
    }
}

/// The value of the first entry of `es` with key `k`.
pub open spec fn lookup(es: Seq<(Seq<u8>, BValue)>, k: Seq<u8>) -> Option<BValue>
    decreases es.len(),
{
    if es.len() == 0 {
        None
    } else if es[0].0 == k {
        Some(es[0].1)
    } else {
        lookup(es.drop_first(), k)
    }
}

/// The value under key `k` of a dictionary; nothing for other values.
pub open spec fn dict_get(v: BValue, k: Seq<u8>) -> Option<BValue> {
    match v {
        BValue::Dict(es) => lookup(es, k),
        _ => None,
    }
}

} // verus!

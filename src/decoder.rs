//! Recursive-descent decoding of bencode, proved to follow the grammar of
//! `bencode::parse_value`.
use vstd::prelude::*;
use vstd::string::StringSliceAdditionalSpecFns;
use crate::bencode::{
    all_digits, digit_end, digits_value, dict_insert, find_from, has_key, in_i64, is_digit,
    keys_unique, lookup, dict_get, parse_bytes, parse_entries, parse_int, parse_items, parse_value, BValue, Value,
};

verus! {

/// Malformed bencode input.
#[derive(Debug, PartialEq, Eq, Structural)]
pub struct DecodeError;

/// The views of a sequence of values, as a list's view holds them.
pub open spec fn items_view(items: Seq<Value>) -> Seq<BValue> {
    Seq::new(items.len(), |i: int| items[i]@)
}

/// The views of dictionary entries, as a dictionary's view holds them.
pub open spec fn entries_view(es: Seq<(Vec<u8>, Value)>) -> Seq<(Seq<u8>, BValue)> {
    Seq::new(es.len(), |i: int| (es[i].0@, es[i].1@))
}

pub(crate) proof fn lemma_digit_end(s: Seq<u8>, x: int)
    requires
        0 <= x <= s.len(),
    ensures
        x <= digit_end(s, x) <= s.len(),
        forall|k: int| x <= k < digit_end(s, x) ==> is_digit(#[trigger] s[k]),
        digit_end(s, x) < s.len() ==> !is_digit(s[digit_end(s, x)]),
    decreases s.len() - x,
{
    if x < s.len() && is_digit(s[x]) {
        lemma_digit_end(s, x + 1);
    }
}

pub(crate) proof fn lemma_digit_end_skip(s: Seq<u8>, x: int, y: int)
    requires
        0 <= x <= y <= s.len(),
        forall|k: int| x <= k < y ==> is_digit(#[trigger] s[k]),
    ensures
        digit_end(s, x) == digit_end(s, y),
    decreases y - x,
{
    if x < y {
        lemma_digit_end_skip(s, x + 1, y);
    }
}

pub(crate) proof fn lemma_find_from_skip(s: Seq<u8>, x: int, y: int, b: u8)
    requires
        0 <= x <= y <= s.len(),
        forall|k: int| x <= k < y ==> #[trigger] s[k] != b,
    ensures
        find_from(s, x, b) == find_from(s, y, b),
    decreases y - x,
{
    if x < y {
        lemma_find_from_skip(s, x + 1, y, b);
    }
}

proof fn lemma_digits_prefix_le(t: Seq<u8>, i: int)
    requires
        all_digits(t),
        0 <= i <= t.len(),
    ensures
        digits_value(t.subrange(0, i)) <= digits_value(t),
    decreases t.len(),
{
    if i < t.len() {
        let u = t.drop_last();
        assert(all_digits(u)) by {
            assert forall|k: int| 0 <= k < u.len() implies is_digit(#[trigger] u[k]) by {
                assert(u[k] == t[k]);
            }
        }
        lemma_digits_prefix_le(u, i);
        assert(u.subrange(0, i) =~= t.subrange(0, i));
    } else {
        assert(t.subrange(0, i) =~= t);
    }
}

/// A length prefix whose digits from `p` up to `q` already exceed the input
/// cannot be followed by that many bytes.
proof fn lemma_length_too_large(s: Seq<u8>, p: int, q: int)
    requires
        0 <= p < q <= s.len(),
        forall|k: int| p <= k < q ==> is_digit(#[trigger] s[k]),
        digits_value(s.subrange(p, q)) > s.len(),
    ensures
        parse_bytes(s, p) is None,
{
    lemma_digit_end_skip(s, p, q);
    lemma_digit_end(s, q);
    let c = digit_end(s, p);
    let t = s.subrange(p, c);
    assert(all_digits(t));
    lemma_digits_prefix_le(t, q - p);
    assert(t.subrange(0, q - p) =~= s.subrange(p, q));
}

fn byte_is_digit(b: u8) -> (r: bool)
    ensures
        r == is_digit(b),
{
    48 <= b && b <= 57
}

/// Decodes the byte string at `p`.
fn decode_bytes_at(s: &[u8], p: usize) -> (r: Result<(Vec<u8>, usize), DecodeError>)
    ensures
        match r {
            Ok((b, q)) => parse_bytes(s@, p as int) == Some((b@, q as int)) && p < q <= s@.len(),
            Err(_) => parse_bytes(s@, p as int) is None,
        },
{
    if p >= s.len() || !byte_is_digit(s[p]) {
        return Err(DecodeError);
    }
    let mut q: usize = p;
    let mut n: usize = 0;
    while q < s.len() && byte_is_digit(s[q])
        invariant
            p <= q <= s@.len(),
            forall|k: int| p <= k < q ==> is_digit(#[trigger] s@[k]),
            n == digits_value(s@.subrange(p as int, q as int)),
            n <= s@.len(),
        decreases s@.len() - q,
    {
        let d = (s[q] - 48) as usize;
        proof {
            assert(s@.subrange(p as int, q + 1).drop_last() =~= s@.subrange(p as int, q as int));
        }
        if n > s.len() / 10 {
            proof {
                let len = s@.len() as int;
                assert(n * 10 > len) by (nonlinear_arith)
                    requires
                        n > len / 10,
                        len >= 0,
                ;
                lemma_length_too_large(s@, p as int, q + 1);
            }
            return Err(DecodeError);
        }
        let m = n * 10;
        if d > s.len() - m {
            proof {
                lemma_length_too_large(s@, p as int, q + 1);
            }
            return Err(DecodeError);
        }
        n = m + d;
        q = q + 1;
    }
    proof {
        lemma_digit_end_skip(s@, p as int, q as int);
        lemma_digit_end(s@, q as int);
    }
    if q >= s.len() || s[q] != 58 {
        return Err(DecodeError);
    }
    let start = q + 1;
    if n > s.len() - start {
        return Err(DecodeError);
    }
    let end = start + n;
    let mut payload: Vec<u8> = Vec::new();
    let mut k: usize = start;
    while k < end
        invariant
            start <= k <= end <= s@.len(),
            payload@ =~= s@.subrange(start as int, k as int),
        decreases end - k,
    {
        payload.push(s[k]);
        k = k + 1;
    }
    Ok((payload, end))
}

/// Digits from `ds` up to `q` that already exceed `limit` leave the text up
/// to `e` outside of that bound, if it is all digits.
proof fn lemma_magnitude_too_large(s: Seq<u8>, ds: int, q: int, e: int, limit: int)
    requires
        0 <= ds < q <= e <= s.len(),
        digits_value(s.subrange(ds, q)) > limit,
        all_digits(s.subrange(ds, e)),
    ensures
        digits_value(s.subrange(ds, e)) > limit,
{
    let t = s.subrange(ds, e);
    lemma_digits_prefix_le(t, q - ds);
    assert(t.subrange(0, q - ds) =~= s.subrange(ds, q));
}

/// Decodes the integer at `p`, where `s[p]` is `i`.
fn decode_int_at(s: &[u8], p: usize) -> (r: Result<(i64, usize), DecodeError>)
    requires
        p < s@.len(),
    ensures
        match r {
            Ok((v, q)) => parse_int(s@, p as int) == Some((v as int, q as int)) && p < q <= s@.len(),
            Err(_) => parse_int(s@, p as int) is None,
        },
{
    let len = s.len();
    let mut e: usize = p + 1;
    while e < len && s[e] != 101
        invariant
            p + 1 <= e <= s@.len(),
            len == s@.len(),
            forall|k: int| p + 1 <= k < e ==> #[trigger] s@[k] != 101u8,
        decreases s@.len() - e,
    {
        e = e + 1;
    }
    proof {
        lemma_find_from_skip(s@, p + 1, e as int, 101u8);
    }
    if e >= s.len() {
        return Err(DecodeError);
    }
    let ghost t = s@.subrange(p + 1, e as int);
    let neg = p + 1 < e && s[p + 1] == 45;
    let ds: usize = if neg { p + 2 } else { p + 1 };
    proof {
        if neg {
            assert(t.drop_first() =~= s@.subrange(ds as int, e as int));
        } else {
            assert(t =~= s@.subrange(ds as int, e as int));
        }
    }
    if ds >= e {
        return Err(DecodeError);
    }
    if s[ds] == 48 && (neg || e - ds > 1) {
        return Err(DecodeError);
    }
    let ghost m = s@.subrange(ds as int, e as int);
    let ghost signed = if neg { -(digits_value(m) as int) } else { digits_value(m) as int };
    proof {
        assert(m[0] == s@[ds as int]);
    }
    assert(parse_int(s@, p as int) == (if all_digits(m) && in_i64(signed) {
        Some((signed, e + 1))
    } else {
        None::<(int, int)>
    }));
    let limit: u64 = if neg { 9223372036854775808 } else { 9223372036854775807 };
    let mut mag: u64 = 0;
    let mut j: usize = ds;
    while j < e
        invariant
            ds <= j <= e < s@.len(),
            forall|k: int| ds <= k < j ==> is_digit(#[trigger] s@[k]),
            mag == digits_value(s@.subrange(ds as int, j as int)),
            mag <= limit,
            9223372036854775807 <= limit <= 9223372036854775808,
            limit == 9223372036854775808 <==> neg,
            m == s@.subrange(ds as int, e as int),
            signed == (if neg { -(digits_value(m) as int) } else { digits_value(m) as int }),
            parse_int(s@, p as int) == (if all_digits(m) && in_i64(signed) {
                Some((signed, e + 1))
            } else {
                None::<(int, int)>
            }),
        decreases e - j,
    {
        if !byte_is_digit(s[j]) {
            proof {
                assert(!all_digits(s@.subrange(ds as int, e as int))) by {
                    assert(s@.subrange(ds as int, e as int)[j - ds] == s@[j as int]);
                }
            }
            return Err(DecodeError);
        }
        let d = (s[j] - 48) as u64;
        assert(d <= 9);
        proof {
            assert(s@.subrange(ds as int, j + 1).drop_last() =~= s@.subrange(ds as int, j as int));
        }
        if mag > (limit - d) / 10 {
            proof {
                let lim = limit as int;
                let dd = d as int;
                let mm = mag as int;
                assert(mm * 10 + dd > lim) by (nonlinear_arith)
                    requires
                        mm > (lim - dd) / 10,
                        0 <= dd <= lim,
                ;
                if all_digits(s@.subrange(ds as int, e as int)) {
                    lemma_magnitude_too_large(s@, ds as int, j + 1, e as int, lim);
                }
            }
            return Err(DecodeError);
        }
        mag = mag * 10 + d;
        j = j + 1;
    }
    proof {
        assert(all_digits(s@.subrange(ds as int, e as int)));
    }
    let v: i64 = if neg {
        if mag == 9223372036854775808 {
            i64::MIN
        } else {
            -(mag as i64)
        }
    } else {
        mag as i64
    };
    Ok((v, e + 1))
}

/// Whether two byte sequences are equal.
pub fn bytes_equal(a: &[u8], b: &[u8]) -> (r: bool)
    ensures
        r == (a@ == b@),
{
    if a.len() != b.len() {
        return false;
    }
    let mut i: usize = 0;
    while i < a.len()
        invariant
            i <= a@.len() == b@.len(),
            forall|k: int| 0 <= k < i ==> a@[k] == b@[k],
        decreases a@.len() - i,
    {
        if a[i] != b[i] {
            return false;
        }
        i = i + 1;
    }
    assert(a@ =~= b@);
    true
}

/// Inserts `k` with `v`: an entry with that key takes the new value in
/// place, or the pair goes last.
fn insert_entry(es: &mut Vec<(Vec<u8>, Value)>, k: Vec<u8>, v: Value)
    requires
        keys_unique(entries_view(old(es)@)),
    ensures
        entries_view(final(es)@) == dict_insert(entries_view(old(es)@), k@, v@),
        keys_unique(entries_view(final(es)@)),
{
    let ghost old_view = entries_view(es@);
    let mut i: usize = 0;
    while i < es.len()
        invariant
            i <= es@.len(),
            es@ == old(es)@,
            old_view == entries_view(es@),
            keys_unique(old_view),
            forall|j: int| 0 <= j < i ==> (#[trigger] old_view[j]).0 != k@,
        decreases es@.len() - i,
    {
        if bytes_equal(es[i].0.as_slice(), k.as_slice()) {
            let ghost kv = k@;
            let ghost vv = v@;
            es[i] = (k, v);
            proof {
                assert(old_view[i as int].0 == kv);
                assert(has_key(old_view, kv));
                let c = choose|c: int| 0 <= c < old_view.len() && (#[trigger] old_view[c]).0 == kv;
                assert(c == i);
                assert(entries_view(es@) =~= old_view.update(i as int, (kv, vv)));
            }
            return;
        }
        i = i + 1;
    }
    let ghost kv = k@;
    let ghost vv = v@;
    es.push((k, v));
    proof {
        assert(!has_key(old_view, kv));
        assert(entries_view(es@) =~= old_view.push((kv, vv)));
    }
}

/// Decodes the value that starts at `p`.
pub fn decode_at(s: &[u8], p: usize) -> (r: Result<(Value, usize), DecodeError>)
    requires
        p <= s@.len(),
    ensures
        match r {
            Ok((v, q)) => parse_value(s@, p as int) == Some((v@, q as int)) && p < q <= s@.len(),
            Err(_) => parse_value(s@, p as int) is None,
        },
    decreases s@.len() - p, 1int,
{
    if p >= s.len() {
        return Err(DecodeError);
    }
    let b = s[p];
    if byte_is_digit(b) {
        match decode_bytes_at(s, p) {
            Ok((bytes, q)) => Ok((Value::ByteString(bytes), q)),
            Err(e) => Err(e),
        }
    } else if b == 105 {
        match decode_int_at(s, p) {
            Ok((n, q)) => Ok((Value::Integer(n), q)),
            Err(e) => Err(e),
        }
    } else if b == 108 {
        decode_list_at(s, p)
    } else if b == 100 {
        decode_dict_at(s, p)
    } else {
        Err(DecodeError)
    }
}

/// Decodes the list whose `l` stands at `p`.
fn decode_list_at(s: &[u8], p: usize) -> (r: Result<(Value, usize), DecodeError>)
    requires
        p < s@.len(),
        s@[p as int] == 108u8,
    ensures
        match r {
            Ok((v, q)) => parse_value(s@, p as int) == Some((v@, q as int)) && p < q <= s@.len(),
            Err(_) => parse_value(s@, p as int) is None,
        },
    decreases s@.len() - p, 0int,
{
    let len = s.len();
    let mut items: Vec<Value> = Vec::new();
    let mut q: usize = p + 1;
    assert(parse_value(s@, p as int) == match parse_items(s@, p + 1, Seq::empty()) {
        Some((vs, e)) => Some((BValue::List(vs), e)),
        None => None,
    });
    assert(items_view(items@) =~= Seq::<BValue>::empty());
    loop
        invariant
            p < q <= s@.len(),
            parse_items(s@, p + 1, Seq::empty()) == parse_items(s@, q as int, items_view(items@)),
            parse_value(s@, p as int) == match parse_items(s@, p + 1, Seq::empty()) {
                Some((vs, e)) => Some((BValue::List(vs), e)),
                None => None,
            },
        decreases s@.len() - q,
    {
        if q >= s.len() {
            return Err(DecodeError);
        }
        if s[q] == 101 {
            let ghost vs = items_view(items@);
            let r = Value::List(items);
            assert(r@ == BValue::List(vs)) by {
                assert(r@->List_0 =~= vs);
            }
            return Ok((r, q + 1));
        }
        match decode_at(s, q) {
            Ok((v, q2)) => {
                let ghost before = items_view(items@);
                items.push(v);
                assert(items_view(items@) =~= before.push(v@));
                q = q2;
            },
            Err(e) => {
                return Err(e);
            },
        }
    }
}

/// Decodes the dictionary whose `d` stands at `p`.
fn decode_dict_at(s: &[u8], p: usize) -> (r: Result<(Value, usize), DecodeError>)
    requires
        p < s@.len(),
        s@[p as int] == 100u8,
    ensures
        match r {
            Ok((v, q)) => parse_value(s@, p as int) == Some((v@, q as int)) && p < q <= s@.len(),
            Err(_) => parse_value(s@, p as int) is None,
        },
    decreases s@.len() - p, 0int,
{
    let len = s.len();
    let mut es: Vec<(Vec<u8>, Value)> = Vec::new();
    let mut q: usize = p + 1;
    assert(parse_value(s@, p as int) == match parse_entries(s@, p + 1, Seq::empty()) {
        Some((es, e)) => Some((BValue::Dict(es), e)),
        None => None,
    });
    assert(entries_view(es@) =~= Seq::<(Seq<u8>, BValue)>::empty());
    loop
        invariant
            p < q <= s@.len(),
            parse_entries(s@, p + 1, Seq::empty()) == parse_entries(s@, q as int, entries_view(es@)),
            keys_unique(entries_view(es@)),
            parse_value(s@, p as int) == match parse_entries(s@, p + 1, Seq::empty()) {
                Some((es, e)) => Some((BValue::Dict(es), e)),
                None => None,
            },
        decreases s@.len() - q,
    {
        if q >= s.len() {
            return Err(DecodeError);
        }
        if s[q] == 101 {
            let ghost ev = entries_view(es@);
            let r = Value::Dictionary(es);
            assert(r@ == BValue::Dict(ev)) by {
                assert(r@->Dict_0 =~= ev);
            }
            return Ok((r, q + 1));
        }
        let (k, q2) = match decode_bytes_at(s, q) {
            Ok(kq) => kq,
            Err(e) => {
                return Err(e);
            },
        };
        let (v, q3) = match decode_at(s, q2) {
            Ok(vq) => vq,
            Err(e) => {
                return Err(e);
            },
        };
        insert_entry(&mut es, k, v);
        q = q3;
    }
}

impl Value {
    /// The value under `key`, if this is a dictionary that has it.
    pub fn get(&self, key: &[u8]) -> (r: Option<&Value>)
        ensures
            match dict_get(self@, key@) {
                Some(x) => r matches Some(y) && y@ == x,
                None => r is None,
            },
    {
        match self {
            Value::Dictionary(es) => {
                let ghost ev = self@->Dict_0;
                let mut i: usize = 0;
                assert(ev.subrange(0, ev.len() as int) =~= ev);
                while i < es.len()
                    invariant
                        i <= es@.len() == ev.len(),
                        ev == self@->Dict_0,
                        *self == Value::Dictionary(*es),
                        forall|k: int| 0 <= k < ev.len() ==> #[trigger] ev[k] == (es@[k].0@, es@[k].1@),
                        lookup(ev, key@) == lookup(ev.subrange(i as int, ev.len() as int), key@),
                    decreases es@.len() - i,
                {
                    let ghost rest = ev.subrange(i as int, ev.len() as int);
                    assert(rest[0] == ev[i as int]);
                    if bytes_equal(es[i].0.as_slice(), key) {
                        return Some(&es[i].1);
                    }
                    assert(rest.drop_first() =~= ev.subrange(i + 1, ev.len() as int));
                    i = i + 1;
                }
                None
            },
            _ => None,
        }
    }
}

/// A cursor over bencoded text that decodes one value at a time.
pub struct Decoder<'v> {
    value: &'v [u8],
    pos: usize,
}

impl<'v> Decoder<'v> {
    /// The bytes being decoded.
    pub closed spec fn input(&self) -> Seq<u8> {
        self.value@
    }

    /// Where the next value starts.
    pub closed spec fn position(&self) -> int {
        self.pos as int
    }

    pub closed spec fn wf(&self) -> bool {
        self.pos <= self.value@.len()
    }

    pub fn new(value: &'v str) -> (r: Self)
        ensures
            r.wf(),
            r.input() == value.spec_bytes(),
            r.position() == 0,
    {
        Decoder { value: value.as_bytes(), pos: 0 }
    }

    pub fn from_bytes(value: &'v [u8]) -> (r: Self)
        ensures
            r.wf(),
            r.input() == value@,
            r.position() == 0,
    {
        Decoder { value, pos: 0 }
    }

    /// Decodes the value at the cursor and moves past it; on failure the
    /// cursor stays.
    pub fn decode(&mut self) -> (r: Result<Value, DecodeError>)
        requires
            old(self).wf(),
        ensures
            final(self).wf(),
            final(self).input() == old(self).input(),
            match parse_value(old(self).input(), old(self).position()) {
                Some((v, q)) => r matches Ok(x) && x@ == v && final(self).position() == q,
                None => r is Err && final(self).position() == old(self).position(),
            },
    {
        match decode_at(self.value, self.pos) {
            Ok((v, q)) => {
                self.pos = q;
                Ok(v)
            },
            Err(e) => Err(e),
        }
    }
}

} // verus!

//! Decoding a canonical encoding gives the value back, with its dictionary
//! entries in ascending key order.
use vstd::prelude::*;
use crate::bencode::{
    all_digits, dict_insert, digit_end, digits_value, find_from, has_key, in_i64, is_digit,
    keys_unique, parse_bytes, parse_entries, parse_int, parse_int_text, parse_items, parse_value,
    BValue,
};
use crate::decoder::{lemma_digit_end_skip, lemma_find_from_skip};
use crate::encoder::{
    bytes_text, decimal, encode_entries, encode_items, encode_value, insert_index, int_text,
    keys_of, sort_indices,
};

verus! {

proof fn lemma_decimal(n: nat)
    ensures
        decimal(n).len() >= 1,
        all_digits(decimal(n)),
        digits_value(decimal(n)) == n,
        decimal(n)[0] == 48u8 ==> n == 0,
    decreases n,
{
    if n >= 10 {
        lemma_decimal(n / 10);
        let d = decimal(n);
        let prev = decimal(n / 10);
        assert(d.drop_last() =~= prev);
        assert(d[0] == prev[0]);
        assert(d.last() == (48 + n % 10) as u8);
        assert((d.last() - 48) as nat == n % 10);
        assert(n == (n / 10) * 10 + n % 10);
        assert(digits_value(d) == digits_value(prev) * 10 + (d.last() - 48) as nat);
        assert forall|i: int| 0 <= i < d.len() implies is_digit(#[trigger] d[i]) by {
            if i < prev.len() {
                assert(d[i] == prev[i]);
            }
        }
    } else {
        let d = decimal(n);
        assert(d.drop_last() =~= Seq::<u8>::empty());
        assert(digits_value(d.drop_last()) == 0);
        assert(d.last() == (48 + n) as u8);
        assert(digits_value(d) == digits_value(d.drop_last()) * 10 + (d.last() - 48) as nat);
    }
}

/// A byte string with its length prefix at `p` parses back to its payload.
pub proof fn lemma_parse_bytes_text(s: Seq<u8>, p: int, b: Seq<u8>)
    requires
        0 <= p,
        p + bytes_text(b).len() <= s.len(),
        s.subrange(p, p + bytes_text(b).len()) == bytes_text(b),
    ensures
        parse_bytes(s, p) == Some((b, p + bytes_text(b).len())),
{
    let d = decimal(b.len());
    let t = bytes_text(b);
    lemma_decimal(b.len());
    let c = p + d.len();
    assert forall|k: int| p <= k < c implies is_digit(#[trigger] s[k]) by {
        assert(s[k] == s.subrange(p, p + t.len())[k - p]);
        assert(t[k - p] == d[k - p]);
    }
    assert(s[c] == s.subrange(p, p + t.len())[c - p]);
    assert(t[c - p] == 58u8);
    assert(s[p] == t[0]);
    lemma_digit_end_skip(s, p, c);
    assert(digit_end(s, c) == c);
    assert(s.subrange(p, c) =~= d) by {
        assert forall|k: int| 0 <= k < d.len() implies s.subrange(p, c)[k] == d[k] by {
            assert(s[p + k] == s.subrange(p, p + t.len())[k]);
            assert(t[k] == d[k]);
        }
    }
    assert(s.subrange(c + 1, c + 1 + b.len()) =~= b) by {
        assert forall|k: int| 0 <= k < b.len() implies s.subrange(c + 1, c + 1 + b.len())[k] == b[k] by {
            assert(s[c + 1 + k] == s.subrange(p, p + t.len())[d.len() + 1 + k]);
            assert(t[d.len() + 1 + k] == b[k]);
        }
    }
}

/// The text of an integer of 64 bits reads back as that integer.
proof fn lemma_int_text(n: int)
    requires
        in_i64(n),
    ensures
        parse_int_text(int_text(n)) == Some(n),
        forall|k: int| 0 <= k < int_text(n).len() ==> #[trigger] int_text(n)[k] != 101u8,
{
    if n < 0 {
        let m = decimal((-n) as nat);
        lemma_decimal((-n) as nat);
        let t = int_text(n);
        assert(t.drop_first() =~= m);
        assert forall|k: int| 0 <= k < t.len() implies #[trigger] t[k] != 101u8 by {
            if k > 0 {
                assert(t[k] == m[k - 1]);
                assert(is_digit(m[k - 1]));
            }
        }
    } else {
        lemma_decimal(n as nat);
        let t = int_text(n);
        assert(is_digit(t[0]));
        assert forall|k: int| 0 <= k < t.len() implies #[trigger] t[k] != 101u8 by {
            assert(is_digit(t[k]));
        }
    }
}

/// An integer written as `i`, its text and `e` at `p` parses back to itself.
pub proof fn lemma_parse_int_text(s: Seq<u8>, p: int, n: int)
    requires
        in_i64(n),
        0 <= p,
        p + int_text(n).len() + 2 <= s.len(),
        s.subrange(p, p + int_text(n).len() + 2) == seq![105u8] + int_text(n) + seq![101u8],
    ensures
        parse_int(s, p) == Some((n, p + int_text(n).len() + 2)),
{
    let t = int_text(n);
    let w = seq![105u8] + t + seq![101u8];
    let e = p + 1 + t.len();
    lemma_int_text(n);
    assert forall|k: int| p + 1 <= k < e implies #[trigger] s[k] != 101u8 by {
        assert(s[k] == s.subrange(p, p + t.len() + 2)[k - p]);
        assert(w[k - p] == t[k - p - 1]);
    }
    lemma_find_from_skip(s, p + 1, e, 101u8);
    assert(s[e] == s.subrange(p, p + t.len() + 2)[e - p]);
    assert(w[e - p] == 101u8);
    assert(find_from(s, e, 101u8) == e);
    assert(s.subrange(p + 1, e) =~= t) by {
        assert forall|k: int| 0 <= k < t.len() implies s.subrange(p + 1, e)[k] == t[k] by {
            assert(s[p + 1 + k] == s.subrange(p, p + t.len() + 2)[k + 1]);
            assert(w[k + 1] == t[k]);
        }
    }
}

/// Inserting an index puts it at one place and keeps the others in order.
proof fn lemma_insert_index_shape(order: Seq<int>, keys: Seq<Seq<u8>>, i: int)
    ensures
        exists|pos: int| 0 <= pos <= order.len() && insert_index(order, keys, i) == #[trigger] order.insert(pos, i),
    decreases order.len(),
{
    if order.len() == 0 {
        assert(insert_index(order, keys, i) == order.insert(0, i));
    } else if lex_less_first(order, keys, i) {
        assert(insert_index(order, keys, i) =~= order.insert(0, i));
    } else {
        let rest = order.drop_first();
        lemma_insert_index_shape(rest, keys, i);
        let pos = choose|pos: int| 0 <= pos <= rest.len() && insert_index(rest, keys, i) == #[trigger] rest.insert(pos, i);
        assert(insert_index(order, keys, i) =~= order.insert(pos + 1, i));
    }
}

spec fn lex_less_first(order: Seq<int>, keys: Seq<Seq<u8>>, i: int) -> bool {
    crate::encoder::lex_less(keys[i], keys[order[0]])
}

/// The indices that sort the keys are `0..n`, each once.
pub proof fn lemma_sort_indices_permutation(keys: Seq<Seq<u8>>, n: nat)
    ensures
        sort_indices(keys, n).len() == n,
        forall|j: int| 0 <= j < n ==> 0 <= #[trigger] sort_indices(keys, n)[j] < n,
        forall|j1: int, j2: int|
            0 <= j1 < n && 0 <= j2 < n && j1 != j2 ==> #[trigger] sort_indices(keys, n)[j1]
                != #[trigger] sort_indices(keys, n)[j2],
    decreases n,
{
    if n > 0 {
        let prev = sort_indices(keys, (n - 1) as nat);
        lemma_sort_indices_permutation(keys, (n - 1) as nat);
        lemma_insert_index_shape(prev, keys, n - 1);
        let pos = choose|pos: int| 0 <= pos <= prev.len() && insert_index(prev, keys, n - 1) == #[trigger] prev.insert(pos, n - 1);
        let cur = sort_indices(keys, n);
        assert(cur == prev.insert(pos, n - 1));
        assert forall|j: int| 0 <= j < n implies 0 <= #[trigger] cur[j] < n by {
            if j < pos {
                assert(cur[j] == prev[j]);
            } else if j > pos {
                assert(cur[j] == prev[j - 1]);
            }
        }
        assert forall|j1: int, j2: int| 0 <= j1 < n && 0 <= j2 < n && j1 != j2 implies #[trigger] cur[j1]
            != #[trigger] cur[j2] by {
            let a = if j1 < pos { j1 } else { j1 - 1 };
            let b = if j2 < pos { j2 } else { j2 - 1 };
            if j1 != pos && j2 != pos {
                assert(cur[j1] == prev[a]);
                assert(cur[j2] == prev[b]);
            } else if j1 == pos {
                assert(cur[j2] == prev[b]);
            } else {
                assert(cur[j1] == prev[a]);
            }
        }
    }
}

/// A value that the decoder can produce: integers of 64 bits, and
/// dictionaries without repeated keys.
pub open spec fn well_formed(v: BValue) -> bool
    decreases v,
{
    match v {
        BValue::Int(n) => in_i64(n),
        BValue::Bytes(_) => true,
        BValue::List(items) => forall|i: int| 0 <= i < items.len() ==> well_formed(#[trigger] items[i]),
        BValue::Dict(es) => keys_unique(es) && forall|i: int|
            0 <= i < es.len() ==> well_formed(#[trigger] es[i].1),
    }
}

/// `v` with the entries of every dictionary in it put in ascending key order.
pub open spec fn normalize(v: BValue) -> BValue
    decreases v,
{
    match v {
        BValue::List(items) => BValue::List(
            Seq::new(
                items.len(),
                |i: int|
                    if 0 <= i < items.len() {
                        normalize(items[i])
                    } else {
                        BValue::Int(0)
                    },
            ),
        ),
        BValue::Dict(es) => BValue::Dict(
            Seq::new(
                es.len(),
                |j: int|
                    {
                        let k = sort_indices(keys_of(es), es.len())[j];
                        if 0 <= k < es.len() {
                            (es[k].0, normalize(es[k].1))
                        } else {
                            (Seq::<u8>::empty(), BValue::Int(0))
                        }
                    },
            ),
        ),
        _ => v,
    }
}

proof fn lemma_encode_starts(v: BValue)
    ensures
        encode_value(v).len() >= 1,
        encode_value(v)[0] != 101u8,
{
    if let BValue::Bytes(b) = v {
        lemma_decimal(b.len());
        assert(encode_value(v)[0] == decimal(b.len())[0]);
        assert(is_digit(decimal(b.len())[0]));
    }
}

/// Where `big` stands in `s` at `q`, its part at `off` stands in `s` at `q + off`.
proof fn lemma_sub(s: Seq<u8>, q: int, big: Seq<u8>, off: int, small: Seq<u8>)
    requires
        0 <= q,
        q + big.len() <= s.len(),
        s.subrange(q, q + big.len()) == big,
        0 <= off,
        off + small.len() <= big.len(),
        big.subrange(off, off + small.len()) == small,
    ensures
        s.subrange(q + off, q + off + small.len()) == small,
{
    assert forall|k: int| 0 <= k < small.len() implies s.subrange(q + off, q + off + small.len())[k]
        == small[k] by {
        assert(s[q + off + k] == s.subrange(q, q + big.len())[off + k]);
        assert(big[off + k] == big.subrange(off, off + small.len())[k]);
    }
    assert(s.subrange(q + off, q + off + small.len()) =~= small);
}

proof fn lemma_items_prefix(items: Seq<BValue>, j: nat, n: nat)
    requires
        j <= n <= items.len(),
    ensures
        encode_items(items, j).len() <= encode_items(items, n).len(),
        encode_items(items, n).subrange(0, encode_items(items, j).len() as int) == encode_items(items, j),
    decreases n,
{
    if j == n {
        assert(encode_items(items, n).subrange(0, encode_items(items, n).len() as int) =~= encode_items(items, n));
    } else {
        lemma_items_prefix(items, j, (n - 1) as nat);
        assert(encode_items(items, n).subrange(0, encode_items(items, j).len() as int) =~= encode_items(
            items,
            (n - 1) as nat,
        ).subrange(0, encode_items(items, j).len() as int));
    }
}

proof fn lemma_entries_prefix(es: Seq<(Seq<u8>, BValue)>, order: Seq<int>, j: nat, n: nat)
    requires
        j <= n <= order.len(),
    ensures
        encode_entries(es, order, j).len() <= encode_entries(es, order, n).len(),
        encode_entries(es, order, n).subrange(0, encode_entries(es, order, j).len() as int)
            == encode_entries(es, order, j),
    decreases n,
{
    if j == n {
        assert(encode_entries(es, order, n).subrange(0, encode_entries(es, order, n).len() as int)
            =~= encode_entries(es, order, n));
    } else {
        lemma_entries_prefix(es, order, j, (n - 1) as nat);
        assert(encode_entries(es, order, n).subrange(0, encode_entries(es, order, j).len() as int)
            =~= encode_entries(es, order, (n - 1) as nat).subrange(
            0,
            encode_entries(es, order, j).len() as int,
        ));
    }
}

/// The canonical encoding of a value, wherever it stands in the input,
/// decodes to that value with its dictionaries in key order.
pub proof fn lemma_parse_encoding(v: BValue, s: Seq<u8>, p: int)
    requires
        well_formed(v),
        0 <= p,
        p + encode_value(v).len() <= s.len(),
        s.subrange(p, p + encode_value(v).len()) == encode_value(v),
    ensures
        parse_value(s, p) == Some((normalize(v), p + encode_value(v).len())),
    decreases v, 0int,
{
    let w = encode_value(v);
    assert(s[p] == w[0]) by {
        lemma_encode_starts(v);
        assert(s[p] == s.subrange(p, p + w.len())[0]);
    }
    match v {
        BValue::Int(n) => {
            lemma_parse_int_text(s, p, n);
        },
        BValue::Bytes(b) => {
            lemma_decimal(b.len());
            assert(w[0] == decimal(b.len())[0]);
            lemma_parse_bytes_text(s, p, b);
        },
        BValue::List(items) => {
            let body = encode_items(items, items.len());
            assert(w == seq![108u8] + body + seq![101u8]);
            assert(w.subrange(1, 1 + body.len() + 1 as int) =~= body + seq![101u8]);
            lemma_sub(s, p, w, 1, body + seq![101u8]);
            assert(Seq::new(0, |k: int| normalize(items[k])) =~= Seq::<BValue>::empty());
            lemma_parse_items(items, s, p + 1, 0);
            assert(normalize(v) == BValue::List(Seq::new(items.len(), |k: int| normalize(items[k])))) by {
                assert(normalize(v)->List_0 =~= Seq::new(items.len(), |k: int| normalize(items[k])));
            }
        },
        BValue::Dict(es) => {
            let order = sort_indices(keys_of(es), es.len());
            let body = encode_entries(es, order, es.len());
            assert(w == seq![100u8] + body + seq![101u8]);
            assert(w.subrange(1, 1 + body.len() + 1 as int) =~= body + seq![101u8]);
            lemma_sub(s, p, w, 1, body + seq![101u8]);
            lemma_sort_indices_permutation(keys_of(es), es.len());
            assert(sorted_prefix(es, 0) =~= Seq::<(Seq<u8>, BValue)>::empty());
            lemma_parse_entries(es, s, p + 1, 0);
            assert(normalize(v)->Dict_0 =~= sorted_prefix(es, es.len()));
        },
    }
}

proof fn lemma_parse_items(items: Seq<BValue>, s: Seq<u8>, q0: int, i: nat)
    requires
        i <= items.len(),
        forall|k: int| 0 <= k < items.len() ==> well_formed(#[trigger] items[k]),
        0 <= q0,
        q0 + encode_items(items, items.len()).len() + 1 <= s.len(),
        s.subrange(q0, q0 + encode_items(items, items.len()).len() + 1) == encode_items(
            items,
            items.len(),
        ) + seq![101u8],
    ensures
        parse_items(
            s,
            q0 + encode_items(items, i).len(),
            Seq::new(i, |k: int| normalize(items[k])),
        ) == Some(
            (
                Seq::new(items.len(), |k: int| normalize(items[k])),
                q0 + encode_items(items, items.len()).len() + 1,
            ),
        ),
    decreases items, items.len() - i,
{
    let n = items.len();
    let all = encode_items(items, n);
    let big = all + seq![101u8];
    let q = q0 + encode_items(items, i).len();
    if i == n {
        assert(s[q] == s.subrange(q0, q0 + big.len())[all.len() as int]);
        assert(Seq::new(i, |k: int| normalize(items[k])) =~= Seq::new(n, |k: int| normalize(items[k])));
    } else {
        let e = encode_value(items[i as int]);
        lemma_items_prefix(items, (i + 1) as nat, n);
        let prev = encode_items(items, i);
        assert(encode_items(items, (i + 1) as nat) == prev + e);
        assert(big.subrange(prev.len() as int, (prev.len() + e.len()) as int) =~= e) by {
            assert forall|k: int| 0 <= k < e.len() implies big[prev.len() + k] == e[k] by {
                assert(big[prev.len() + k] == all[prev.len() + k]);
                assert(all[prev.len() + k] == all.subrange(0, (prev.len() + e.len()) as int)[prev.len() + k]);
                assert((prev + e)[prev.len() + k] == e[k]);
            }
        }
        lemma_sub(s, q0, big, prev.len() as int, e);
        lemma_parse_encoding(items[i as int], s, q);
        lemma_encode_starts(items[i as int]);
        assert(s[q] == e[0]) by {
            assert(s[q] == s.subrange(q, q + e.len())[0]);
        }
        assert(Seq::new(i, |k: int| normalize(items[k])).push(normalize(items[i as int])) =~= Seq::new(
            (i + 1) as nat,
            |k: int| normalize(items[k]),
        ));
        lemma_parse_items(items, s, q0, (i + 1) as nat);
    }
}

/// The first `j` entries in key order, with their values normalized.
pub open spec fn sorted_prefix(es: Seq<(Seq<u8>, BValue)>, j: nat) -> Seq<(Seq<u8>, BValue)> {
    Seq::new(
        j,
        |t: int|
            {
                let k = sort_indices(keys_of(es), es.len())[t];
                (es[k].0, normalize(es[k].1))
            },
    )
}

proof fn lemma_parse_entries(es: Seq<(Seq<u8>, BValue)>, s: Seq<u8>, q0: int, j: nat)
    requires
        j <= es.len(),
        keys_unique(es),
        forall|k: int| 0 <= k < es.len() ==> well_formed(#[trigger] es[k].1),
        sort_indices(keys_of(es), es.len()).len() == es.len(),
        forall|t: int|
            0 <= t < es.len() ==> 0 <= #[trigger] sort_indices(keys_of(es), es.len())[t] < es.len(),
        forall|t1: int, t2: int|
            0 <= t1 < es.len() && 0 <= t2 < es.len() && t1 != t2 ==> #[trigger] sort_indices(
                keys_of(es),
                es.len(),
            )[t1] != #[trigger] sort_indices(keys_of(es), es.len())[t2],
        0 <= q0,
        q0 + encode_entries(es, sort_indices(keys_of(es), es.len()), es.len()).len() + 1 <= s.len(),
        s.subrange(
            q0,
            q0 + encode_entries(es, sort_indices(keys_of(es), es.len()), es.len()).len() + 1,
        ) == encode_entries(es, sort_indices(keys_of(es), es.len()), es.len()) + seq![101u8],
    ensures
        parse_entries(
            s,
            q0 + encode_entries(es, sort_indices(keys_of(es), es.len()), j).len(),
            sorted_prefix(es, j),
        ) == Some(
            (
                sorted_prefix(es, es.len()),
                q0 + encode_entries(es, sort_indices(keys_of(es), es.len()), es.len()).len() + 1,
            ),
        ),
    decreases es, es.len() - j,
{
    let n = es.len();
    let order = sort_indices(keys_of(es), n);
    let all = encode_entries(es, order, n);
    let big = all + seq![101u8];
    let q = q0 + encode_entries(es, order, j).len();
    if j == n {
        assert(s[q] == s.subrange(q0, q0 + big.len())[all.len() as int]);
    } else {
        let k = order[j as int];
        let kt = bytes_text(es[k].0);
        let e = encode_value(es[k].1);
        let part = kt + e;
        lemma_entries_prefix(es, order, (j + 1) as nat, n);
        let prev = encode_entries(es, order, j);
        assert(encode_entries(es, order, (j + 1) as nat) == prev + part);
        assert(big.subrange(prev.len() as int, (prev.len() + part.len()) as int) =~= part) by {
            assert forall|x: int| 0 <= x < part.len() implies big[prev.len() + x] == part[x] by {
                assert(big[prev.len() + x] == all[prev.len() + x]);
                assert(all[prev.len() + x] == all.subrange(0, (prev.len() + part.len()) as int)[prev.len() + x]);
                assert((prev + part)[prev.len() + x] == part[x]);
            }
        }
        lemma_sub(s, q0, big, prev.len() as int, part);
        assert(part.subrange(0, kt.len() as int) =~= kt);
        lemma_sub(s, q, part, 0, kt);
        assert(part.subrange(kt.len() as int, (kt.len() + e.len()) as int) =~= e);
        lemma_sub(s, q, part, kt.len() as int, e);
        lemma_parse_bytes_text(s, q, es[k].0);
        lemma_decimal(es[k].0.len());
        assert(s[q] == kt[0]) by {
            assert(s[q] == s.subrange(q, q + kt.len())[0]);
        }
        assert(kt[0] == decimal(es[k].0.len())[0]);
        lemma_parse_encoding(es[k].1, s, q + kt.len());
        lemma_encode_starts(es[k].1);
        let acc = sorted_prefix(es, j);
        assert(!has_key(acc, es[k].0)) by {
            if has_key(acc, es[k].0) {
                let t = choose|t: int| 0 <= t < acc.len() && (#[trigger] acc[t]).0 == es[k].0;
                assert(acc[t].0 == es[order[t]].0);
                assert(order[t] != k);
            }
        }
        assert(dict_insert(acc, es[k].0, normalize(es[k].1)) =~= sorted_prefix(es, (j + 1) as nat));
        lemma_parse_entries(es, s, q0, (j + 1) as nat);
    }
}

/// For every value that the decoder can produce, decoding its canonical
/// encoding takes the whole encoding and gives the value back, with the
/// entries of each dictionary in ascending key order.
pub proof fn lemma_round_trip(v: BValue)
    requires
        well_formed(v),
    ensures
        parse_value(encode_value(v), 0) == Some((normalize(v), encode_value(v).len() as int)),
{
    let w = encode_value(v);
    assert(w.subrange(0, w.len() as int) =~= w);
    lemma_parse_encoding(v, w, 0);
}

proof fn lemma_dict_insert_keeps(es: Seq<(Seq<u8>, BValue)>, k: Seq<u8>, v: BValue)
    requires
        keys_unique(es),
        forall|i: int| 0 <= i < es.len() ==> well_formed(#[trigger] es[i].1),
        well_formed(v),
    ensures
        keys_unique(dict_insert(es, k, v)),
        forall|i: int|
            0 <= i < dict_insert(es, k, v).len() ==> well_formed(#[trigger] dict_insert(es, k, v)[i].1),
{
    let r = dict_insert(es, k, v);
    if has_key(es, k) {
        let c = choose|c: int| 0 <= c < es.len() && (#[trigger] es[c]).0 == k;
        assert(r == es.update(c, (k, v)));
        assert forall|i: int| 0 <= i < r.len() implies well_formed(#[trigger] r[i].1) by {
            if i != c {
                assert(r[i] == es[i]);
            }
        }
        assert forall|i: int, j: int| 0 <= i < r.len() && 0 <= j < r.len() && i != j implies (
        #[trigger] r[i]).0 != (#[trigger] r[j]).0 by {
            assert(r[i].0 == es[i].0);
            assert(r[j].0 == es[j].0);
        }
    } else {
        assert forall|i: int| 0 <= i < r.len() implies well_formed(#[trigger] r[i].1) by {
            if i < es.len() {
                assert(r[i] == es[i]);
            }
        }
        assert forall|i: int, j: int| 0 <= i < r.len() && 0 <= j < r.len() && i != j implies (
        #[trigger] r[i]).0 != (#[trigger] r[j]).0 by {
            if i < es.len() && j < es.len() {
                assert(r[i] == es[i] && r[j] == es[j]);
            } else if i < es.len() {
                assert(r[i] == es[i]);
                assert(es[i].0 != k);
            } else {
                assert(r[j] == es[j]);
                assert(es[j].0 != k);
            }
        }
    }
}

/// Whatever the decoder produces is well formed.
pub proof fn lemma_parsed_well_formed(s: Seq<u8>, p: int)
    ensures
        parse_value(s, p) matches Some((v, _)) ==> well_formed(v),
    decreases s.len() - p, 0int,
{
    if 0 <= p < s.len() && !is_digit(s[p]) && s[p] != 105u8 {
        if s[p] == 108u8 {
            lemma_items_well_formed(s, p + 1, Seq::empty());
        } else if s[p] == 100u8 {
            lemma_entries_well_formed(s, p + 1, Seq::empty());
        }
    }
}

proof fn lemma_items_well_formed(s: Seq<u8>, p: int, acc: Seq<BValue>)
    requires
        forall|i: int| 0 <= i < acc.len() ==> well_formed(#[trigger] acc[i]),
    ensures
        parse_items(s, p, acc) matches Some((vs, _)) ==> forall|i: int|
            0 <= i < vs.len() ==> well_formed(#[trigger] vs[i]),
    decreases s.len() - p, 1int,
{
    if 0 <= p < s.len() && s[p] != 101u8 {
        lemma_parsed_well_formed(s, p);
        if let Some((v, q)) = parse_value(s, p) {
            if p < q <= s.len() {
                let next = acc.push(v);
                assert forall|i: int| 0 <= i < next.len() implies well_formed(#[trigger] next[i]) by {
                    if i < acc.len() {
                        assert(next[i] == acc[i]);
                    }
                }
                lemma_items_well_formed(s, q, next);
            }
        }
    }
}

proof fn lemma_entries_well_formed(s: Seq<u8>, p: int, acc: Seq<(Seq<u8>, BValue)>)
    requires
        keys_unique(acc),
        forall|i: int| 0 <= i < acc.len() ==> well_formed(#[trigger] acc[i].1),
    ensures
        parse_entries(s, p, acc) matches Some((es, _)) ==> keys_unique(es) && forall|i: int|
            0 <= i < es.len() ==> well_formed(#[trigger] es[i].1),
    decreases s.len() - p, 1int,
{
    if 0 <= p < s.len() && s[p] != 101u8 {
        if let Some((k, q)) = parse_bytes(s, p) {
            if p < q <= s.len() {
                lemma_parsed_well_formed(s, q);
                if let Some((v, r)) = parse_value(s, q) {
                    if q < r <= s.len() {
                        lemma_dict_insert_keeps(acc, k, v);
                        lemma_entries_well_formed(s, r, dict_insert(acc, k, v));
                    }
                }
            }
        }
    }
}

/// Decoding, encoding canonically and decoding again gives the first result
/// with the entries of each dictionary in ascending key order.
pub proof fn lemma_decode_encode_decode(s: Seq<u8>)
    ensures
        match parse_value(s, 0) {
            Some((v, _)) => parse_value(encode_value(v), 0) == Some(
                (normalize(v), encode_value(v).len() as int),
            ),
            None => true,
        },
{
    lemma_parsed_well_formed(s, 0);
    if let Some((v, _)) = parse_value(s, 0) {
        lemma_round_trip(v);
    }
}

} // verus!

//! Canonical bencode encoding: dictionaries are written with their keys in
//! ascending byte order, whatever order they were built in.
use vstd::prelude::*;
use vstd::std_specs::vec::axiom_vec_index_decreases;
use crate::bencode::{BValue, Value};

verus! {

broadcast use axiom_vec_index_decreases;

/// The decimal digits of `n`, most significant first.
pub open spec fn decimal(n: nat) -> Seq<u8>
    decreases n,
{
    if n < 10 {
        seq![(48 + n) as u8]
    } else {
        decimal(n / 10).push((48 + n % 10) as u8)
    }
}

/// The text of an integer: a minus sign for a negative one, then its digits.
pub open spec fn int_text(v: int) -> Seq<u8> {
    if v < 0 {
        seq![45u8] + decimal((-v) as nat)
    } else {
        decimal(v as nat)
    }
}

/// A byte string with its length prefix.
pub open spec fn bytes_text(b: Seq<u8>) -> Seq<u8> {
    decimal(b.len()) + seq![58u8] + b
}

/// Lexicographic order on byte sequences; a proper prefix comes first.
pub open spec fn lex_less(a: Seq<u8>, b: Seq<u8>) -> bool
    decreases a.len(),
{
    if a.len() == 0 {
        b.len() > 0
    } else if b.len() == 0 {
        false
    } else if a[0] != b[0] {
        a[0] < b[0]
    } else {
        lex_less(a.drop_first(), b.drop_first())
    }
}

/// Puts index `i` into `order` before the first index whose key is greater
/// than its own.
pub open spec fn insert_index(order: Seq<int>, keys: Seq<Seq<u8>>, i: int) -> Seq<int>
    decreases order.len(),
{
    if order.len() == 0 {
        seq![i]
    } else if lex_less(keys[i], keys[order[0]]) {
        seq![i] + order
    } else {
        seq![order[0]] + insert_index(order.drop_first(), keys, i)
    }
}

/// The indices `0..n` in ascending order of their keys; equal keys keep
/// their order.
pub open spec fn sort_indices(keys: Seq<Seq<u8>>, n: nat) -> Seq<int>
    decreases n,
{
    if n == 0 {
        Seq::empty()
    } else {
        insert_index(sort_indices(keys, (n - 1) as nat), keys, n - 1)
    }
}

pub open spec fn keys_of(es: Seq<(Seq<u8>, BValue)>) -> Seq<Seq<u8>> {
    Seq::new(es.len(), |i: int| es[i].0)
}

/// The canonical encoding of a value.
pub open spec fn encode_value(v: BValue) -> Seq<u8>
    decreases v, 0nat,
{
    match v {
        BValue::Int(n) => seq![105u8] + int_text(n) + seq![101u8],
        BValue::Bytes(b) => bytes_text(b),
        BValue::List(items) => seq![108u8] + encode_items(items, items.len()) + seq![101u8],
        BValue::Dict(es) => seq![100u8] + encode_entries(
            es,
            sort_indices(keys_of(es), es.len()),
            es.len(),
        ) + seq![101u8],
    }
}

/// The encodings of the first `n` items, one after another.
pub open spec fn encode_items(items: Seq<BValue>, n: nat) -> Seq<u8>
    decreases items, n,
{
    if n == 0 || n > items.len() {
        Seq::empty()
    } else {
        encode_items(items, (n - 1) as nat) + encode_value(items[n - 1])
    }
}

/// The first `n` entries of `es` taken in the order of the indices in
/// `order`, each as its key followed by its value.
pub open spec fn encode_entries(es: Seq<(Seq<u8>, BValue)>, order: Seq<int>, n: nat) -> Seq<u8>
    decreases es, n,
{
    if n == 0 || n > order.len() {
        Seq::empty()
    } else {
        let k = order[n - 1];
        encode_entries(es, order, (n - 1) as nat) + if 0 <= k < es.len() {
            bytes_text(es[k].0) + encode_value(es[k].1)
        } else {
            Seq::empty()
        }
    }
}

/// Appends the decimal digits of `n`.
fn push_decimal(out: &mut Vec<u8>, n: u64)
    ensures
        final(out)@ == old(out)@ + decimal(n as nat),
    decreases n,
{
    if n >= 10 {
        push_decimal(out, n / 10);
    }
    out.push((48 + n % 10) as u8);
    proof {
        if n < 10 {
            assert(decimal(n as nat) =~= seq![(48 + n) as u8]);
        }
    }
    assert(out@ =~= old(out)@ + decimal(n as nat));
}

/// Appends a byte string with its length prefix.
fn push_bytes_text(out: &mut Vec<u8>, b: &[u8])
    ensures
        final(out)@ == old(out)@ + bytes_text(b@),
{
    push_decimal(out, b.len() as u64);
    out.push(58);
    let ghost mid = out@;
    let mut i: usize = 0;
    while i < b.len()
        invariant
            i <= b@.len(),
            out@ == mid + b@.subrange(0, i as int),
        decreases b@.len() - i,
    {
        out.push(b[i]);
        i = i + 1;
        assert(out@ =~= mid + b@.subrange(0, i as int));
    }
    assert(b@.subrange(0, b@.len() as int) =~= b@);
    assert(out@ =~= old(out)@ + bytes_text(b@));
}

/// Whether `a` comes before `b` in lexicographic byte order.
pub fn bytes_less(a: &[u8], b: &[u8]) -> (r: bool)
    ensures
        r == lex_less(a@, b@),
{
    let mut i: usize = 0;
    assert(a@.subrange(0, a@.len() as int) =~= a@);
    assert(b@.subrange(0, b@.len() as int) =~= b@);
    while i < a.len() && i < b.len() && a[i] == b[i]
        invariant
            i <= a@.len(),
            i <= b@.len(),
            lex_less(a@, b@) == lex_less(
                a@.subrange(i as int, a@.len() as int),
                b@.subrange(i as int, b@.len() as int),
            ),
        decreases a@.len() - i,
    {
        let ghost x = a@.subrange(i as int, a@.len() as int);
        let ghost y = b@.subrange(i as int, b@.len() as int);
        assert(x.drop_first() =~= a@.subrange(i + 1, a@.len() as int));
        assert(y.drop_first() =~= b@.subrange(i + 1, b@.len() as int));
        i = i + 1;
    }
    let ghost x = a@.subrange(i as int, a@.len() as int);
    let ghost y = b@.subrange(i as int, b@.len() as int);
    if i == a.len() {
        i < b.len()
    } else if i == b.len() {
        false
    } else {
        assert(x[0] == a@[i as int] && y[0] == b@[i as int]);
        a[i] < b[i]
    }
}

proof fn lemma_insert_index(order: Seq<int>, keys: Seq<Seq<u8>>, i: int, pos: int)
    requires
        0 <= pos <= order.len(),
        forall|j: int| 0 <= j < pos ==> !lex_less(keys[i], keys[#[trigger] order[j]]),
        pos < order.len() ==> lex_less(keys[i], keys[order[pos]]),
    ensures
        insert_index(order, keys, i) == order.insert(pos, i),
    decreases order.len(),
{
    if order.len() == 0 {
        assert(order.insert(pos, i) =~= seq![i]);
    } else if pos == 0 {
        assert(order.insert(pos, i) =~= seq![i] + order);
    } else {
        let rest = order.drop_first();
        assert forall|j: int| 0 <= j < pos - 1 implies !lex_less(keys[i], keys[#[trigger] rest[j]]) by {
            assert(rest[j] == order[j + 1]);
        }
        lemma_insert_index(rest, keys, i, pos - 1);
        assert(order.insert(pos, i) =~= seq![order[0]] + rest.insert(pos - 1, i));
    }
}

/// Appends the canonical encoding of `v`.
pub fn encode_into(v: &Value, out: &mut Vec<u8>)
    ensures
        final(out)@ == old(out)@ + encode_value(v@),
    decreases v,
{
    match v {
        Value::Integer(n) => {
            out.push(105);
            if *n < 0 {
                out.push(45);
                let m: u64 = if *n == i64::MIN {
                    9223372036854775808
                } else {
                    (-*n) as u64
                };
                push_decimal(out, m);
            } else {
                push_decimal(out, *n as u64);
            }
            out.push(101);
            assert(out@ =~= old(out)@ + encode_value(v@));
        },
        Value::ByteString(b) => {
            push_bytes_text(out, b.as_slice());
        },
        Value::List(items) => {
            let ghost vs = v@->List_0;
            out.push(108);
            let ghost start = out@;
            let mut i: usize = 0;
            assert(start =~= start + encode_items(vs, 0));
            while i < items.len()
                invariant
                    i <= items@.len() == vs.len(),
                    *v == Value::List(*items),
                    vs == v@->List_0,
                    forall|k: int| 0 <= k < vs.len() ==> vs[k] == (#[trigger] items@[k])@,
                    out@ == start + encode_items(vs, i as nat),
                decreases items@.len() - i,
            {
                proof {
                    assert(decreases_to!(*v => v->List_0));
                    assert(decreases_to!(v->List_0 => v->List_0[i as int]));
                }
                encode_into(&items[i], out);
                i = i + 1;
                assert(out@ =~= start + encode_items(vs, i as nat));
            }
            out.push(101);
            assert(out@ =~= old(out)@ + encode_value(v@));
        },
        Value::Dictionary(es) => {
            let ghost ev = v@->Dict_0;
            let ghost keys = keys_of(ev);
            let n = es.len();
            let mut order: Vec<usize> = Vec::new();
            let mut i: usize = 0;
            while i < n
                invariant
                    i <= n == es@.len() == ev.len() == keys.len(),
                    ev == v@->Dict_0,
                    keys == keys_of(ev),
                    forall|k: int| 0 <= k < n ==> #[trigger] keys[k] == es@[k].0@,
                    order@.map_values(|x: usize| x as int) == sort_indices(keys, i as nat),
                    order@.len() == i,
                    forall|k: int| 0 <= k < order@.len() ==> #[trigger] order@[k] < i,
                decreases n - i,
            {
                let mut pos: usize = 0;
                while pos < order.len() && !bytes_less(
                    es[i].0.as_slice(),
                    es[order[pos]].0.as_slice(),
                )
                    invariant
                        pos <= order@.len() == i < n == es@.len() == keys.len(),
                        forall|k: int| 0 <= k < n ==> #[trigger] keys[k] == es@[k].0@,
                        forall|k: int| 0 <= k < order@.len() ==> #[trigger] order@[k] < i,
                        forall|j: int|
                            0 <= j < pos ==> !lex_less(keys[i as int], keys[#[trigger] order@[j] as int]),
                    decreases order@.len() - pos,
                {
                    pos = pos + 1;
                }
                let ghost before = order@.map_values(|x: usize| x as int);
                proof {
                    assert forall|j: int| 0 <= j < pos implies !lex_less(
                        keys[i as int],
                        keys[#[trigger] before[j]],
                    ) by {
                        assert(before[j] == order@[j] as int);
                    }
                    lemma_insert_index(before, keys, i as int, pos as int);
                }
                order.insert(pos, i);
                assert(order@.map_values(|x: usize| x as int) =~= before.insert(pos as int, i as int));
                i = i + 1;
            }
            let ghost sorted = sort_indices(keys, n as nat);
            out.push(100);
            let ghost start = out@;
            let mut j: usize = 0;
            assert(start =~= start + encode_entries(ev, sorted, 0));
            while j < n
                invariant
                    j <= n == es@.len() == ev.len() == order@.len(),
                    *v == Value::Dictionary(*es),
                    ev == v@->Dict_0,
                    sorted == sort_indices(keys_of(ev), ev.len()),
                    order@.map_values(|x: usize| x as int) == sorted,
                    forall|k: int| 0 <= k < n ==> #[trigger] ev[k] == (es@[k].0@, es@[k].1@),
                    forall|k: int| 0 <= k < n ==> #[trigger] order@[k] < n,
                    out@ == start + encode_entries(ev, sorted, j as nat),
                decreases n - j,
            {
                let k = order[j];
                assert(sorted[j as int] == k as int);
                push_bytes_text(out, es[k].0.as_slice());
                proof {
                    assert(decreases_to!(*v => v->Dictionary_0));
                    assert(decreases_to!(v->Dictionary_0 => v->Dictionary_0[k as int]));
                    assert(decreases_to!(v->Dictionary_0[k as int] => v->Dictionary_0[k as int].1));
                }
                encode_into(&es[k].1, out);
                j = j + 1;
                assert(out@ =~= start + encode_entries(ev, sorted, j as nat));
            }
            out.push(101);
            assert(out@ =~= old(out)@ + encode_value(v@));
        },
    }
}

/// The canonical encoding of `v`.
pub fn encode(v: &Value) -> (r: Vec<u8>)
    ensures
        r@ == encode_value(v@),
{
    let mut out: Vec<u8> = Vec::new();
    encode_into(v, &mut out);
    assert(out@ =~= encode_value(v@));
    out
}

} // verus!

//! The canonical DAG-CBOR encoding of a value, and the proof that decoding
//! it gives the value back.
use vstd::prelude::*;
use crate::cbor::{be_uint, has_key, head, minimal, parse, parse_entries, parse_items, pow256, text_at, text_body, utf8_text};
use crate::cid::{cid_bytes, cid_of_bytes, lemma_cid_round_trip, valid_cid};
use crate::value::{FloatBits, Value};

verus! {

broadcast use vstd::seq::axiom_seq_index_decreases, vstd::seq::axiom_seq_subrange_decreases;

/// The low `k` bytes of `n`, most significant first.
pub open spec fn be_bytes(n: nat, k: nat) -> Seq<u8>
    decreases k,
{
    if k == 0 {
        Seq::empty()
    } else {
        be_bytes(n / 256, (k - 1) as nat).push((n % 256) as u8)
    }
}

/// The shortest head of a major kind with an argument.
pub open spec fn head_bytes(major: nat, arg: nat) -> Seq<u8> {
    if arg < 24 {
        seq![(major * 32 + arg) as u8]
    } else if arg < 0x100 {
        seq![(major * 32 + 24) as u8] + be_bytes(arg, 1)
    } else if arg < 0x1_0000 {
        seq![(major * 32 + 25) as u8] + be_bytes(arg, 2)
    } else if arg < 0x1_0000_0000 {
        seq![(major * 32 + 26) as u8] + be_bytes(arg, 4)
    } else {
        seq![(major * 32 + 27) as u8] + be_bytes(arg, 8)
    }
}

/// Whether some bytes are the UTF-8 form of `t`, and fit a head.
pub open spec fn has_utf8(t: Seq<char>) -> bool {
    exists|b: Seq<u8>| utf8_text(b) == Some(t) && b.len() <= u64::MAX
}

/// UTF-8 bytes of `t` (chosen among those that decode to it).
pub open spec fn utf8_of(t: Seq<char>) -> Seq<u8> {
    choose|b: Seq<u8>| utf8_text(b) == Some(t) && b.len() <= u64::MAX
}

/// The encoding of a text string.
pub open spec fn encode_text(t: Seq<char>) -> Seq<u8> {
    head_bytes(3, utf8_of(t).len()) + utf8_of(t)
}

/// Whether a value can be written in DAG-CBOR: integers in the 65-bit range,
/// texts with a UTF-8 form, sizes that fit 64 bits, map keys distinct, and
/// links to well-shaped CIDs.
pub open spec fn representable(v: Value) -> bool
    decreases v,
{
    match v {
        Value::Integer(i) => -0x1_0000_0000_0000_0000 <= i <= u64::MAX,
        Value::Text(t) => has_utf8(t),
        Value::Bytes(b) => b.len() <= u64::MAX,
        Value::List(items) => items.len() <= u64::MAX && forall|i: int|
            0 <= i < items.len() ==> representable(#[trigger] items[i]),
        Value::Dict(es) => es.len() <= u64::MAX
            && (forall|i: int| 0 <= i < es.len() ==> has_utf8((#[trigger] es[i]).0) && representable(es[i].1))
            && (forall|i: int, j: int| 0 <= i < j < es.len() ==> (#[trigger] es[i]).0 != (#[trigger] es[j]).0),
        Value::Link(c) => valid_cid(c) && cid_bytes(c).len() + 1 <= u64::MAX,
        _ => true,
    }
}

/// The canonical encoding of a value.
pub open spec fn encode(v: Value) -> Seq<u8>
    decreases v,
{
    match v {
        Value::Null => seq![0xF6u8],
        Value::Bool(b) => seq![if b { 0xF5u8 } else { 0xF4u8 }],
        Value::Integer(i) => if i >= 0 {
            head_bytes(0, i as nat)
        } else {
            head_bytes(1, (-1 - i) as nat)
        },
        Value::Float(FloatBits::Single(x)) => seq![0xFAu8] + be_bytes(x as nat, 4),
        Value::Float(FloatBits::Double(x)) => seq![0xFBu8] + be_bytes(x as nat, 8),
        Value::Text(t) => encode_text(t),
        Value::Bytes(b) => head_bytes(2, b.len()) + b,
        Value::List(items) => head_bytes(4, items.len()) + encode_items(items),
        Value::Dict(es) => head_bytes(5, es.len()) + encode_entries(es),
        Value::Link(c) => seq![0xD8u8, 0x2Au8] + head_bytes(2, cid_bytes(c).len() + 1) + seq![0u8] + cid_bytes(c),
    }
}

/// The encodings of values, one after the other.
pub open spec fn encode_items(s: Seq<Value>) -> Seq<u8>
    decreases s,
{
    if s.len() == 0 {
        Seq::empty()
    } else {
        encode_items(s.subrange(0, s.len() - 1)) + encode(s[s.len() - 1])
    }
}

/// The encodings of map entries, each a text key and a value.
pub open spec fn encode_entries(es: Seq<(Seq<char>, Value)>) -> Seq<u8>
    decreases es,
{
    if es.len() == 0 {
        Seq::empty()
    } else {
        encode_entries(es.subrange(0, es.len() - 1)) + encode_text(es[es.len() - 1].0) + encode(es[es.len() - 1].1)
    }
}


/// The info bits of the shortest head for an argument.
pub open spec fn head_info(arg: nat) -> nat {
    if arg < 24 {
        arg
    } else if arg < 0x100 {
        24
    } else if arg < 0x1_0000 {
        25
    } else if arg < 0x1_0000_0000 {
        26
    } else {
        27
    }
}

proof fn lemma_be_bytes(n: nat, k: nat)
    requires
        n < pow256(k),
    ensures
        be_bytes(n, k).len() == k,
        be_uint(be_bytes(n, k)) == n,
    decreases k,
{
    if k > 0 {
        let p = pow256((k - 1) as nat);
        assert(n / 256 < p) by (nonlinear_arith)
            requires
                n < 256 * p,
        ;
        lemma_be_bytes(n / 256, (k - 1) as nat);
        let s = be_bytes(n, k);
        assert(s.drop_last() =~= be_bytes(n / 256, (k - 1) as nat));
    }
}

proof fn lemma_pow256_values()
    ensures
        pow256(1) == 0x100,
        pow256(2) == 0x1_0000,
        pow256(4) == 0x1_0000_0000,
        pow256(8) == 0x1_0000_0000_0000_0000,
{
    reveal_with_fuel(pow256, 9);
}

proof fn lemma_split(d: Seq<u8>, p: int, a: Seq<u8>, b: Seq<u8>)
    requires
        0 <= p,
        p + a.len() + b.len() <= d.len(),
        d.subrange(p, p + a.len() + b.len()) == a + b,
    ensures
        d.subrange(p, p + a.len()) == a,
        d.subrange(p + a.len(), p + a.len() + b.len()) == b,
{
    assert(d.subrange(p, p + a.len()) =~= (a + b).subrange(0, a.len() as int));
    assert(d.subrange(p + a.len(), p + a.len() + b.len()) =~= (a + b).subrange(a.len() as int, (a + b).len() as int));
    assert((a + b).subrange(0, a.len() as int) =~= a);
    assert((a + b).subrange(a.len() as int, (a + b).len() as int) =~= b);
}

proof fn lemma_head_read(major: nat, arg: nat, d: Seq<u8>, p: int)
    requires
        major <= 7,
        arg <= u64::MAX,
        0 <= p,
        p + head_bytes(major, arg).len() <= d.len(),
        d.subrange(p, p + head_bytes(major, arg).len()) == head_bytes(major, arg),
    ensures
        head(d, p) == Some((major, head_info(arg), arg, p + head_bytes(major, arg).len())),
        minimal(head_info(arg), arg),
{
    let hb = head_bytes(major, arg);
    let info = head_info(arg);
    lemma_pow256_values();
    assert(d[p] == hb[0]);
    assert(hb[0] == (major * 32 + info) as u8);
    assert(d[p] / 32 == major && d[p] % 32 == info) by (nonlinear_arith)
        requires
            d[p] == major * 32 + info,
            info < 32,
    ;
    if arg >= 24 {
        let n: nat = if arg < 0x100 {
            1
        } else if arg < 0x1_0000 {
            2
        } else if arg < 0x1_0000_0000 {
            4
        } else {
            8
        };
        lemma_be_bytes(arg, n);
        assert(hb == seq![hb[0]] + be_bytes(arg, n));
        assert(d.subrange(p + 1, p + 1 + n) =~= hb.subrange(1, 1 + n as int));
        assert(hb.subrange(1, 1 + n as int) =~= be_bytes(arg, n));
    }
}

proof fn lemma_text_read(t: Seq<char>, d: Seq<u8>, p: int)
    requires
        has_utf8(t),
        0 <= p,
        p + encode_text(t).len() <= d.len(),
        d.subrange(p, p + encode_text(t).len()) == encode_text(t),
    ensures
        text_at(d, p) == Some((t, p + encode_text(t).len())),
{
    let u = utf8_of(t);
    let hb = head_bytes(3, u.len());
    lemma_split(d, p, hb, u);
    lemma_head_read(3, u.len(), d, p);
    assert(text_body(d, p + hb.len(), u.len()) == Some((t, p + hb.len() + u.len())));
}

proof fn lemma_link_encode(c: crate::value::CidModel, d: Seq<u8>, p: int)
    requires
        representable(Value::Link(c)),
        0 <= p,
        p + encode(Value::Link(c)).len() <= d.len(),
        d.subrange(p, p + encode(Value::Link(c)).len()) == encode(Value::Link(c)),
    ensures
        parse(d, p) == Some((Value::Link(c), p + encode(Value::Link(c)).len())),
{
    let e = encode(Value::Link(c));
    let cb = cid_bytes(c);
    let tag = seq![0xD8u8, 0x2Au8];
    let hb = head_bytes(2, cb.len() + 1);
    assert(be_bytes(0, 0) =~= Seq::<u8>::empty());
    assert(be_bytes(42, 1) =~= seq![42u8]);
    assert(head_bytes(6, 42) =~= tag);
    assert(e =~= tag + (hb + (seq![0u8] + cb)));
    lemma_split(d, p, tag, hb + (seq![0u8] + cb));
    lemma_head_read(6, 42, d, p);
    let q = p + 2;
    lemma_split(d, q, hb, seq![0u8] + cb);
    lemma_head_read(2, cb.len() + 1, d, q);
    let r = q + hb.len();
    lemma_split(d, r, seq![0u8], cb);
    assert(d[r] == d.subrange(r, r + 1)[0]);
    lemma_cid_round_trip(c);
    assert(cid_of_bytes(d.subrange(r + 1, r + cb.len() + 1)) == Some(c));
}

proof fn lemma_integer_encode(i: int, d: Seq<u8>, p: int)
    requires
        -0x1_0000_0000_0000_0000 <= i <= u64::MAX,
        0 <= p,
        p + encode(Value::Integer(i)).len() <= d.len(),
        d.subrange(p, p + encode(Value::Integer(i)).len()) == encode(Value::Integer(i)),
    ensures
        parse(d, p) == Some((Value::Integer(i), p + encode(Value::Integer(i)).len())),
{
    let e = encode(Value::Integer(i));
    if i >= 0 {
        let a = i as nat;
        lemma_head_read(0, a, d, p);
        assert(e == head_bytes(0, a));
    } else {
        let a = (-1 - i) as nat;
        lemma_head_read(1, a, d, p);
        assert(e == head_bytes(1, a));
    }
}

/// Decoding the canonical encoding of a representable value gives the value
/// back, wherever the encoding stands and whatever follows it.
#[verifier::rlimit(40)]
pub proof fn lemma_parse_encode(v: Value, d: Seq<u8>, p: int)
    requires
        representable(v),
        0 <= p,
        p + encode(v).len() <= d.len(),
        d.subrange(p, p + encode(v).len()) == encode(v),
    ensures
        parse(d, p) == Some((v, p + encode(v).len())),
    decreases v,
{
    let e = encode(v);
    lemma_pow256_values();
    match v {
        Value::Integer(i) => {
            lemma_integer_encode(i, d, p);
        },
        Value::Float(FloatBits::Single(x)) => {
            lemma_be_bytes(x as nat, 4);
            lemma_split(d, p, seq![0xFAu8], be_bytes(x as nat, 4));
            assert(d[p] == d.subrange(p, p + 1)[0]);
            assert(d[p] == 0xFA);
            assert(head(d, p) == Some((7nat, 26nat, x as nat, p + 5)));
        },
        Value::Float(FloatBits::Double(x)) => {
            lemma_be_bytes(x as nat, 8);
            lemma_split(d, p, seq![0xFBu8], be_bytes(x as nat, 8));
            assert(d[p] == d.subrange(p, p + 1)[0]);
            assert(d[p] == 0xFB);
            assert(head(d, p) == Some((7nat, 27nat, x as nat, p + 9)));
        },
        Value::Text(t) => {
            let u = utf8_of(t);
            let hb = head_bytes(3, u.len());
            lemma_split(d, p, hb, u);
            lemma_head_read(3, u.len(), d, p);
        },
        Value::Bytes(b) => {
            let hb = head_bytes(2, b.len());
            lemma_split(d, p, hb, b);
            lemma_head_read(2, b.len(), d, p);
        },
        Value::List(items) => {
            let hb = head_bytes(4, items.len());
            lemma_split(d, p, hb, encode_items(items));
            lemma_head_read(4, items.len(), d, p);
            lemma_items_encode(items, d, p + hb.len());
        },
        Value::Dict(es) => {
            let hb = head_bytes(5, es.len());
            lemma_split(d, p, hb, encode_entries(es));
            lemma_head_read(5, es.len(), d, p);
            lemma_entries_encode(es, d, p + hb.len());
        },
        Value::Link(c) => {
            lemma_link_encode(c, d, p);
        },
        Value::Null => {
            assert(d[p] == d.subrange(p, p + 1)[0]);
            assert(d[p] == 0xF6);
            assert(head(d, p) == Some((7nat, 22nat, 22nat, p + 1)));
        },
        Value::Bool(b) => {
            assert(d[p] == d.subrange(p, p + 1)[0]);
            if b {
                assert(head(d, p) == Some((7nat, 21nat, 21nat, p + 1)));
            } else {
                assert(head(d, p) == Some((7nat, 20nat, 20nat, p + 1)));
            }
        },
    }
}

proof fn lemma_items_encode(s: Seq<Value>, d: Seq<u8>, q: int)
    requires
        forall|i: int| 0 <= i < s.len() ==> representable(#[trigger] s[i]),
        0 <= q,
        q + encode_items(s).len() <= d.len(),
        d.subrange(q, q + encode_items(s).len()) == encode_items(s),
    ensures
        parse_items(d, q, s.len()) == Some((s, q + encode_items(s).len())),
    decreases s,
{
    if s.len() == 0 {
        assert(s =~= Seq::<Value>::empty());
    } else {
        let t = s.subrange(0, s.len() - 1);
        let last = s[s.len() - 1];
        assert forall|i: int| 0 <= i < t.len() implies representable(#[trigger] t[i]) by {
            assert(t[i] == s[i]);
        }
        lemma_split(d, q, encode_items(t), encode(last));
        lemma_items_encode(t, d, q);
        let q2 = q + encode_items(t).len();
        lemma_parse_encode(last, d, q2);
        assert(t.len() == (s.len() - 1) as nat);
        assert(t.push(last) =~= s);
    }
}

proof fn lemma_entries_encode(es: Seq<(Seq<char>, Value)>, d: Seq<u8>, q: int)
    requires
        forall|i: int| 0 <= i < es.len() ==> has_utf8((#[trigger] es[i]).0) && representable(es[i].1),
        forall|i: int, j: int| 0 <= i < j < es.len() ==> (#[trigger] es[i]).0 != (#[trigger] es[j]).0,
        0 <= q,
        q + encode_entries(es).len() <= d.len(),
        d.subrange(q, q + encode_entries(es).len()) == encode_entries(es),
    ensures
        parse_entries(d, q, es.len()) == Some((es, q + encode_entries(es).len())),
    decreases es,
{
    if es.len() == 0 {
        assert(es =~= Seq::<(Seq<char>, Value)>::empty());
    } else {
        let n = es.len() - 1;
        let t = es.subrange(0, n);
        let (k, v) = es[n];
        assert forall|i: int| 0 <= i < t.len() implies has_utf8((#[trigger] t[i]).0) && representable(t[i].1) by {
            assert(t[i] == es[i]);
        }
        assert forall|i: int, j: int| 0 <= i < j < t.len() implies (#[trigger] t[i]).0 != (#[trigger] t[j]).0 by {
            assert(t[i] == es[i] && t[j] == es[j]);
        }
        let et = encode_entries(t);
        let ek = encode_text(k);
        let ev = encode(v);
        assert(encode_entries(es) == et + ek + ev);
        lemma_split(d, q, et + ek, ev);
        lemma_split(d, q, et, ek);
        lemma_entries_encode(t, d, q);
        let q2 = q + et.len();
        lemma_text_read(k, d, q2);
        let r = q2 + ek.len();
        lemma_parse_encode(v, d, r);
        assert(!has_key(t, k)) by {
            if has_key(t, k) {
                let i = choose|i: int| 0 <= i < t.len() && (#[trigger] t[i]).0 == k;
                assert(t[i] == es[i]);
                assert(es[i].0 != es[n].0);
            }
        }
        assert(t.len() == n as nat);
        assert(t.push((k, v)) =~= es);
    }
}

/// Decoding the canonical encoding of a representable value, as the whole
/// input, gives the value back and consumes the whole encoding.
pub proof fn lemma_round_trip(v: Value)
    requires
        representable(v),
    ensures
        parse(encode(v), 0) == Some((v, encode(v).len() as int)),
{
    assert(encode(v).subrange(0, encode(v).len() as int) =~= encode(v));
    lemma_parse_encode(v, encode(v), 0);
}

} // verus!

//! DAG-CBOR: the head reader and the recursive descent parser.
use vstd::prelude::*;
use crate::cid::{cid_of_bytes, cid_from_bytes, copy_range};
use crate::value::{FloatBits, Ipld, Value};

verus! {

/// The CBOR tag that marks a content identifier.
pub const CID_TAG: u64 = 42;

/// Big-endian unsigned integer of a byte sequence.
pub open spec fn be_uint(s: Seq<u8>) -> nat
    decreases s.len(),
{
    if s.len() == 0 {
        0
    } else {
        be_uint(s.drop_last()) * 256 + s.last() as nat
    }
}

/// 256 to the power `k`.
pub open spec fn pow256(k: nat) -> nat
    decreases k,
{
    if k == 0 {
        1
    } else {
        256 * pow256((k - 1) as nat)
    }
}

/// Number of argument bytes that follow an initial byte with this `info`;
/// `None` for the reserved values 28 to 30 and the indefinite length 31.
pub open spec fn arg_len(info: nat) -> Option<nat> {
    if info < 24 {
        Some(0)
    } else if info == 24 {
        Some(1)
    } else if info == 25 {
        Some(2)
    } else if info == 26 {
        Some(4)
    } else if info == 27 {
        Some(8)
    } else {
        None
    }
}

/// The CBOR head at `p`: major kind, info bits, argument and the position after it.
pub open spec fn head(data: Seq<u8>, p: int) -> Option<(nat, nat, nat, int)> {
    if p < 0 || p >= data.len() {
        None
    } else {
        let major = (data[p] / 32) as nat;
        let info = (data[p] % 32) as nat;
        match arg_len(info) {
            None => None,
            Some(n) => if p + 1 + n > data.len() {
                None
            } else if info < 24 {
                Some((major, info, info, p + 1))
            } else {
                Some((major, info, be_uint(data.subrange(p + 1, p + 1 + n)), p + 1 + n))
            },
        }
    }
}

/// Whether an argument is written in the shortest form CBOR allows.
pub open spec fn minimal(info: nat, arg: nat) -> bool {
    if info == 24 {
        arg >= 24
    } else if info == 25 {
        arg >= 0x100
    } else if info == 26 {
        arg >= 0x1_0000
    } else if info == 27 {
        arg >= 0x1_0000_0000
    } else {
        true
    }
}

/// Names the outcome of UTF-8 decoding: the characters, or `None` on ill-formed input.
pub uninterp spec fn utf8_text(b: Seq<u8>) -> Option<Seq<char>>;

/// The value of a major kind 7 head: false, true, null, or a single or double float.
pub open spec fn simple_value(info: nat, arg: nat) -> Option<Value> {
    if info == 20 {
        Some(Value::Bool(false))
    } else if info == 21 {
        Some(Value::Bool(true))
    } else if info == 22 {
        Some(Value::Null)
    } else if info == 26 {
        Some(Value::Float(FloatBits::Single(arg as u32)))
    } else if info == 27 {
        Some(Value::Float(FloatBits::Double(arg as u64)))
    } else {
        None
    }
}

/// A text string whose head ends at `q` with length `n`.
pub open spec fn text_body(data: Seq<u8>, q: int, n: nat) -> Option<(Seq<char>, int)> {
    if q + n > data.len() {
        None
    } else {
        match utf8_text(data.subrange(q, q + n)) {
            Some(t) => Some((t, q + n)),
            None => None,
        }
    }
}

/// A text string at `p`, as a map key must be.
pub open spec fn text_at(data: Seq<u8>, p: int) -> Option<(Seq<char>, int)> {
    match head(data, p) {
        Some((major, info, arg, q)) => if major == 3 && minimal(info, arg) {
            text_body(data, q, arg)
        } else {
            None
        },
        None => None,
    }
}

/// A link whose tag head ends at `q`: a byte string holding 0x00 and a binary CID.
pub open spec fn link_at(data: Seq<u8>, q: int) -> Option<(Value, int)> {
    match head(data, q) {
        Some((major, info, n, r)) => if major == 2 && minimal(info, n) && 1 <= n && r + n <= data.len()
            && data[r] == 0 {
            match cid_of_bytes(data.subrange(r + 1, r + n)) {
                Some(c) => Some((Value::Link(c), r + n)),
                None => None,
            }
        } else {
            None
        },
        None => None,
    }
}

/// The DAG-CBOR value at `p` and the position after it.
pub open spec fn parse(data: Seq<u8>, p: int) -> Option<(Value, int)>
    decreases data.len() - p, 0int,
{
    if p < 0 || p > data.len() {
        None
    } else {
        match head(data, p) {
            None => None,
            Some((major, info, arg, q)) => if major == 7 {
                match simple_value(info, arg) {
                    Some(v) => Some((v, q)),
                    None => None,
                }
            } else if !minimal(info, arg) {
                None
            } else if major == 0 {
                Some((Value::Integer(arg as int), q))
            } else if major == 1 {
                Some((Value::Integer(-1 - arg), q))
            } else if major == 2 {
                if q + arg <= data.len() {
                    Some((Value::Bytes(data.subrange(q, q + arg)), q + arg))
                } else {
                    None
                }
            } else if major == 3 {
                match text_body(data, q, arg) {
                    Some((t, e)) => Some((Value::Text(t), e)),
                    None => None,
                }
            } else if major == 4 {
                match parse_items(data, q, arg) {
                    Some((items, e)) => Some((Value::List(items), e)),
                    None => None,
                }
            } else if major == 5 {
                match parse_entries(data, q, arg) {
                    Some((entries, e)) => Some((Value::Dict(entries), e)),
                    None => None,
                }
            } else if arg == CID_TAG {
                link_at(data, q)
            } else {
                None
            }
        }
    }
}

/// `n` values, one after the other, from `p`.
pub open spec fn parse_items(data: Seq<u8>, p: int, n: nat) -> Option<(Seq<Value>, int)>
    decreases data.len() - p, n + 1,
{
    if p < 0 || p > data.len() {
        None
    } else if n == 0 {
        Some((Seq::empty(), p))
    } else {
        match parse_items(data, p, (n - 1) as nat) {
            None => None,
            Some((items, q)) => if q < p || q > data.len() {
                None
            } else {
                match parse(data, q) {
                    Some((v, e)) => Some((items.push(v), e)),
                    None => None,
                }
            },
        }
    }
}

/// Whether `k` is a key of `entries`.
pub open spec fn has_key(entries: Seq<(Seq<char>, Value)>, k: Seq<char>) -> bool {
    exists|i: int| 0 <= i < entries.len() && (#[trigger] entries[i]).0 == k
}

/// `n` map entries from `p`: each a text key and a value, with no key twice.
pub open spec fn parse_entries(data: Seq<u8>, p: int, n: nat) -> Option<(Seq<(Seq<char>, Value)>, int)>
    decreases data.len() - p, n + 1,
{
    if p < 0 || p > data.len() {
        None
    } else if n == 0 {
        Some((Seq::empty(), p))
    } else {
        match parse_entries(data, p, (n - 1) as nat) {
            None => None,
            Some((entries, q)) => if q < p || q > data.len() {
                None
            } else {
                match text_at(data, q) {
                    None => None,
                    Some((k, r)) => if has_key(entries, k) || r > data.len() {
                        None
                    } else {
                        match parse(data, r) {
                            Some((v, e)) => Some((entries.push((k, v)), e)),
                            None => None,
                        }
                    },
                }
            },
        }
    }
}


/// Relies on String::from_utf8: the text of well-formed UTF-8 bytes, an error otherwise.
#[verifier::external_body]
fn utf8_decode(b: Vec<u8>) -> (r: Option<String>)
    ensures
        match r {
            Some(s) => utf8_text(b@) == Some(s@),
            None => utf8_text(b@) is None,
        },
{
    String::from_utf8(b).ok()
}

proof fn lemma_pow256_bounded(k: nat)
    requires
        k <= 8,
    ensures
        pow256(k) <= 0x1_0000_0000_0000_0000,
    decreases 8 - k,
{
    if k < 8 {
        lemma_pow256_bounded(k + 1);
    } else {
        reveal_with_fuel(pow256, 9);
    }
}

/// Reads `n` bytes from `p` as a big-endian integer.
fn read_be(data: &[u8], p: usize, n: usize) -> (r: u64)
    requires
        n <= 8,
        p + n <= data@.len(),
    ensures
        r as nat == be_uint(data@.subrange(p as int, p + n)),
{
    let mut acc: u64 = 0;
    let mut i: usize = p;
    let len = data.len();
    let end = p + n;
    while i < end
        invariant
            end == p + n,
            p <= i <= p + n <= data@.len(),
            n <= 8,
            acc as nat == be_uint(data@.subrange(p as int, i as int)),
            acc < pow256((i - p) as nat),
        decreases p + n - i,
    {
        proof {
            lemma_pow256_bounded((i + 1 - p) as nat);
            assert(data@.subrange(p as int, i + 1).drop_last() =~= data@.subrange(p as int, i as int));
        }
        acc = acc * 256 + data[i] as u64;
        i += 1;
    }
    acc
}

/// Reads the CBOR head at `p`.
pub fn read_head(data: &[u8], p: usize) -> (r: Option<(u8, u8, u64, usize)>)
    ensures
        match r {
            None => head(data@, p as int) is None,
            Some((m, i, a, q)) => head(data@, p as int) == Some((m as nat, i as nat, a as nat, q as int))
                && p < q <= data@.len(),
        },
{
    if p >= data.len() {
        return None;
    }
    let b = data[p];
    let major = b / 32;
    let info = b % 32;
    if info < 24 {
        return Some((major, info, info as u64, p + 1));
    }
    let n: usize = if info == 24 {
        1
    } else if info == 25 {
        2
    } else if info == 26 {
        4
    } else if info == 27 {
        8
    } else {
        return None;
    };
    if data.len() - (p + 1) < n {
        return None;
    }
    let arg = read_be(data, p + 1, n);
    Some((major, info, arg, p + 1 + n))
}

fn is_minimal(info: u8, arg: u64) -> (r: bool)
    ensures
        r == minimal(info as nat, arg as nat),
{
    if info == 24 {
        arg >= 24
    } else if info == 25 {
        arg >= 0x100
    } else if info == 26 {
        arg >= 0x1_0000
    } else if info == 27 {
        arg >= 0x1_0000_0000
    } else {
        true
    }
}

/// Reads a text string of `n` bytes that starts at `q`.
fn read_text_body(data: &[u8], q: usize, n: u64) -> (r: Option<(String, usize)>)
    requires
        q <= data@.len(),
    ensures
        match r {
            None => text_body(data@, q as int, n as nat) is None,
            Some((t, e)) => text_body(data@, q as int, n as nat) == Some((t@, e as int)) && q <= e <= data@.len(),
        },
{
    if n > (data.len() - q) as u64 {
        return None;
    }
    let e = q + n as usize;
    match utf8_decode(copy_range(data, q, e)) {
        Some(t) => Some((t, e)),
        None => None,
    }
}

/// Reads the text string at `p`.
fn read_text(data: &[u8], p: usize) -> (r: Option<(String, usize)>)
    ensures
        match r {
            None => text_at(data@, p as int) is None,
            Some((t, e)) => text_at(data@, p as int) == Some((t@, e as int)) && p < e <= data@.len(),
        },
{
    match read_head(data, p) {
        Some((major, info, arg, q)) => if major == 3 && is_minimal(info, arg) {
            read_text_body(data, q, arg)
        } else {
            None
        },
        None => None,
    }
}

/// Reads a link whose tag head ends at `q`.
fn read_link(data: &[u8], q: usize) -> (r: Option<(Ipld, usize)>)
    ensures
        match r {
            None => link_at(data@, q as int) is None,
            Some((v, e)) => link_at(data@, q as int) == Some((v.model(), e as int)) && q < e <= data@.len(),
        },
{
    match read_head(data, q) {
        Some((major, info, n, r)) => {
            if major == 2 && is_minimal(info, n) && 1 <= n && n <= (data.len() - r) as u64 && data[r] == 0 {
                let body = copy_range(data, r + 1, r + n as usize);
                match cid_from_bytes(body.as_slice()) {
                    Some(c) => Some((Ipld::Link(c), r + n as usize)),
                    None => None,
                }
            } else {
                None
            }
        },
        None => None,
    }
}

proof fn lemma_items_fail(data: Seq<u8>, p: int, i: nat, n: nat)
    requires
        parse_items(data, p, i) is None,
        i <= n,
    ensures
        parse_items(data, p, n) is None,
    decreases n,
{
    if n > i {
        lemma_items_fail(data, p, i, (n - 1) as nat);
    }
}

proof fn lemma_entries_fail(data: Seq<u8>, p: int, i: nat, n: nat)
    requires
        parse_entries(data, p, i) is None,
        i <= n,
    ensures
        parse_entries(data, p, n) is None,
    decreases n,
{
    if n > i {
        lemma_entries_fail(data, p, i, (n - 1) as nat);
    }
}

/// Reads `n` values one after the other from `q`.
fn read_items(data: &[u8], q: usize, n: u64) -> (r: Option<(Vec<Ipld>, usize)>)
    requires
        q <= data@.len(),
    ensures
        match r {
            None => parse_items(data@, q as int, n as nat) is None,
            Some((items, e)) => q <= e <= data@.len() && match parse_items(data@, q as int, n as nat) {
                Some((ms, e2)) => e2 == e && items@.len() == ms.len()
                    && forall|j: int| 0 <= j < ms.len() ==> (#[trigger] items@[j]).model() == ms[j],
                None => false,
            },
        },
    decreases data@.len() - q, 1int,
{
    let mut items: Vec<Ipld> = Vec::new();
    let mut pos: usize = q;
    let mut i: u64 = 0;
    let ghost mut ms: Seq<Value> = Seq::empty();
    while i < n
        invariant
            q <= pos <= data@.len(),
            i <= n,
            parse_items(data@, q as int, i as nat) == Some((ms, pos as int)),
            items@.len() == ms.len(),
            forall|j: int| 0 <= j < ms.len() ==> (#[trigger] items@[j]).model() == ms[j],
        decreases n - i,
    {
        match parse_value(data, pos) {
            None => {
                proof {
                    lemma_items_fail(data@, q as int, (i + 1) as nat, n as nat);
                }
                return None;
            },
            Some((v, e)) => {
                proof {
                    ms = ms.push(v.model());
                }
                items.push(v);
                pos = e;
                i += 1;
            },
        }
    }
    Some((items, pos))
}

/// Reads `n` map entries from `q`, refusing a key that comes twice.
fn read_entries(data: &[u8], q: usize, n: u64) -> (r: Option<(Vec<(String, Ipld)>, usize)>)
    requires
        q <= data@.len(),
    ensures
        match r {
            None => parse_entries(data@, q as int, n as nat) is None,
            Some((entries, e)) => q <= e <= data@.len() && match parse_entries(data@, q as int, n as nat) {
                Some((ms, e2)) => e2 == e && entries@.len() == ms.len()
                    && forall|j: int| 0 <= j < ms.len() ==> (#[trigger] entries@[j]).0@ == ms[j].0
                        && entries@[j].1.model() == ms[j].1,
                None => false,
            },
        },
    decreases data@.len() - q, 1int,
{
    let mut entries: Vec<(String, Ipld)> = Vec::new();
    let mut pos: usize = q;
    let mut i: u64 = 0;
    let ghost mut ms: Seq<(Seq<char>, Value)> = Seq::empty();
    while i < n
        invariant
            q <= pos <= data@.len(),
            i <= n,
            parse_entries(data@, q as int, i as nat) == Some((ms, pos as int)),
            entries@.len() == ms.len(),
            forall|j: int| 0 <= j < ms.len() ==> (#[trigger] entries@[j]).0@ == ms[j].0
                && entries@[j].1.model() == ms[j].1,
        decreases n - i,
    {
        let (key, r) = match read_text(data, pos) {
            None => {
                proof {
                    lemma_entries_fail(data@, q as int, (i + 1) as nat, n as nat);
                }
                return None;
            },
            Some(x) => x,
        };
        let mut j: usize = 0;
        while j < entries.len()
            invariant
                j <= entries@.len() == ms.len(),
                q <= pos <= data@.len(),
                i < n,
                parse_entries(data@, q as int, i as nat) == Some((ms, pos as int)),
                text_at(data@, pos as int) == Some((key@, r as int)),
                forall|t: int| 0 <= t < ms.len() ==> (#[trigger] entries@[t]).0@ == ms[t].0,
                forall|t: int| 0 <= t < j ==> ms[t].0 != key@,
            decreases entries@.len() - j,
        {
            if entries[j].0 == key {
                proof {
                    assert(entries@[j as int].0@ == ms[j as int].0);
                    assert(has_key(ms, key@));
                    lemma_entries_fail(data@, q as int, (i + 1) as nat, n as nat);
                }
                return None;
            }
            j += 1;
        }
        proof {
            assert(!has_key(ms, key@));
        }
        match parse_value(data, r) {
            None => {
                proof {
                    assert(text_at(data@, pos as int) == Some((key@, r as int)));
                    assert(parse(data@, r as int) is None);
                    assert(parse_entries(data@, q as int, (i + 1) as nat) is None);
                    lemma_entries_fail(data@, q as int, (i + 1) as nat, n as nat);
                }
                return None;
            },
            Some((v, e)) => {
                proof {
                    ms = ms.push((key@, v.model()));
                }
                entries.push((key, v));
                pos = e;
                i += 1;
            },
        }
    }
    Some((entries, pos))
}

/// Reads the DAG-CBOR value at `p` (see `parse`).
pub fn parse_value(data: &[u8], p: usize) -> (r: Option<(Ipld, usize)>)
    ensures
        match r {
            None => parse(data@, p as int) is None,
            Some((v, e)) => parse(data@, p as int) == Some((v.model(), e as int)) && p < e <= data@.len(),
        },
    decreases data@.len() - p, 0int,
{
    if p > data.len() {
        return None;
    }
    let (major, info, arg, q) = match read_head(data, p) {
        None => return None,
        Some(h) => h,
    };
    if major == 7 {
        return if info == 20 {
            Some((Ipld::Bool(false), q))
        } else if info == 21 {
            Some((Ipld::Bool(true), q))
        } else if info == 22 {
            Some((Ipld::Null, q))
        } else if info == 26 {
            Some((Ipld::Float(FloatBits::Single(arg as u32)), q))
        } else if info == 27 {
            Some((Ipld::Float(FloatBits::Double(arg)), q))
        } else {
            None
        };
    }
    if !is_minimal(info, arg) {
        return None;
    }
    if major == 0 {
        Some((Ipld::Integer(arg as i128), q))
    } else if major == 1 {
        Some((Ipld::Integer(-1 - arg as i128), q))
    } else if major == 2 {
        if arg > (data.len() - q) as u64 {
            return None;
        }
        let e = q + arg as usize;
        Some((Ipld::Bytes(copy_range(data, q, e)), e))
    } else if major == 3 {
        match read_text_body(data, q, arg) {
            Some((t, e)) => Some((Ipld::String(t), e)),
            None => None,
        }
    } else if major == 4 {
        match read_items(data, q, arg) {
            Some((items, e)) => {
                let ghost ms = parse_items(data@, q as int, arg as nat).unwrap().0;
                let v = Ipld::List(items);
                proof {
                    assert(v.model()->List_0 =~= ms);
                }
                Some((v, e))
            },
            None => None,
        }
    } else if major == 5 {
        match read_entries(data, q, arg) {
            Some((entries, e)) => {
                let ghost ms = parse_entries(data@, q as int, arg as nat).unwrap().0;
                let v = Ipld::Dict(entries);
                proof {
                    assert(v.model()->Dict_0 =~= ms);
                }
                Some((v, e))
            },
            None => None,
        }
    } else if arg == CID_TAG {
        read_link(data, q)
    } else {
        None
    }
}


/// Whether `a` and `b` both hold at least `e` bytes and agree on the first `e`.
pub open spec fn same_upto(a: Seq<u8>, b: Seq<u8>, e: int) -> bool {
    0 <= e <= a.len() && e <= b.len() && forall|i: int| 0 <= i < e ==> a[i] == b[i]
}

proof fn lemma_same_subrange(a: Seq<u8>, b: Seq<u8>, e: int, x: int, y: int)
    requires
        same_upto(a, b, e),
        0 <= x <= y <= e,
    ensures
        a.subrange(x, y) == b.subrange(x, y),
{
    assert(a.subrange(x, y) =~= b.subrange(x, y));
}

/// A head ends after its start and within the input.
pub proof fn lemma_head_bounds(data: Seq<u8>, p: int)
    ensures
        head(data, p) matches Some((_, _, _, q)) ==> p < q <= data.len(),
{
}

proof fn lemma_head_same(a: Seq<u8>, b: Seq<u8>, p: int, e: int)
    requires
        same_upto(a, b, e),
        head(a, p) matches Some((_, _, _, q)) && q <= e,
    ensures
        head(b, p) == head(a, p),
{
    let (_, _, _, q) = head(a, p)->0;
    lemma_same_subrange(a, b, e, p + 1, q);
}

/// A value ends after its start and within the input.
pub proof fn lemma_parse_bounds(data: Seq<u8>, p: int)
    ensures
        parse(data, p) matches Some((_, e)) ==> p < e <= data.len(),
    decreases data.len() - p, 0int,
{
    if 0 <= p <= data.len() {
        if let Some((major, info, arg, q)) = head(data, p) {
            if major == 4 {
                lemma_items_bounds(data, q, arg);
            } else if major == 5 {
                lemma_entries_bounds(data, q, arg);
            } else if major == 6 {
                lemma_head_bounds(data, q);
            }
        }
    }
}

proof fn lemma_items_bounds(data: Seq<u8>, p: int, n: nat)
    ensures
        parse_items(data, p, n) matches Some((_, e)) ==> p <= e <= data.len(),
    decreases data.len() - p, n + 1,
{
    if 0 <= p <= data.len() && n > 0 {
        lemma_items_bounds(data, p, (n - 1) as nat);
        if let Some((_, q)) = parse_items(data, p, (n - 1) as nat) {
            if p <= q <= data.len() {
                lemma_parse_bounds(data, q);
            }
        }
    }
}

proof fn lemma_entries_bounds(data: Seq<u8>, p: int, n: nat)
    ensures
        parse_entries(data, p, n) matches Some((_, e)) ==> p <= e <= data.len(),
    decreases data.len() - p, n + 1,
{
    if 0 <= p <= data.len() && n > 0 {
        lemma_entries_bounds(data, p, (n - 1) as nat);
        if let Some((_, q)) = parse_entries(data, p, (n - 1) as nat) {
            if p <= q <= data.len() {
                if let Some((_, r)) = text_at(data, q) {
                    lemma_head_bounds(data, q);
                    if r <= data.len() {
                        lemma_parse_bounds(data, r);
                    }
                }
            }
        }
    }
}

/// A value is decided by the bytes up to its end: any input that agrees with
/// `a` that far decodes to the same value at `p`.
pub proof fn lemma_parse_same(a: Seq<u8>, b: Seq<u8>, p: int, e: int)
    requires
        same_upto(a, b, e),
        parse(a, p) matches Some((_, q)) && q <= e,
    ensures
        parse(b, p) == parse(a, p),
    decreases a.len() - p, 0int,
{
    let (major, info, arg, q) = head(a, p)->0;
    lemma_items_bounds(a, q, arg);
    lemma_entries_bounds(a, q, arg);
    lemma_head_bounds(a, q);
    lemma_head_same(a, b, p, e);
    if major == 2 || major == 3 {
        if q + arg <= e {
            lemma_same_subrange(a, b, e, q, q + arg);
        }
    } else if major == 4 {
        lemma_items_same(a, b, q, arg, e);
    } else if major == 5 {
        lemma_entries_same(a, b, q, arg, e);
    } else if major == 6 {
        let (m2, i2, n2, r2) = head(a, q)->0;
        lemma_head_same(a, b, q, e);
        lemma_same_subrange(a, b, e, r2 + 1, r2 + n2);
    }
}

proof fn lemma_items_same(a: Seq<u8>, b: Seq<u8>, p: int, n: nat, e: int)
    requires
        same_upto(a, b, e),
        parse_items(a, p, n) matches Some((_, q)) && q <= e,
    ensures
        parse_items(b, p, n) == parse_items(a, p, n),
    decreases a.len() - p, n + 1,
{
    if n > 0 {
        let (_, q) = parse_items(a, p, (n - 1) as nat)->0;
        lemma_parse_bounds(a, q);
        lemma_items_same(a, b, p, (n - 1) as nat, e);
        lemma_parse_same(a, b, q, e);
    }
}

proof fn lemma_entries_same(a: Seq<u8>, b: Seq<u8>, p: int, n: nat, e: int)
    requires
        same_upto(a, b, e),
        parse_entries(a, p, n) matches Some((_, q)) && q <= e,
    ensures
        parse_entries(b, p, n) == parse_entries(a, p, n),
    decreases a.len() - p, n + 1,
{
    if n > 0 {
        let (_, q) = parse_entries(a, p, (n - 1) as nat)->0;
        let (k, r) = text_at(a, q)->0;
        let (_, _, arg, q2) = head(a, q)->0;
        lemma_head_bounds(a, q);
        lemma_parse_bounds(a, r);
        lemma_entries_same(a, b, p, (n - 1) as nat, e);
        lemma_head_same(a, b, q, e);
        lemma_same_subrange(a, b, e, q2, q2 + arg);
        lemma_parse_same(a, b, r, e);
    }
}

} // verus!

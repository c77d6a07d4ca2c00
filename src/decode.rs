//! The four entry points: one DAG-CBOR value, many, a CID string, a CAR archive.
use vstd::prelude::*;
use crate::car::{blocks_model, car_of, read_car, CarArchive};
use crate::cbor::{lemma_parse_bounds, lemma_parse_same, parse, parse_value, same_upto};
use crate::cid::{cid_from_text, cid_of_text};
use crate::value::{Cid, Ipld, Value};

verus! {

/// What went wrong while decoding.
#[derive(Clone, Copy, Debug, PartialEq, Eq, Structural)]
pub enum DecodeError {
    MalformedCbor,
    MalformedCid,
    MalformedCar,
}

impl DecodeError {
    /// A short description of the error.
    pub fn description(&self) -> &'static str {
        match self {
            DecodeError::MalformedCbor => "malformed DAG-CBOR",
            DecodeError::MalformedCid => "malformed CID",
            DecodeError::MalformedCar => "malformed CAR header",
        }
    }
}

/// The values decoded from concatenated DAG-CBOR objects, and where the
/// first byte that belongs to none of them is.
pub struct MultiDecoded {
    pub values: Vec<Ipld>,
    pub bytes_consumed: usize,
}

/// The models of a sequence of values.
pub open spec fn models(s: Seq<Ipld>) -> Seq<Value> {
    s.map_values(|v: Ipld| v.model())
}

/// The objects decoded one after another from `p`, up to the first that
/// fails, and the position after the last one that succeeded.
pub open spec fn parse_all(data: Seq<u8>, p: int) -> (Seq<Value>, int)
    decreases data.len() - p,
{
    if p < 0 || p > data.len() {
        (Seq::empty(), p)
    } else {
        match parse(data, p) {
            Some((v, e)) => if e <= p || e > data.len() {
                (Seq::empty(), p)
            } else {
                let rest = parse_all(data, e);
                (seq![v] + rest.0, rest.1)
            },
            None => (Seq::empty(), p),
        }
    }
}

/// Decodes the DAG-CBOR value at the start of `data`; bytes after it are left alone.
pub fn decode_dag_cbor(data: &[u8]) -> (r: Result<Ipld, DecodeError>)
    ensures
        match r {
            Ok(v) => parse(data@, 0) matches Some((m, _)) && m == v.model(),
            Err(e) => parse(data@, 0) is None && e == DecodeError::MalformedCbor,
        },
{
    match parse_value(data, 0) {
        Some((v, _)) => Ok(v),
        None => Err(DecodeError::MalformedCbor),
    }
}

/// Decodes concatenated DAG-CBOR objects up to the first that fails; never fails.
pub fn decode_dag_cbor_multi(data: &[u8]) -> (r: MultiDecoded)
    ensures
        models(r.values@) == parse_all(data@, 0).0,
        r.bytes_consumed as int == parse_all(data@, 0).1,
        r.bytes_consumed <= data@.len(),
{
    let mut values: Vec<Ipld> = Vec::new();
    let mut pos: usize = 0;
    let mut done = false;
    let ghost mut ms: Seq<Value> = Seq::empty();
    proof {
        assert(parse_all(data@, 0).0 =~= ms + parse_all(data@, 0).0);
    }
    while !done
        invariant
            pos <= data@.len(),
            parse_all(data@, 0).0 == ms + parse_all(data@, pos as int).0,
            parse_all(data@, 0).1 == parse_all(data@, pos as int).1,
            models(values@) == ms,
            done ==> parse_all(data@, pos as int) == (Seq::<Value>::empty(), pos as int),
        decreases data@.len() - pos, if done { 0int } else { 1int },
    {
        match parse_value(data, pos) {
            Some((v, e)) => {
                let ghost vm = v.model();
                let ghost rest = parse_all(data@, e as int).0;
                values.push(v);
                proof {
                    assert(ms + (seq![vm] + rest) =~= ms.push(vm) + rest);
                    ms = ms.push(vm);
                    assert(models(values@) =~= ms);
                }
                pos = e;
            },
            None => {
                done = true;
            },
        }
    }
    proof {
        assert(ms + Seq::<Value>::empty() =~= ms);
    }
    MultiDecoded { values, bytes_consumed: pos }
}

/// Decodes a CID from its text form.
pub fn decode_cid(s: &str) -> (r: Result<Cid, DecodeError>)
    ensures
        match r {
            Ok(c) => cid_of_text(s) == Some(c@),
            Err(e) => cid_of_text(s) is None && e == DecodeError::MalformedCid,
        },
{
    match cid_from_text(s) {
        Some(c) => Ok(c),
        None => Err(DecodeError::MalformedCid),
    }
}

/// Decodes a CAR archive: its header, and its blocks that decode as DAG-CBOR,
/// one for each distinct CID.
pub fn decode_car(data: &[u8]) -> (r: Result<CarArchive, DecodeError>)
    ensures
        match r {
            Ok(a) => car_of(data@) == Some((a.header@, blocks_model(a.blocks@))),
            Err(e) => car_of(data@) is None && e == DecodeError::MalformedCar,
        },
{
    match read_car(data) {
        Some(a) => Ok(a),
        None => Err(DecodeError::MalformedCar),
    }
}


/// Decoding is a function of the bytes alone: equal inputs decode alike,
/// one object or many.
pub proof fn lemma_decode_deterministic(a: Seq<u8>, b: Seq<u8>)
    requires
        a == b,
    ensures
        parse(a, 0) == parse(b, 0),
        parse_all(a, 0) == parse_all(b, 0),
{
}

proof fn lemma_parse_all_prefix(data: Seq<u8>, p: int)
    requires
        0 <= p <= data.len(),
    ensures
        p <= parse_all(data, p).1 <= data.len(),
        parse_all(data.take(parse_all(data, p).1), p) == parse_all(data, p),
    decreases data.len() - p,
{
    lemma_parse_bounds(data, p);
    if let Some((v, e)) = parse(data, p) {
        lemma_parse_all_prefix(data, e);
        let k = parse_all(data, e).1;
        let d = data.take(k);
        assert(same_upto(data, d, e));
        lemma_parse_same(data, d, p, e);
    }
}

/// Multi-decoding only the bytes it reported as consumed gives the same
/// values and the same count, which never exceeds the input's length.
pub proof fn lemma_multi_prefix(data: Seq<u8>)
    ensures
        parse_all(data, 0).1 <= data.len(),
        parse_all(data.take(parse_all(data, 0).1), 0) == parse_all(data, 0),
{
    lemma_parse_all_prefix(data, 0);
}

/// An object followed by bytes that do not begin another object:
/// multi-decoding gives just that object and stops where it ends.
pub proof fn lemma_trailing_garbage(x: Seq<u8>, g: Seq<u8>)
    requires
        parse(x, 0) matches Some((_, e)) && e == x.len(),
        parse(x + g, x.len() as int) is None,
    ensures
        parse_all(x + g, 0) == (seq![parse(x, 0).unwrap().0], x.len() as int),
{
    let d = x + g;
    assert(same_upto(x, d, x.len() as int));
    lemma_parse_same(x, d, 0, x.len() as int);
    lemma_parse_bounds(x, 0);
    assert(parse(d, 0) == parse(x, 0));
    assert(parse_all(d, x.len() as int) == (Seq::<Value>::empty(), x.len() as int));
    assert(seq![parse(x, 0).unwrap().0] + Seq::<Value>::empty() =~= seq![parse(x, 0).unwrap().0]);
}

} // verus!

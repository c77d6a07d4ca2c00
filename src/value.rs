//! The IPLD data model: an executable value tree and its mathematical model.
use vstd::prelude::*;

verus! {

/// Mathematical model of a multihash: hash function code and digest bytes.
pub struct MultihashModel {
    pub code: nat,
    pub size: nat,
    pub digest: Seq<u8>,
}

/// Mathematical model of a content identifier.
pub struct CidModel {
    pub version: nat,
    pub codec: nat,
    pub hash: MultihashModel,
}

/// Raw IEEE-754 bits of a float, with the width it was written in.
#[derive(Clone, Copy, Debug, PartialEq, Eq, Structural)]
pub enum FloatBits {
    Single(u32),
    Double(u64),
}

/// Mathematical model of an IPLD value.
pub enum Value {
    Null,
    Bool(bool),
    Integer(int),
    Float(FloatBits),
    Text(Seq<char>),
    Bytes(Seq<u8>),
    List(Seq<Value>),
    Dict(Seq<(Seq<char>, Value)>),
    Link(CidModel),
}

/// A multihash: hash function code, declared digest size, and digest bytes.
#[derive(Clone, Debug)]
pub struct Multihash {
    pub code: u64,
    pub size: u64,
    pub digest: Vec<u8>,
}

impl View for Multihash {
    type V = MultihashModel;

    open spec fn view(&self) -> MultihashModel {
        MultihashModel { code: self.code as nat, size: self.size as nat, digest: self.digest@ }
    }
}

/// A content identifier: version, content codec and multihash.
#[derive(Clone, Debug)]
pub struct Cid {
    pub version: u64,
    pub codec: u64,
    pub hash: Multihash,
}

impl View for Cid {
    type V = CidModel;

    open spec fn view(&self) -> CidModel {
        CidModel { version: self.version as nat, codec: self.codec as nat, hash: self.hash@ }
    }
}

/// An IPLD value. Map entries keep the order in which they were written.
pub enum Ipld {
    Null,
    Bool(bool),
    Integer(i128),
    Float(FloatBits),
    String(String),
    Bytes(Vec<u8>),
    List(Vec<Ipld>),
    Dict(Vec<(String, Ipld)>),
    Link(Cid),
}

impl Ipld {
    /// The mathematical value this one stands for.
    pub open spec fn model(&self) -> Value
        decreases self,
    {
        match self {
            Ipld::Null => Value::Null,
            Ipld::Bool(b) => Value::Bool(*b),
            Ipld::Integer(i) => Value::Integer(*i as int),
            Ipld::Float(f) => Value::Float(*f),
            Ipld::String(s) => Value::Text(s@),
            Ipld::Bytes(b) => Value::Bytes(b@),
            Ipld::List(items) => Value::List(
                Seq::new(items.len() as nat, |i: int| if 0 <= i < items.len() { items[i].model() } else { Value::Null }),
            ),
            Ipld::Dict(entries) => Value::Dict(
                Seq::new(entries.len() as nat, |i: int| if 0 <= i < entries.len() { (entries[i].0@, entries[i].1.model()) } else { (Seq::empty(), Value::Null) }),
            ),
            Ipld::Link(c) => Value::Link(c@),
        }
    }
}

} // verus!

//! Decoding of DAG-CBOR values, content identifiers and CAR archives.
//!
//! Each decoder is specified by a spec function over the input bytes and
//! proved to compute exactly it. DAG-CBOR heads must use the shortest form
//! and definite lengths; map keys must be distinct text strings, accepted in
//! any order. In a CAR archive, blocks that fail to decode are passed over and
//! blocks with the same CID collapse into one, the last one read.
use vstd::prelude::*;

pub mod value;
pub mod cid;
pub mod cbor;
pub mod car;
pub mod decode;
pub mod canonical;

verus! {

} // verus!

pub use car::{CarArchive, CarBlock, CarHeader};
pub use decode::{decode_car, decode_cid, decode_dag_cbor, decode_dag_cbor_multi, DecodeError, MultiDecoded};
pub use value::{Cid, FloatBits, Ipld, Multihash};

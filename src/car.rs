//! CAR archives: length-prefixed frames holding a header and CID-keyed blocks.
use vstd::prelude::*;
use crate::cbor::{parse, parse_value};
use crate::cid::{cid_at, copy_cid, copy_range, read_cid, read_uvarint, same_cid, uvarint};
use crate::value::{Cid, CidModel, Ipld, Value};

verus! {

/// Mathematical model of a CAR header.
pub struct CarHeaderModel {
    pub version: int,
    pub roots: Seq<CidModel>,
}

/// The header of a CAR archive: its version and root CIDs.
pub struct CarHeader {
    pub version: i128,
    pub roots: Vec<Cid>,
}

impl View for CarHeader {
    type V = CarHeaderModel;

    open spec fn view(&self) -> CarHeaderModel {
        CarHeaderModel { version: self.version as int, roots: self.roots@.map_values(|c: Cid| c@) }
    }
}

/// A block of a CAR archive, decoded as DAG-CBOR.
pub struct CarBlock {
    pub cid: Cid,
    pub value: Ipld,
}

/// A decoded CAR archive: its header and one block for each distinct CID.
pub struct CarArchive {
    pub header: CarHeader,
    pub blocks: Vec<CarBlock>,
}

/// The blocks as (CID, value) pairs.
pub open spec fn blocks_model(s: Seq<CarBlock>) -> Seq<(CidModel, Value)> {
    s.map_values(|b: CarBlock| (b.cid@, b.value.model()))
}

/// The header key `version`.
pub open spec fn version_key() -> Seq<char> {
    seq!['v', 'e', 'r', 's', 'i', 'o', 'n']
}

/// The header key `roots`.
pub open spec fn roots_key() -> Seq<char> {
    seq!['r', 'o', 'o', 't', 's']
}

/// The value stored under `k`; the last entry wins.
pub open spec fn dict_get(es: Seq<(Seq<char>, Value)>, k: Seq<char>) -> Option<Value>
    decreases es.len(),
{
    if es.len() == 0 {
        None
    } else if es.last().0 == k {
        Some(es.last().1)
    } else {
        dict_get(es.drop_last(), k)
    }
}

/// The header a decoded header frame describes: a map with an integer
/// `version` and a list of links `roots`, not empty under version 1.
pub open spec fn header_of(v: Value) -> Option<CarHeaderModel> {
    match v {
        Value::Dict(es) => match dict_get(es, version_key()) {
            Some(Value::Integer(version)) => match dict_get(es, roots_key()) {
                Some(Value::List(items)) => if (forall|i: int| 0 <= i < items.len() ==> (#[trigger] items[i]) is Link)
                    && !(version == 1 && items.len() == 0) {
                    Some(CarHeaderModel { version, roots: items.map_values(|x: Value| x->Link_0) })
                } else {
                    None
                },
                _ => None,
            },
            _ => None,
        },
        _ => None,
    }
}

/// The frame at `p`: start and end of the payload after its varint length.
pub open spec fn frame_at(data: Seq<u8>, p: int) -> Option<(int, int)> {
    match uvarint(data, p, 0) {
        Some((n, q)) => if q + n <= data.len() {
            Some((q, q + n))
        } else {
            None
        },
        None => None,
    }
}

/// The block a frame payload holds: a binary CID, then a DAG-CBOR value.
pub open spec fn block_of(payload: Seq<u8>) -> Option<(CidModel, Value)> {
    match cid_at(payload, 0) {
        Some((c, q)) => match parse(payload, q) {
            Some((v, _)) => Some((c, v)),
            None => None,
        },
        None => None,
    }
}

/// The blocks of the frames from `p` on, in order. A frame whose block does
/// not decode is passed over; a frame that cannot be read ends the archive.
pub open spec fn blocks_from(data: Seq<u8>, p: int) -> Seq<(CidModel, Value)>
    decreases data.len() - p,
{
    if p < 0 || p >= data.len() {
        Seq::empty()
    } else {
        match frame_at(data, p) {
            None => Seq::empty(),
            Some((s, e)) => if e <= p || s > e {
                Seq::empty()
            } else {
                let rest = blocks_from(data, e);
                match block_of(data.subrange(s, e)) {
                    Some(b) => seq![b] + rest,
                    None => rest,
                }
            },
        }
    }
}

/// The first index from `i` on whose CID is `k`, or -1.
pub open spec fn find_from(s: Seq<(CidModel, Value)>, k: CidModel, i: int) -> int
    decreases s.len() - i,
{
    if i < 0 || i >= s.len() {
        -1
    } else if s[i].0 == k {
        i
    } else {
        find_from(s, k, i + 1)
    }
}

/// Adds a block: it replaces the block with the same CID, if there is one.
pub open spec fn absorb(s: Seq<(CidModel, Value)>, b: (CidModel, Value)) -> Seq<(CidModel, Value)> {
    let j = find_from(s, b.0, 0);
    if j >= 0 {
        s.update(j, b)
    } else {
        s.push(b)
    }
}

/// Blocks with one entry per CID, in order of first appearance; the last
/// block with a given CID is the one kept.
pub open spec fn collapse(s: Seq<(CidModel, Value)>) -> Seq<(CidModel, Value)>
    decreases s.len(),
{
    if s.len() == 0 {
        Seq::empty()
    } else {
        absorb(collapse(s.drop_last()), s.last())
    }
}

/// The header of a CAR archive and the position after its frame.
pub open spec fn car_header_at(data: Seq<u8>) -> Option<(CarHeaderModel, int)> {
    match frame_at(data, 0) {
        Some((s, e)) => match parse(data.subrange(s, e), 0) {
            Some((v, _)) => match header_of(v) {
                Some(h) => Some((h, e)),
                None => None,
            },
            None => None,
        },
        None => None,
    }
}

/// A CAR archive: its header and its collapsed blocks.
pub open spec fn car_of(data: Seq<u8>) -> Option<(CarHeaderModel, Seq<(CidModel, Value)>)> {
    match car_header_at(data) {
        Some((h, e)) => Some((h, collapse(blocks_from(data, e)))),
        None => None,
    }
}

/// Map entries as (key, value) pairs of models.
pub open spec fn entries_model(es: Seq<(String, Ipld)>) -> Seq<(Seq<char>, Value)> {
    es.map_values(|e: (String, Ipld)| (e.0@, e.1.model()))
}

/// Finds the entry stored under `key`, the last one that has it.
fn dict_lookup(es: &Vec<(String, Ipld)>, key: &String) -> (r: Option<usize>)
    ensures
        match r {
            Some(j) => j < es@.len() && dict_get(entries_model(es@), key@) == Some(es@[j as int].1.model()),
            None => dict_get(entries_model(es@), key@) is None,
        },
{
    let ghost m = entries_model(es@);
    let mut j: usize = es.len();
    proof {
        assert(m.take(j as int) =~= m);
    }
    while j > 0
        invariant
            j <= es@.len() == m.len(),
            m == entries_model(es@),
            dict_get(m, key@) == dict_get(m.take(j as int), key@),
        decreases j,
    {
        proof {
            assert(m.take(j as int).drop_last() =~= m.take(j - 1));
        }
        if es[j - 1].0 == *key {
            return Some(j - 1);
        }
        j -= 1;
    }
    None
}

/// Reads the header a decoded header frame describes.
fn header_from(v: &Ipld) -> (r: Option<CarHeader>)
    ensures
        match r {
            Some(h) => header_of(v.model()) == Some(h@),
            None => header_of(v.model()) is None,
        },
{
    let es = match v {
        Ipld::Dict(es) => es,
        _ => return None,
    };
    proof {
        assert(v.model()->Dict_0 =~= entries_model(es@));
    }
    let vkey = "version".to_owned();
    let rkey = "roots".to_owned();
    proof {
        reveal_strlit("version");
        reveal_strlit("roots");
        assert(vkey@ =~= version_key());
        assert(rkey@ =~= roots_key());
    }
    let vj = match dict_lookup(es, &vkey) {
        Some(j) => j,
        None => return None,
    };
    let version = match &es[vj].1 {
        Ipld::Integer(x) => *x,
        _ => return None,
    };
    let rj = match dict_lookup(es, &rkey) {
        Some(j) => j,
        None => return None,
    };
    let items = match &es[rj].1 {
        Ipld::List(items) => items,
        _ => return None,
    };
    let ghost ms = es@[rj as int].1.model()->List_0;
    let ghost es_m = entries_model(es@);
    assert(v.model() == Value::Dict(es_m));
    assert(dict_get(es_m, version_key()) == Some(Value::Integer(version as int)));
    assert(dict_get(es_m, roots_key()) == Some(Value::List(ms)));
    if version == 1 && items.len() == 0 {
        return None;
    }
    let mut roots: Vec<Cid> = Vec::new();
    let mut i: usize = 0;
    while i < items.len()
        invariant
            i <= items@.len() == ms.len(),
            forall|t: int| 0 <= t < ms.len() ==> ms[t] == (#[trigger] items@[t]).model(),
            roots@.len() == i,
            v.model() == Value::Dict(es_m),
            dict_get(es_m, version_key()) == Some(Value::Integer(version as int)),
            dict_get(es_m, roots_key()) == Some(Value::List(ms)),
            !(version == 1 && ms.len() == 0),
            forall|t: int| 0 <= t < i ==> (#[trigger] ms[t]) is Link && roots@[t]@ == ms[t]->Link_0,
        decreases items@.len() - i,
    {
        match &items[i] {
            Ipld::Link(c) => {
                roots.push(copy_cid(c));
            },
            _ => {
                proof {
                    assert(!(ms[i as int] is Link));
                }
                return None;
            },
        }
        i += 1;
    }
    let h = CarHeader { version, roots };
    proof {
        assert(h@.roots =~= ms.map_values(|x: Value| x->Link_0));
    }
    Some(h)
}

/// Reads the frame at `p`.
fn read_frame(data: &[u8], p: usize) -> (r: Option<(usize, usize)>)
    ensures
        match r {
            Some((s, e)) => frame_at(data@, p as int) == Some((s as int, e as int)) && p < s <= e <= data@.len(),
            None => frame_at(data@, p as int) is None,
        },
{
    match read_uvarint(data, p, 0) {
        Some((n, q)) => if n <= (data.len() - q) as u64 {
            Some((q, q + n as usize))
        } else {
            None
        },
        None => None,
    }
}

/// Reads the block a frame payload holds.
fn read_block(payload: &[u8]) -> (r: Option<CarBlock>)
    ensures
        match r {
            Some(b) => block_of(payload@) == Some((b.cid@, b.value.model())),
            None => block_of(payload@) is None,
        },
{
    match read_cid(payload, 0) {
        Some((cid, q)) => match parse_value(payload, q) {
            Some((value, _)) => Some(CarBlock { cid, value }),
            None => None,
        },
        None => None,
    }
}

/// Adds a block, replacing the block with the same CID if there is one.
fn absorb_block(blocks: &mut Vec<CarBlock>, b: CarBlock)
    ensures
        blocks_model(final(blocks)@) == absorb(blocks_model(old(blocks)@), (b.cid@, b.value.model())),
{
    let ghost m = blocks_model(blocks@);
    let mut j: usize = 0;
    while j < blocks.len()
        invariant
            j <= blocks@.len(),
            m == blocks_model(blocks@),
            blocks@ == old(blocks)@,
            find_from(m, b.cid@, 0) == find_from(m, b.cid@, j as int),
        decreases blocks@.len() - j,
    {
        if same_cid(&blocks[j].cid, &b.cid) {
            let ghost bm = (b.cid@, b.value.model());
            blocks.set(j, b);
            proof {
                assert(blocks_model(blocks@) =~= m.update(j as int, bm));
            }
            return;
        }
        j += 1;
    }
    let ghost bm = (b.cid@, b.value.model());
    blocks.push(b);
    proof {
        assert(blocks_model(blocks@) =~= m.push(bm));
    }
}

/// Reads a CAR archive (see `car_of`).
pub fn read_car(data: &[u8]) -> (r: Option<CarArchive>)
    ensures
        match r {
            Some(a) => car_of(data@) == Some((a.header@, blocks_model(a.blocks@))),
            None => car_of(data@) is None,
        },
{
    let (s, e) = match read_frame(data, 0) {
        Some(f) => f,
        None => return None,
    };
    let payload = copy_range(data, s, e);
    let header = match parse_value(payload.as_slice(), 0) {
        Some((v, _)) => match header_from(&v) {
            Some(h) => h,
            None => return None,
        },
        None => return None,
    };
    let mut blocks: Vec<CarBlock> = Vec::new();
    let mut pos: usize = e;
    let mut done = false;
    let ghost mut seen: Seq<(CidModel, Value)> = Seq::empty();
    proof {
        assert(blocks_model(blocks@) =~= Seq::<(CidModel, Value)>::empty());
        assert(blocks_from(data@, e as int) =~= seen + blocks_from(data@, pos as int));
    }
    while pos < data.len() && !done
        invariant
            e <= pos <= data@.len(),
            blocks_from(data@, e as int) == seen + blocks_from(data@, pos as int),
            blocks_model(blocks@) == collapse(seen),
            done ==> blocks_from(data@, pos as int) == Seq::<(CidModel, Value)>::empty(),
        decreases data@.len() - pos, if done { 0int } else { 1int },
    {
        match read_frame(data, pos) {
            None => {
                done = true;
            },
            Some((s2, e2)) => {
                let payload = copy_range(data, s2, e2);
                let ghost rest = blocks_from(data@, e2 as int);
                match read_block(payload.as_slice()) {
                    Some(b) => {
                        let ghost bm = (b.cid@, b.value.model());
                        absorb_block(&mut blocks, b);
                        proof {
                            assert(seen.push(bm).drop_last() =~= seen);
                            assert(seen + (seq![bm] + rest) =~= seen.push(bm) + rest);
                            seen = seen.push(bm);
                        }
                    },
                    None => {},
                }
                pos = e2;
            },
        }
    }
    proof {
        assert(seen + Seq::<(CidModel, Value)>::empty() =~= seen);
    }
    Some(CarArchive { header, blocks })
}


/// The CIDs of a block sequence, in order.
pub open spec fn cids_of(s: Seq<(CidModel, Value)>) -> Seq<CidModel> {
    s.map_values(|b: (CidModel, Value)| b.0)
}

proof fn lemma_find_from(s: Seq<(CidModel, Value)>, k: CidModel, i: int)
    requires
        0 <= i,
    ensures
        find_from(s, k, i) == -1 ==> forall|t: int| i <= t < s.len() ==> s[t].0 != k,
        find_from(s, k, i) != -1 ==> i <= find_from(s, k, i) < s.len() && s[find_from(s, k, i)].0 == k,
    decreases s.len() - i,
{
    if i < s.len() && s[i].0 != k {
        lemma_find_from(s, k, i + 1);
    }
}

proof fn lemma_collapse_keys(s: Seq<(CidModel, Value)>)
    ensures
        cids_of(collapse(s)).no_duplicates(),
        forall|k: CidModel| cids_of(collapse(s)).contains(k) <==> cids_of(s).contains(k),
    decreases s.len(),
{
    if s.len() > 0 {
        let t = s.drop_last();
        let b = s.last();
        let c = collapse(t);
        lemma_collapse_keys(t);
        lemma_find_from(c, b.0, 0);
        assert(cids_of(s) =~= cids_of(t).push(b.0));
        let j = find_from(c, b.0, 0);
        if j >= 0 {
            assert(cids_of(collapse(s)) =~= cids_of(c));
            assert(cids_of(c)[j] == b.0);
        } else {
            assert(cids_of(collapse(s)) =~= cids_of(c).push(b.0));
            assert(!cids_of(c).contains(b.0));
        }
        let cs = cids_of(collapse(s));
        let cc = cids_of(c);
        let ct = cids_of(t);
        assert forall|k: CidModel| cs.contains(k) <==> cids_of(s).contains(k) by {
            if cs.contains(k) {
                if k != b.0 {
                    let i = choose|i: int| 0 <= i < cs.len() && cs[i] == k;
                    assert(cc[i] == k);
                    assert(cc.contains(k));
                    assert(ct.contains(k));
                    let i2 = choose|i: int| 0 <= i < ct.len() && ct[i] == k;
                    assert(cids_of(s)[i2] == k);
                } else {
                    assert(cids_of(s)[s.len() - 1] == k);
                }
            }
            if cids_of(s).contains(k) {
                if k != b.0 {
                    let i = choose|i: int| 0 <= i < cids_of(s).len() && cids_of(s)[i] == k;
                    assert(ct[i] == k);
                    assert(ct.contains(k));
                    let i3 = choose|i: int| 0 <= i < cc.len() && cc[i] == k;
                    assert(cs[i3] == k);
                } else if j >= 0 {
                    assert(cs[j] == k);
                } else {
                    assert(cs[c.len() as int] == k);
                }
            }
        }
    }
}

/// Collapsing keeps exactly one block for each distinct CID among the
/// decoded blocks: the kept CIDs are distinct, they are the same set, and so
/// there are as many blocks as distinct CIDs.
pub proof fn lemma_collapse_distinct(s: Seq<(CidModel, Value)>)
    ensures
        cids_of(collapse(s)).no_duplicates(),
        cids_of(collapse(s)).to_set() == cids_of(s).to_set(),
        collapse(s).len() == cids_of(s).to_set().len(),
{
    lemma_collapse_keys(s);
    assert(cids_of(collapse(s)).to_set() =~= cids_of(s).to_set());
    cids_of(collapse(s)).unique_seq_to_set();
}

} // verus!

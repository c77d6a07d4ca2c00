//! Content identifiers: unsigned varints, binary CIDs and their text forms.
use vstd::prelude::*;
use vstd::string::StringSliceAdditionalSpecFns;
use crate::value::{Cid, CidModel, Multihash, MultihashModel};

verus! {

/// Codec number of dag-pb, the codec every version 0 identifier carries.
pub const DAG_PB: u64 = 0x70;

/// Multihash code of sha2-256.
pub const SHA2_256: u64 = 0x12;

/// Longest unsigned varint accepted, in bytes.
pub const VARINT_MAX_BYTES: u64 = 10;

/// The unsigned LEB128 varint at `p`, having already read `k` of its bytes:
/// its value and the position after it. Values must fit in 64 bits.
pub open spec fn uvarint(data: Seq<u8>, p: int, k: nat) -> Option<(nat, int)>
    decreases VARINT_MAX_BYTES - k,
{
    if k >= VARINT_MAX_BYTES || p < 0 || p >= data.len() {
        None
    } else if data[p] < 128 {
        Some((data[p] as nat, p + 1))
    } else {
        match uvarint(data, p + 1, k + 1) {
            None => None,
            Some((v, q)) => {
                let n = (data[p] - 128) + 128 * v;
                if n <= u64::MAX {
                    Some((n as nat, q))
                } else {
                    None
                }
            },
        }
    }
}

/// The multihash at `p`: varint code, varint size, then `size` digest bytes.
pub open spec fn multihash_at(data: Seq<u8>, p: int) -> Option<(MultihashModel, int)> {
    match uvarint(data, p, 0) {
        None => None,
        Some((code, q)) => match uvarint(data, q, 0) {
            None => None,
            Some((size, r)) => if r + size <= data.len() {
                Some((MultihashModel { code, size, digest: data.subrange(r, r + size) }, r + size))
            } else {
                None
            },
        },
    }
}

/// The binary CID at `p`. A version 0 identifier is a bare sha2-256 multihash
/// (bytes 0x12 0x20 and a 32-byte digest) and has codec dag-pb; otherwise the
/// version varint must be 1 and is followed by a codec varint and a multihash.
pub open spec fn cid_at(data: Seq<u8>, p: int) -> Option<(CidModel, int)> {
    match uvarint(data, p, 0) {
        None => None,
        Some((version, q)) => match uvarint(data, q, 0) {
            None => None,
            Some((codec, r)) => if version == SHA2_256 && codec == 32 {
                if r + 32 <= data.len() {
                    Some((
                        CidModel {
                            version: 0,
                            codec: DAG_PB as nat,
                            hash: MultihashModel { code: SHA2_256 as nat, size: 32, digest: data.subrange(r, r + 32) },
                        },
                        r + 32,
                    ))
                } else {
                    None
                }
            } else if version == 1 {
                match multihash_at(data, r) {
                    None => None,
                    Some((hash, e)) => Some((CidModel { version: 1, codec, hash }, e)),
                }
            } else {
                None
            },
        },
    }
}

/// The CID that makes up the whole of `data`, if it is one.
pub open spec fn cid_of_bytes(data: Seq<u8>) -> Option<CidModel> {
    match cid_at(data, 0) {
        Some((c, e)) => if e == data.len() { Some(c) } else { None },
        None => None,
    }
}

/// Reads the unsigned varint at `p`, of which `k` bytes were already read.
pub fn read_uvarint(data: &[u8], p: usize, k: u64) -> (r: Option<(u64, usize)>)
    requires
        k <= VARINT_MAX_BYTES,
    ensures
        match r {
            None => uvarint(data@, p as int, k as nat) is None,
            Some((v, q)) => uvarint(data@, p as int, k as nat) == Some((v as nat, q as int))
                && p < q <= data@.len(),
        },
    decreases VARINT_MAX_BYTES - k,
{
    if k >= VARINT_MAX_BYTES || p >= data.len() {
        return None;
    }
    let b = data[p];
    if b < 128 {
        return Some((b as u64, p + 1));
    }
    match read_uvarint(data, p + 1, k + 1) {
        None => None,
        Some((v, q)) => {
            if v < 0x200_0000_0000_0000 {
                Some(((b - 128) as u64 + 128 * v, q))
            } else {
                None
            }
        },
    }
}

/// Copies `data[a..b]` into a new vector.
pub fn copy_range(data: &[u8], a: usize, b: usize) -> (r: Vec<u8>)
    requires
        a <= b <= data@.len(),
    ensures
        r@ == data@.subrange(a as int, b as int),
{
    let mut r: Vec<u8> = Vec::with_capacity(b - a);
    let mut i: usize = a;
    while i < b
        invariant
            a <= i <= b <= data@.len(),
            r@ == data@.subrange(a as int, i as int),
        decreases b - i,
    {
        r.push(data[i]);
        i += 1;
        proof {
            assert(r@ =~= data@.subrange(a as int, i as int));
        }
    }
    r
}

/// Reads the multihash at `p`.
pub fn read_multihash(data: &[u8], p: usize) -> (r: Option<(Multihash, usize)>)
    ensures
        match r {
            None => multihash_at(data@, p as int) is None,
            Some((h, e)) => multihash_at(data@, p as int) == Some((h@, e as int)) && p < e <= data@.len(),
        },
{
    let (code, q) = match read_uvarint(data, p, 0) {
        None => return None,
        Some(x) => x,
    };
    let (size, r) = match read_uvarint(data, q, 0) {
        None => return None,
        Some(x) => x,
    };
    if size > (data.len() - r) as u64 {
        return None;
    }
    let e = r + size as usize;
    let digest = copy_range(data, r, e);
    Some((Multihash { code, size, digest }, e))
}

/// Reads the binary CID at `p` (see `cid_at`).
pub fn read_cid(data: &[u8], p: usize) -> (r: Option<(Cid, usize)>)
    ensures
        match r {
            None => cid_at(data@, p as int) is None,
            Some((c, e)) => cid_at(data@, p as int) == Some((c@, e as int)) && p < e <= data@.len(),
        },
{
    let (version, q) = match read_uvarint(data, p, 0) {
        None => return None,
        Some(x) => x,
    };
    let (codec, r) = match read_uvarint(data, q, 0) {
        None => return None,
        Some(x) => x,
    };
    if version == SHA2_256 && codec == 32 {
        if data.len() - r < 32 {
            return None;
        }
        let digest = copy_range(data, r, r + 32);
        let hash = Multihash { code: SHA2_256, size: 32, digest };
        Some((Cid { version: 0, codec: DAG_PB, hash }, r + 32))
    } else if version == 1 {
        match read_multihash(data, r) {
            None => None,
            Some((hash, e)) => Some((Cid { version: 1, codec, hash }, e)),
        }
    } else {
        None
    }
}

/// Parses a binary CID that makes up the whole of `data`.
pub fn cid_from_bytes(data: &[u8]) -> (r: Option<Cid>)
    ensures
        match r {
            None => cid_of_bytes(data@) is None,
            Some(c) => cid_of_bytes(data@) == Some(c@),
        },
{
    match read_cid(data, 0) {
        Some((c, e)) => if e == data.len() { Some(c) } else { None },
        None => None,
    }
}


/// Names the bytes that a base58btc string spells, or `None` where it spells none.
pub uninterp spec fn base58btc_payload(s: Seq<char>) -> Option<Seq<u8>>;

/// Names the outcome of multibase decoding: the first character names the base
/// and the rest is decoded in it; `None` for an unknown base or a bad digit.
pub uninterp spec fn multibase_payload(s: Seq<char>) -> Option<Seq<u8>>;

/// Relies on multibase::Base::Base58Btc.decode: the bytes a base58btc string spells.
#[verifier::external_body]
fn base58btc_decode(s: &str) -> (r: Option<Vec<u8>>)
    ensures
        match r {
            Some(b) => base58btc_payload(s@) == Some(b@),
            None => base58btc_payload(s@) is None,
        },
{
    multibase::Base::Base58Btc.decode(s).ok()
}

/// Relies on multibase::decode: picks the base by the first character and
/// decodes the rest; an empty string is refused.
#[verifier::external_body]
fn multibase_decode(s: &str) -> (r: Option<Vec<u8>>)
    ensures
        match r {
            Some(b) => multibase_payload(s@) == Some(b@),
            None => multibase_payload(s@) is None,
        },
        s@.len() == 0 ==> r is None,
{
    multibase::decode(s).ok().map(|(_, b)| b)
}

/// Whether the UTF-8 bytes of a CID string begin with `Qm`, the mark of a
/// base58btc version 0 identifier.
pub open spec fn is_v0_text(b: Seq<u8>) -> bool {
    b.len() >= 2 && b[0] == 0x51 && b[1] == 0x6d
}

/// The bytes a CID string spells: base58btc for a version 0 string, multibase otherwise.
pub open spec fn cid_text_payload(s: &str) -> Option<Seq<u8>> {
    if is_v0_text(s.spec_bytes()) {
        base58btc_payload(s@)
    } else {
        multibase_payload(s@)
    }
}

/// The CID that a string spells, if it spells exactly one.
pub open spec fn cid_of_text(s: &str) -> Option<CidModel> {
    match cid_text_payload(s) {
        Some(b) => cid_of_bytes(b),
        None => None,
    }
}

/// Decodes the bytes of a CID string.
fn cid_text_bytes(s: &str) -> (r: Option<Vec<u8>>)
    ensures
        match r {
            Some(b) => cid_text_payload(s) == Some(b@),
            None => cid_text_payload(s) is None,
        },
{
    let b = s.as_bytes();
    if b.len() >= 2 && b[0] == 0x51 && b[1] == 0x6d {
        base58btc_decode(s)
    } else {
        multibase_decode(s)
    }
}

/// Parses a CID from its text form.
pub fn cid_from_text(s: &str) -> (r: Option<Cid>)
    ensures
        match r {
            Some(c) => cid_of_text(s) == Some(c@),
            None => cid_of_text(s) is None,
        },
{
    match cid_text_bytes(s) {
        Some(b) => cid_from_bytes(b.as_slice()),
        None => None,
    }
}

/// Copies a CID.
pub fn copy_cid(c: &Cid) -> (r: Cid)
    ensures
        r@ == c@,
{
    let digest = copy_range(c.hash.digest.as_slice(), 0, c.hash.digest.len());
    proof {
        assert(digest@ =~= c.hash.digest@);
    }
    Cid { version: c.version, codec: c.codec, hash: Multihash { code: c.hash.code, size: c.hash.size, digest } }
}

/// Whether two CIDs are the same.
pub fn same_cid(a: &Cid, b: &Cid) -> (r: bool)
    ensures
        r == (a@ == b@),
{
    if a.version != b.version || a.codec != b.codec || a.hash.code != b.hash.code || a.hash.size != b.hash.size {
        return false;
    }
    let x = &a.hash.digest;
    let y = &b.hash.digest;
    if x.len() != y.len() {
        proof {
            assert(a@.hash.digest.len() != b@.hash.digest.len());
        }
        return false;
    }
    let mut i: usize = 0;
    while i < x.len()
        invariant
            x@ == a@.hash.digest,
            y@ == b@.hash.digest,
            x@.len() == y@.len(),
            i <= x@.len(),
            forall|j: int| 0 <= j < i ==> x@[j] == y@[j],
        decreases x@.len() - i,
    {
        if x[i] != y[i] {
            proof {
                assert(a@.hash.digest[i as int] != b@.hash.digest[i as int]);
            }
            return false;
        }
        i += 1;
    }
    proof {
        assert(x@ =~= y@);
    }
    true
}


/// The unsigned LEB128 bytes of `n`: seven bits a byte, low bits first.
pub open spec fn uvarint_bytes(n: nat) -> Seq<u8>
    decreases n,
{
    if n < 128 {
        seq![n as u8]
    } else {
        seq![(n % 128 + 128) as u8] + uvarint_bytes(n / 128)
    }
}

/// The binary form of a CID: the bare multihash for version 0, otherwise
/// version, codec, hash code and size as varints, then the digest.
pub open spec fn cid_bytes(c: CidModel) -> Seq<u8> {
    if c.version == 0 {
        seq![SHA2_256 as u8, 32u8] + c.hash.digest
    } else {
        uvarint_bytes(c.version) + uvarint_bytes(c.codec) + uvarint_bytes(c.hash.code) + uvarint_bytes(c.hash.size)
            + c.hash.digest
    }
}

/// Whether a CID has a shape its binary form can carry: a version 0 CID is a
/// dag-pb sha2-256 one; a version 1 CID has 64-bit numbers and a digest of
/// the declared size.
pub open spec fn valid_cid(c: CidModel) -> bool {
    ||| c.version == 0 && c.codec == DAG_PB && c.hash.code == SHA2_256 && c.hash.size == 32 && c.hash.digest.len() == 32
    ||| c.version == 1 && c.codec <= u64::MAX && c.hash.code <= u64::MAX && c.hash.size <= u64::MAX
        && c.hash.digest.len() == c.hash.size
}

/// 128 to the power `j`.
pub open spec fn pow128(j: nat) -> nat
    decreases j,
{
    if j == 0 {
        1
    } else {
        128 * pow128((j - 1) as nat)
    }
}

proof fn lemma_uvarint_len(n: nat, j: nat)
    requires
        1 <= j,
        n < pow128(j),
    ensures
        1 <= uvarint_bytes(n).len() <= j,
    decreases n,
{
    if n >= 128 {
        let p = pow128((j - 1) as nat);
        if j == 1 {
            assert(pow128(1) == 128) by {
                reveal_with_fuel(pow128, 2);
            }
        } else {
            assert(n / 128 < p) by (nonlinear_arith)
                requires
                    n < 128 * p,
            ;
            lemma_uvarint_len(n / 128, (j - 1) as nat);
        }
    }
}

proof fn lemma_uvarint_fits(n: nat)
    requires
        n <= u64::MAX,
    ensures
        1 <= uvarint_bytes(n).len() <= VARINT_MAX_BYTES,
{
    assert(pow128(10) == 0x4000_0000_0000_0000_00) by {
        reveal_with_fuel(pow128, 11);
    }
    lemma_uvarint_len(n, 10);
}

/// Reading the varint bytes of `n` gives back `n`.
proof fn lemma_uvarint_read(n: nat, d: Seq<u8>, p: int, k: nat)
    requires
        n <= u64::MAX,
        0 <= p,
        p + uvarint_bytes(n).len() <= d.len(),
        d.subrange(p, p + uvarint_bytes(n).len()) == uvarint_bytes(n),
        k + uvarint_bytes(n).len() <= VARINT_MAX_BYTES,
    ensures
        uvarint(d, p, k) == Some((n, p + uvarint_bytes(n).len())),
    decreases n,
{
    let b = uvarint_bytes(n);
    assert(d[p] == d.subrange(p, p + b.len())[0]);
    if n >= 128 {
        let rest = uvarint_bytes(n / 128);
        lemma_uvarint_fits(n / 128);
        assert(d.subrange(p + 1, p + 1 + rest.len()) =~= b.subrange(1, b.len() as int));
        assert(b.subrange(1, b.len() as int) =~= rest);
        lemma_uvarint_read(n / 128, d, p + 1, k + 1);
    }
}

proof fn lemma_read_at(n: nat, d: Seq<u8>, p: int, tail: Seq<u8>)
    requires
        n <= u64::MAX,
        0 <= p <= d.len(),
        d.subrange(p, d.len() as int) == uvarint_bytes(n) + tail,
    ensures
        p + uvarint_bytes(n).len() <= d.len(),
        uvarint(d, p, 0) == Some((n, p + uvarint_bytes(n).len())),
        d.subrange(p + uvarint_bytes(n).len(), d.len() as int) == tail,
{
    let b = uvarint_bytes(n);
    lemma_uvarint_fits(n);
    assert(d.subrange(p, d.len() as int).len() == b.len() + tail.len());
    assert(d.subrange(p, p + b.len()) =~= (b + tail).subrange(0, b.len() as int));
    assert((b + tail).subrange(0, b.len() as int) =~= b);
    assert(d.subrange(p + b.len(), d.len() as int) =~= (b + tail).subrange(b.len() as int, (b + tail).len() as int));
    assert((b + tail).subrange(b.len() as int, (b + tail).len() as int) =~= tail);
    lemma_uvarint_read(n, d, p, 0);
}

/// The binary form of a well-shaped CID parses back to that CID.
pub proof fn lemma_cid_round_trip(c: CidModel)
    requires
        valid_cid(c),
    ensures
        cid_of_bytes(cid_bytes(c)) == Some(c),
{
    let d = cid_bytes(c);
    if c.version == 0 {
        assert(d[0] == 0x12 && d[1] == 0x20);
        assert(d.subrange(2, 34) =~= c.hash.digest);
    } else {
        let v = uvarint_bytes(c.version);
        let cd = uvarint_bytes(c.codec);
        let hc = uvarint_bytes(c.hash.code);
        let hs = uvarint_bytes(c.hash.size);
        let g = c.hash.digest;
        assert(d.subrange(0, d.len() as int) =~= v + (cd + (hc + (hs + g))));
        lemma_read_at(c.version, d, 0, cd + (hc + (hs + g)));
        let p1 = v.len() as int;
        lemma_read_at(c.codec, d, p1, hc + (hs + g));
        let p2 = p1 + cd.len();
        lemma_read_at(c.hash.code, d, p2, hs + g);
        let p3 = p2 + hc.len();
        lemma_read_at(c.hash.size, d, p3, g);
        let p4 = p3 + hs.len();
        assert(d.subrange(p4, p4 + c.hash.size) =~= g);
    }
}

/// Appends the varint bytes of `n`.
fn write_uvarint(out: &mut Vec<u8>, n: u64)
    ensures
        final(out)@ == old(out)@ + uvarint_bytes(n as nat),
    decreases n,
{
    if n < 128 {
        out.push(n as u8);
        proof {
            assert(final(out)@ =~= old(out)@ + uvarint_bytes(n as nat));
        }
    } else {
        out.push((n % 128 + 128) as u8);
        write_uvarint(out, n / 128);
        proof {
            assert(final(out)@ =~= old(out)@ + uvarint_bytes(n as nat));
        }
    }
}

/// The binary form of a CID (see `cid_bytes`).
pub fn cid_to_bytes(c: &Cid) -> (r: Vec<u8>)
    ensures
        r@ == cid_bytes(c@),
{
    let mut out: Vec<u8> = Vec::new();
    if c.version == 0 {
        out.push(SHA2_256 as u8);
        out.push(32u8);
    } else {
        write_uvarint(&mut out, c.version);
        write_uvarint(&mut out, c.codec);
        write_uvarint(&mut out, c.hash.code);
        write_uvarint(&mut out, c.hash.size);
    }
    let ghost head = out@;
    let mut i: usize = 0;
    while i < c.hash.digest.len()
        invariant
            i <= c.hash.digest@.len(),
            out@ == head + c.hash.digest@.subrange(0, i as int),
        decreases c.hash.digest@.len() - i,
    {
        out.push(c.hash.digest[i]);
        i += 1;
        proof {
            assert(out@ =~= head + c.hash.digest@.subrange(0, i as int));
        }
    }
    proof {
        assert(c.hash.digest@.subrange(0, i as int) =~= c.hash.digest@);
        assert(out@ =~= cid_bytes(c@));
    }
    out
}

} // verus!

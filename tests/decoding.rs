use ipld_decode::{
    decode_car, decode_cid, decode_dag_cbor, decode_dag_cbor_multi, Cid, DecodeError, FloatBits, Ipld,
};

fn cid_v1_bytes(codec: u8, fill: u8) -> Vec<u8> {
    let mut b = vec![0x01, codec, 0x12, 0x20];
    b.extend(std::iter::repeat(fill).take(32));
    b
}

fn link_bytes(cid: &[u8]) -> Vec<u8> {
    let mut b = vec![0xD8, 0x2A, 0x58, (cid.len() + 1) as u8, 0x00];
    b.extend_from_slice(cid);
    b
}

fn is_int(v: &Ipld, n: i128) -> bool {
    matches!(v, Ipld::Integer(x) if *x == n)
}

fn err_of(data: &[u8]) -> Option<DecodeError> {
    decode_dag_cbor(data).err()
}

#[test]
fn null_decodes() {
    assert!(matches!(decode_dag_cbor(&[0xF6]), Ok(Ipld::Null)));
}

#[test]
fn one_byte_integer_decodes() {
    assert!(is_int(&decode_dag_cbor(&[0x18, 0x2A]).unwrap(), 42));
}

#[test]
fn single_entry_map_decodes() {
    match decode_dag_cbor(&[0xA1, 0x61, b'a', 0x01]).unwrap() {
        Ipld::Dict(entries) => {
            assert_eq!(entries.len(), 1);
            assert_eq!(entries[0].0, "a");
            assert!(is_int(&entries[0].1, 1));
        }
        _ => panic!("expected a map"),
    }
}

#[test]
fn tag_42_decodes_to_link() {
    let cid = cid_v1_bytes(0x71, 7);
    let data = link_bytes(&cid);
    assert_eq!(data[3], 0x25);
    match decode_dag_cbor(&data).unwrap() {
        Ipld::Link(c) => {
            assert_eq!(c.version, 1);
            assert_eq!(c.codec, 0x71);
            assert_eq!(c.hash.code, 0x12);
            assert_eq!(c.hash.size, 32);
            assert_eq!(c.hash.digest, vec![7u8; 32]);
        }
        _ => panic!("expected a link"),
    }
}

#[test]
fn multi_stops_at_garbage() {
    let r = decode_dag_cbor_multi(&[0x01, 0x02, 0xFF]);
    assert_eq!(r.values.len(), 2);
    assert!(is_int(&r.values[0], 1));
    assert!(is_int(&r.values[1], 2));
    assert_eq!(r.bytes_consumed, 2);
}

#[test]
fn multi_on_empty_input() {
    let r = decode_dag_cbor_multi(&[]);
    assert_eq!(r.values.len(), 0);
    assert_eq!(r.bytes_consumed, 0);
}

#[test]
fn multi_consumes_clean_input() {
    let r = decode_dag_cbor_multi(&[0xF5, 0x61, b'x', 0x80]);
    assert_eq!(r.values.len(), 3);
    assert!(matches!(r.values[0], Ipld::Bool(true)));
    assert!(matches!(&r.values[1], Ipld::String(s) if s == "x"));
    assert!(matches!(&r.values[2], Ipld::List(l) if l.is_empty()));
    assert_eq!(r.bytes_consumed, 4);
}

#[test]
fn multi_stops_before_partial_object() {
    let r = decode_dag_cbor_multi(&[0x01, 0x82, 0x01]);
    assert_eq!(r.values.len(), 1);
    assert_eq!(r.bytes_consumed, 1);
}

#[test]
fn multi_prefix_gives_same_values() {
    let data = [0x01, 0x82, 0x02, 0x03, 0x1C];
    let r = decode_dag_cbor_multi(&data);
    assert_eq!(r.bytes_consumed, 4);
    let again = decode_dag_cbor_multi(&data[..r.bytes_consumed]);
    assert_eq!(again.values.len(), r.values.len());
    assert_eq!(again.bytes_consumed, r.bytes_consumed);
}

#[test]
fn decoding_twice_agrees() {
    let data = [0x82, 0x20, 0x63, b'a', b'b', b'c'];
    let a = decode_dag_cbor(&data).unwrap();
    let b = decode_dag_cbor(&data).unwrap();
    match (a, b) {
        (Ipld::List(x), Ipld::List(y)) => {
            assert_eq!(x.len(), 2);
            assert_eq!(y.len(), 2);
            assert!(is_int(&x[0], -1) && is_int(&y[0], -1));
            assert!(matches!((&x[1], &y[1]), (Ipld::String(s), Ipld::String(t)) if s == "abc" && t == "abc"));
        }
        _ => panic!("expected lists"),
    }
}

#[test]
fn negative_and_wide_integers() {
    assert!(is_int(&decode_dag_cbor(&[0x20]).unwrap(), -1));
    assert!(is_int(&decode_dag_cbor(&[0x38, 0x63]).unwrap(), -100));
    let max = [0x1B, 0xFF, 0xFF, 0xFF, 0xFF, 0xFF, 0xFF, 0xFF, 0xFF];
    assert!(is_int(&decode_dag_cbor(&max).unwrap(), 18446744073709551615));
    let min = [0x3B, 0xFF, 0xFF, 0xFF, 0xFF, 0xFF, 0xFF, 0xFF, 0xFF];
    assert!(is_int(&decode_dag_cbor(&min).unwrap(), -18446744073709551616));
    assert!(is_int(&decode_dag_cbor(&[0x19, 0x01, 0x00]).unwrap(), 256));
}

#[test]
fn floats_keep_their_bits() {
    let single = decode_dag_cbor(&[0xFA, 0x3F, 0xC0, 0x00, 0x00]).unwrap();
    assert!(matches!(single, Ipld::Float(FloatBits::Single(0x3FC0_0000))));
    let double = decode_dag_cbor(&[0xFB, 0x3F, 0xF8, 0, 0, 0, 0, 0, 0]).unwrap();
    assert!(matches!(double, Ipld::Float(FloatBits::Double(0x3FF8_0000_0000_0000))));
    assert_eq!(f32::from_bits(0x3FC0_0000) as f64, 1.5f64);
}

#[test]
fn bytes_and_booleans() {
    assert!(matches!(decode_dag_cbor(&[0x42, 0xAB, 0xCD]), Ok(Ipld::Bytes(b)) if b == vec![0xAB, 0xCD]));
    assert!(matches!(decode_dag_cbor(&[0xF4]), Ok(Ipld::Bool(false))));
    assert!(matches!(decode_dag_cbor(&[0x40]), Ok(Ipld::Bytes(b)) if b.is_empty()));
}

#[test]
fn trailing_bytes_after_single_value_are_ignored() {
    assert!(is_int(&decode_dag_cbor(&[0x05, 0xFF]).unwrap(), 5));
}

#[test]
fn malformed_cbor_is_rejected() {
    let bad: Vec<Vec<u8>> = vec![
        vec![],
        vec![0x18],
        vec![0x19, 0x01],
        vec![0x1C],
        vec![0x9F, 0xFF],
        vec![0x5F],
        vec![0x18, 0x05],
        vec![0x19, 0x00, 0x10],
        vec![0xA1, 0x01, 0x02],
        vec![0xA2, 0x61, b'a', 0x01, 0x61, b'a', 0x02],
        vec![0xC1, 0x00],
        vec![0xF7],
        vec![0xF9, 0x00, 0x00],
        vec![0x62, 0xFF, 0xFE],
        vec![0x82, 0x01],
        vec![0xD8, 0x2A, 0x41, 0x01],
        vec![0xD8, 0x2A, 0x01],
    ];
    for b in bad {
        assert_eq!(err_of(&b), Some(DecodeError::MalformedCbor), "input {:?}", b);
    }
}

#[test]
fn map_keys_keep_their_order() {
    let data = [0xA2, 0x61, b'b', 0x01, 0x61, b'a', 0x02];
    match decode_dag_cbor(&data).unwrap() {
        Ipld::Dict(e) => {
            assert_eq!(e[0].0, "b");
            assert_eq!(e[1].0, "a");
        }
        _ => panic!("expected a map"),
    }
}

#[test]
fn cid_v1_text_decodes() {
    let c = decode_cid("bafybeigdyrzt5sfp7udm7hu76uh7y26nf3efuylqabf3oclgtqy55fbzdi").unwrap();
    assert_eq!(c.version, 1);
    assert_eq!(c.codec, 0x70);
    assert_eq!(c.hash.code, 0x12);
    assert_eq!(c.hash.size, 32);
    assert_eq!(c.hash.digest.len(), 32);
    assert_eq!(c.hash.digest[0], 0xC3);
}

#[test]
fn cid_v0_text_decodes() {
    let c = decode_cid("QmYwAPJzv5CZsnA625s3Xf2nemtYgPpHdWEz79ojWnPbdG").unwrap();
    assert_eq!(c.version, 0);
    assert_eq!(c.codec, 0x70);
    assert_eq!(c.hash.code, 0x12);
    assert_eq!(c.hash.size, 32);
    assert_eq!(c.hash.digest.len(), 32);
}

#[test]
fn malformed_cids_are_rejected() {
    for s in ["", "!abc", "b", "bafy", "Qm", "zzzz"] {
        assert_eq!(decode_cid(s).err(), Some(DecodeError::MalformedCid), "input {:?}", s);
    }
}

fn frame(payload: &[u8]) -> Vec<u8> {
    assert!(payload.len() < 128);
    let mut f = vec![payload.len() as u8];
    f.extend_from_slice(payload);
    f
}

fn car_header(roots: &[Vec<u8>]) -> Vec<u8> {
    let mut h = vec![0xA2, 0x67];
    h.extend_from_slice(b"version");
    h.push(0x01);
    h.push(0x65);
    h.extend_from_slice(b"roots");
    h.push(0x80 + roots.len() as u8);
    for r in roots {
        h.extend(link_bytes(r));
    }
    frame(&h)
}

fn block(cid: &[u8], body: &[u8]) -> Vec<u8> {
    let mut p = cid.to_vec();
    p.extend_from_slice(body);
    frame(&p)
}

fn same(c: &Cid, bytes: &[u8]) -> bool {
    c.version == bytes[0] as u64 && c.codec == bytes[1] as u64 && c.hash.digest[..] == bytes[4..]
}

#[test]
fn car_blocks_decode() {
    let a = cid_v1_bytes(0x71, 1);
    let b = cid_v1_bytes(0x71, 2);
    let mut data = car_header(&[a.clone()]);
    data.extend(block(&a, &[0xA1, 0x61, b'a', 0x01]));
    data.extend(block(&b, &[0x82, 0x01, 0x02]));
    let car = decode_car(&data).unwrap();
    assert_eq!(car.header.version, 1);
    assert_eq!(car.header.roots.len(), 1);
    assert!(same(&car.header.roots[0], &a));
    assert_eq!(car.blocks.len(), 2);
    assert!(same(&car.blocks[0].cid, &a));
    assert!(matches!(&car.blocks[0].value, Ipld::Dict(e) if e.len() == 1));
    assert!(same(&car.blocks[1].cid, &b));
    assert!(matches!(&car.blocks[1].value, Ipld::List(l) if l.len() == 2));
}

#[test]
fn car_duplicate_cids_collapse() {
    let a = cid_v1_bytes(0x71, 1);
    let b = cid_v1_bytes(0x71, 2);
    let mut data = car_header(&[a.clone()]);
    data.extend(block(&a, &[0x01]));
    data.extend(block(&b, &[0x02]));
    data.extend(block(&a, &[0x03]));
    let car = decode_car(&data).unwrap();
    assert_eq!(car.blocks.len(), 2);
    assert!(same(&car.blocks[0].cid, &a));
    assert!(is_int(&car.blocks[0].value, 3));
    assert!(is_int(&car.blocks[1].value, 2));
}

#[test]
fn car_bad_blocks_are_dropped() {
    let a = cid_v1_bytes(0x71, 1);
    let b = cid_v1_bytes(0x71, 2);
    let mut data = car_header(&[a.clone()]);
    data.extend(block(&a, &[0xFF]));
    data.extend(frame(&[0x05, 0x05]));
    data.extend(block(&b, &[0xF6]));
    data.extend(vec![0x30, 0x01, 0x02]);
    let car = decode_car(&data).unwrap();
    assert_eq!(car.blocks.len(), 1);
    assert!(same(&car.blocks[0].cid, &b));
    assert!(matches!(car.blocks[0].value, Ipld::Null));
}

#[test]
fn car_header_errors() {
    let a = cid_v1_bytes(0x71, 1);
    assert_eq!(decode_car(&[]).err(), Some(DecodeError::MalformedCar));
    assert_eq!(decode_car(&[0x05, 0xA0]).err(), Some(DecodeError::MalformedCar));
    assert_eq!(decode_car(&frame(&[0x01])).err(), Some(DecodeError::MalformedCar));
    assert_eq!(decode_car(&car_header(&[])).err(), Some(DecodeError::MalformedCar));
    let mut no_roots = vec![0xA1, 0x67];
    no_roots.extend_from_slice(b"version");
    no_roots.push(0x01);
    assert_eq!(decode_car(&frame(&no_roots)).err(), Some(DecodeError::MalformedCar));
    assert!(decode_car(&car_header(&[a])).is_ok());
}

#[test]
fn error_descriptions() {
    assert_eq!(DecodeError::MalformedCbor.description(), "malformed DAG-CBOR");
    assert!(!DecodeError::MalformedCar.description().is_empty());
}

#[test]
fn cid_text_round_trip() {
    let text = "bafybeigdyrzt5sfp7udm7hu76uh7y26nf3efuylqabf3oclgtqy55fbzdi";
    let c = decode_cid(text).unwrap();
    let bytes = ipld_decode::cid::cid_to_bytes(&c);
    assert_eq!(bytes.len(), 36);
    assert_eq!(&bytes[..4], &[0x01, 0x70, 0x12, 0x20]);
    assert_eq!(multibase::encode(multibase::Base::Base32Lower, &bytes), text);
    let v0 = "QmYwAPJzv5CZsnA625s3Xf2nemtYgPpHdWEz79ojWnPbdG";
    let c0 = decode_cid(v0).unwrap();
    let b0 = ipld_decode::cid::cid_to_bytes(&c0);
    assert_eq!(b0.len(), 34);
    assert_eq!(multibase::Base::Base58Btc.encode(&b0), v0);
}

#[test]
fn cid_binary_round_trip_with_wide_varints() {
    let mut b = vec![0x01, 0x80, 0x01, 0x93, 0x02, 0x03, 0xAA, 0xBB, 0xCC];
    let c = ipld_decode::cid::cid_from_bytes(&b).unwrap();
    assert_eq!(c.codec, 128);
    assert_eq!(c.hash.code, 0x113);
    assert_eq!(c.hash.size, 3);
    assert_eq!(ipld_decode::cid::cid_to_bytes(&c), b);
    b.push(0x00);
    assert!(ipld_decode::cid::cid_from_bytes(&b).is_none());
}

#[test]
fn trailing_garbage_after_object() {
    let mut data = vec![0xA1, 0x61, b'k', 0x82, 0x01, 0x02];
    let n = data.len();
    data.extend_from_slice(&[0x1F, 0x00]);
    let r = decode_dag_cbor_multi(&data);
    assert_eq!(r.values.len(), 1);
    assert!(matches!(&r.values[0], Ipld::Dict(e) if e.len() == 1));
    assert_eq!(r.bytes_consumed, n);
}

#[test]
fn canonical_encoding_decodes_back() {
    // {"k": [0, -25, "é", h'00ff', false, 1000000, 2.5]} in canonical form
    let data = [
        0xA1, 0x61, b'k', 0x87, 0x00, 0x38, 0x18, 0x62, 0xC3, 0xA9, 0x42, 0x00, 0xFF, 0xF4, 0x1A, 0x00, 0x0F,
        0x42, 0x40, 0xFB, 0x40, 0x04, 0, 0, 0, 0, 0, 0,
    ];
    let v = decode_dag_cbor(&data).unwrap();
    let r = decode_dag_cbor_multi(&data);
    assert_eq!(r.bytes_consumed, data.len());
    let Ipld::Dict(entries) = v else { panic!("expected a map") };
    assert_eq!(entries.len(), 1);
    assert_eq!(entries[0].0, "k");
    let Ipld::List(items) = &entries[0].1 else { panic!("expected a list") };
    assert_eq!(items.len(), 7);
    assert!(is_int(&items[0], 0));
    assert!(is_int(&items[1], -25));
    assert!(matches!(&items[2], Ipld::String(s) if s == "é"));
    assert!(matches!(&items[3], Ipld::Bytes(b) if *b == vec![0x00, 0xFF]));
    assert!(matches!(items[4], Ipld::Bool(false)));
    assert!(is_int(&items[5], 1_000_000));
    assert!(matches!(items[6], Ipld::Float(FloatBits::Double(b)) if f64::from_bits(b) == 2.5));
}

#[test]
fn link_round_trips_through_cid_bytes() {
    let c = decode_cid("bafybeigdyrzt5sfp7udm7hu76uh7y26nf3efuylqabf3oclgtqy55fbzdi").unwrap();
    let bytes = ipld_decode::cid::cid_to_bytes(&c);
    let data = link_bytes(&bytes);
    match decode_dag_cbor(&data).unwrap() {
        Ipld::Link(l) => assert_eq!(ipld_decode::cid::cid_to_bytes(&l), bytes),
        _ => panic!("expected a link"),
    }
}

#[test]
fn v0_link_decodes() {
    let mut cid = vec![0x12, 0x20];
    cid.extend(std::iter::repeat(9u8).take(32));
    match decode_dag_cbor(&link_bytes(&cid)).unwrap() {
        Ipld::Link(c) => {
            assert_eq!(c.version, 0);
            assert_eq!(c.codec, 0x70);
            assert_eq!(c.hash.digest, vec![9u8; 32]);
        }
        _ => panic!("expected a link"),
    }
}

#[test]
fn nested_depth_and_text_keys() {
    let data = [0x81, 0x81, 0x81, 0xA1, 0x63, b'a', b'b', b'c', 0x60];
    let r = decode_dag_cbor(&data).unwrap();
    let Ipld::List(a) = r else { panic!() };
    let Ipld::List(b) = &a[0] else { panic!() };
    let Ipld::List(c) = &b[0] else { panic!() };
    let Ipld::Dict(d) = &c[0] else { panic!() };
    assert_eq!(d[0].0, "abc");
    assert!(matches!(&d[0].1, Ipld::String(s) if s.is_empty()));
}

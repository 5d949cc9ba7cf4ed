//! Byte-level and behavioral tests of the collection codec: exact wire
//! images, round trips for every element kind and envelope path, the
//! empty-collection shortcut, header flags, error variants, and the
//! in-place path's capacity reuse and partial-failure contract.

use std::collections::BTreeMap;
use std::collections::HashSet;

use fory_collection::collection::{
    read_collection, read_collection_into, read_collection_type_info, write_collection,
    write_collection_type_info, Clear, HAS_NULL, IS_SAME_TYPE,
};
use fory_collection::cursor::{Reader, Writer};
use fory_collection::error::Error;
use fory_collection::value::{
    ElemType, Value, BINARY_TYPE_ID, ENTRY_TYPE_ID, INT32_ARRAY_TYPE_ID, INT32_TYPE_ID,
    LIST_TYPE_ID, SET_TYPE_ID,
};

fn et(type_id: u32, is_polymorphic: bool, is_shared_ref: bool, is_option: bool) -> ElemType {
    ElemType { type_id, is_polymorphic, is_shared_ref, is_option }
}

fn encode(items: &Vec<Value>, is_field: bool, t: &ElemType) -> Vec<u8> {
    let mut w = Writer::new();
    write_collection(items, &mut w, is_field, t);
    w.into_vec()
}

#[test]
fn varint_round_trip_and_exact_bytes() {
    let mut w = Writer::new();
    w.write_varuint32(300);
    w.write_varuint32(0);
    w.write_varuint32(u32::MAX);
    let bytes = w.into_vec();
    assert_eq!(bytes[0..2].to_vec(), vec![0xAC, 0x02]);
    assert_eq!(bytes[2], 0);
    assert_eq!(bytes[3..].to_vec(), vec![0xFF, 0xFF, 0xFF, 0xFF, 0x0F]);
    let mut r = Reader::new(bytes);
    assert_eq!(r.read_varuint32().unwrap(), 300);
    assert_eq!(r.read_varuint32().unwrap(), 0);
    assert_eq!(r.read_varuint32().unwrap(), u32::MAX);
}

#[test]
fn varint_rejects_truncated_and_oversized() {
    let mut r = Reader::new(vec![0x80]);
    assert_eq!(r.read_varuint32(), Err(Error::Truncated));
    // 16 * 128^4 is exactly 2^32: one bit too many
    let mut r = Reader::new(vec![0x80, 0x80, 0x80, 0x80, 0x10]);
    assert_eq!(r.read_varuint32(), Err(Error::BadVarint));
}

#[test]
fn declared_field_exact_bytes_with_null() {
    let t = et(INT32_TYPE_ID, false, false, true);
    let items = vec![Value::I32(7), Value::Null];
    let bytes = encode(&items, true, &t);
    // length 2; header HAS_NULL | DECL_ELEMENT_TYPE | IS_SAME_TYPE; no type
    // metadata; marker-carrying elements
    assert_eq!(bytes, vec![2, 14, 1, 7, 0]);
    let mut r = Reader::new(bytes);
    let decoded = read_collection(&mut r, &t).unwrap();
    assert_eq!(decoded, items);
}

#[test]
fn non_field_exact_bytes_and_header_flags() {
    let t = et(INT32_TYPE_ID, false, false, false);
    let items = vec![Value::I32(7)];
    let bytes = encode(&items, false, &t);
    // length 1; header IS_SAME_TYPE only; element type id; bare raw value
    assert_eq!(bytes, vec![1, 8, 4, 7]);
    assert_eq!(bytes[1] & IS_SAME_TYPE, IS_SAME_TYPE);
    assert_eq!(bytes[1] & HAS_NULL, 0);
    assert_eq!(bytes[1] & 0b100, 0);
    // a declared-field encode sets the declared bit and omits the type id
    let declared = encode(&items, true, &t);
    assert_eq!(declared, vec![1, 12, 7]);
    assert_eq!(declared[1] & 0b100, 0b100);
    assert_eq!(bytes.len(), declared.len() + 1);
}

#[test]
fn empty_collection_shortcut() {
    let t = et(INT32_TYPE_ID, false, false, false);
    let items: Vec<Value> = Vec::new();
    // an empty collection is a single zero varint, whatever the field flag
    assert_eq!(encode(&items, true, &t), vec![0]);
    assert_eq!(encode(&items, false, &t), vec![0]);
    // decoding consumes only the length byte: no header byte is read
    let mut r = Reader::new(vec![0, 0xAB]);
    let decoded = read_collection(&mut r, &t).unwrap();
    assert!(decoded.is_empty());
    assert_eq!(r.pos, 1);
}

#[test]
fn collection_type_info_round_trip_and_cross_family() {
    // a dynamically typed collection carries its own identifier
    let mut w = Writer::new();
    write_collection_type_info(&mut w, false, LIST_TYPE_ID);
    let bytes = w.into_vec();
    assert_eq!(bytes, vec![21]);
    let mut r = Reader::new(bytes);
    assert_eq!(read_collection_type_info(&mut r, false, LIST_TYPE_ID), Ok(()));

    // a declared field carries nothing
    let mut w = Writer::new();
    write_collection_type_info(&mut w, true, LIST_TYPE_ID);
    assert!(w.into_vec().is_empty());

    // a primitive-array stream read as a generic list fails loudly
    let mut w = Writer::new();
    write_collection_type_info(&mut w, false, INT32_ARRAY_TYPE_ID);
    let mut r = Reader::new(w.into_vec());
    assert_eq!(
        read_collection_type_info(&mut r, false, LIST_TYPE_ID),
        Err(Error::CrossFamily)
    );

    // and the other way round
    let mut w = Writer::new();
    write_collection_type_info(&mut w, false, LIST_TYPE_ID);
    let mut r = Reader::new(w.into_vec());
    assert_eq!(
        read_collection_type_info(&mut r, false, INT32_ARRAY_TYPE_ID),
        Err(Error::CrossFamily)
    );

    // two generic identifiers that disagree are a plain type mismatch
    let mut w = Writer::new();
    write_collection_type_info(&mut w, false, SET_TYPE_ID);
    let mut r = Reader::new(w.into_vec());
    assert_eq!(
        read_collection_type_info(&mut r, false, LIST_TYPE_ID),
        Err(Error::TypeMismatch)
    );
}

#[test]
fn round_trip_every_element_kind() {
    let t = et(BINARY_TYPE_ID, false, false, false);
    let items = vec![
        Value::Bytes(b"".to_vec()),
        Value::Bytes(b"hello".to_vec()),
        Value::Bytes(vec![0, 255, 128]),
    ];
    let mut r = Reader::new(encode(&items, false, &t));
    assert_eq!(read_collection(&mut r, &t).unwrap(), items);

    let t = et(INT32_TYPE_ID, false, false, false);
    let items = vec![
        Value::I32(0),
        Value::I32(-1),
        Value::I32(i32::MIN),
        Value::I32(i32::MAX),
        Value::I32(42),
    ];
    let mut r = Reader::new(encode(&items, false, &t));
    assert_eq!(read_collection(&mut r, &t).unwrap(), items);

    let t = et(ENTRY_TYPE_ID, false, false, false);
    let items = vec![
        Value::Entry(b"alpha".to_vec(), -7),
        Value::Entry(b"".to_vec(), 0),
    ];
    let mut r = Reader::new(encode(&items, true, &t));
    assert_eq!(read_collection(&mut r, &t).unwrap(), items);
}

#[test]
fn round_trip_polymorphic_and_shared() {
    // polymorphic elements carry their own type identity
    let t = et(99, true, false, true);
    let items = vec![
        Value::I32(5),
        Value::Bytes(b"hi".to_vec()),
        Value::Null,
        Value::Entry(b"k".to_vec(), 7),
    ];
    let mut r = Reader::new(encode(&items, true, &t));
    assert_eq!(read_collection(&mut r, &t).unwrap(), items);

    // shared elements go through the full envelope even when homogeneous
    let t = et(INT32_TYPE_ID, false, true, true);
    let items = vec![Value::I32(1), Value::Null];
    let bytes = encode(&items, true, &t);
    assert_eq!(bytes, vec![2, 14, 1, 1, 0]);
    let mut r = Reader::new(bytes);
    assert_eq!(read_collection(&mut r, &t).unwrap(), items);
}

#[test]
fn skip_ref_flag_envelope_lite_sizes_differ() {
    // without nulls the envelope-lite path writes bare raw values
    let t = et(INT32_TYPE_ID, false, false, true);
    let no_null = vec![Value::I32(1), Value::I32(2), Value::I32(3)];
    let lite = encode(&no_null, true, &t);
    assert_eq!(lite, vec![3, 12, 1, 2, 3]);
    // injecting one null forces a marker onto every element
    let with_null = vec![Value::I32(1), Value::Null, Value::I32(3)];
    let marked = encode(&with_null, true, &t);
    assert_eq!(marked, vec![3, 14, 1, 1, 0, 1, 3]);
    assert_ne!(lite.len(), marked.len());
}

#[test]
fn element_type_mismatch_and_bad_envelope() {
    // the element type metadata is validated on read
    let t_written = et(INT32_TYPE_ID, false, false, false);
    let t_expected = et(BINARY_TYPE_ID, false, false, false);
    let items = vec![Value::I32(1)];
    let mut r = Reader::new(encode(&items, false, &t_written));
    assert_eq!(read_collection(&mut r, &t_expected), Err(Error::TypeMismatch));

    // an unknown marker byte is an element decode failure
    let t = et(INT32_TYPE_ID, false, false, true);
    let mut r = Reader::new(vec![1, 14, 5]);
    assert_eq!(read_collection(&mut r, &t), Err(Error::BadEnvelope));

    // a stream that ends inside an element is truncated
    let mut r = Reader::new(Vec::new());
    assert_eq!(read_collection(&mut r, &t), Err(Error::Truncated));
}

#[test]
fn in_place_reuse_preserves_capacity() {
    let t = et(INT32_TYPE_ID, false, false, false);
    let mut target: Vec<Value> = Vec::with_capacity(100);
    target.push(Value::I32(10));
    target.push(Value::I32(20));
    target.push(Value::I32(30));
    let reserved = target.capacity();
    let payload = vec![Value::I32(-5), Value::I32(6)];
    let mut r = Reader::new(encode(&payload, true, &t));
    read_collection_into(&mut r, &t, &mut target).unwrap();
    assert_eq!(target, payload);
    assert!(target.capacity() >= reserved);
}

#[test]
fn partial_failure_leaves_target_cleared() {
    let t = et(BINARY_TYPE_ID, false, false, false);
    // two byte runs promised, the second one truncated mid-element
    let corrupted = vec![2, 12, 3, 1, 2, 3, 5, 1];
    let mut target = vec![Value::I32(111), Value::I32(222)];
    let mut r = Reader::new(corrupted);
    assert_eq!(read_collection_into(&mut r, &t, &mut target), Err(Error::Truncated));
    assert!(target.is_empty());
}

#[test]
fn full_wire_with_collection_type_info() {
    // a dynamically typed collection: its own identifier travels first,
    // then the record; the reader validates both identifiers
    let t = et(INT32_TYPE_ID, false, false, false);
    let items = vec![Value::I32(-100), Value::I32(100)];
    let mut w = Writer::new();
    write_collection_type_info(&mut w, false, LIST_TYPE_ID);
    write_collection(&items, &mut w, false, &t);
    let mut bytes = w.into_vec();
    let record_len = bytes.len();
    bytes.push(0xEE);

    let mut r = Reader::new(bytes);
    read_collection_type_info(&mut r, false, LIST_TYPE_ID).unwrap();
    let decoded = read_collection(&mut r, &t).unwrap();
    assert_eq!(decoded, items);
    // decoding stops exactly at the record boundary
    assert_eq!(r.pos, record_len);
}

#[test]
fn in_place_decode_through_full_envelope() {
    // the in-place path replicates the polymorphic branch of the
    // allocating path
    let t = et(77, true, false, true);
    let items = vec![Value::Null, Value::Entry(b"n".to_vec(), 3), Value::I32(-2)];
    let mut target = vec![Value::I32(1)];
    let mut r = Reader::new(encode(&items, true, &t));
    read_collection_into(&mut r, &t, &mut target).unwrap();
    assert_eq!(target, items);
}

#[test]
fn clear_retains_no_logical_contents() {
    let mut v: Vec<i32> = vec![1, 2, 3];
    Clear::clear(&mut v);
    assert!(v.is_empty());

    let mut s: HashSet<u32> = HashSet::new();
    s.insert(9);
    Clear::clear(&mut s);
    assert!(s.is_empty());

    let mut m: BTreeMap<u64, u64> = BTreeMap::new();
    m.insert(1, 2);
    Clear::clear(&mut m);
    assert!(m.is_empty());
}

//! Tests for the in-place (deserialize-into) decode path: decoding into
//! caller-owned storage clears and refills it, reusing its allocation.

use std::collections::HashMap;

use fory_collection::collection::{read_collection, read_collection_into, write_collection, Clear};
use fory_collection::cursor::{Reader, Writer};
use fory_collection::value::{ElemType, Value, BINARY_TYPE_ID, ENTRY_TYPE_ID, INT32_TYPE_ID};

fn binary_elem_type() -> ElemType {
    ElemType {
        type_id: BINARY_TYPE_ID,
        is_polymorphic: false,
        is_shared_ref: false,
        is_option: false,
    }
}

fn int32_elem_type() -> ElemType {
    ElemType {
        type_id: INT32_TYPE_ID,
        is_polymorphic: false,
        is_shared_ref: false,
        is_option: false,
    }
}

fn entry_elem_type() -> ElemType {
    ElemType {
        type_id: ENTRY_TYPE_ID,
        is_polymorphic: false,
        is_shared_ref: false,
        is_option: false,
    }
}

#[test]
fn test_deserialize_into_basic_api() {
    // Test with a string payload
    let original = "Hello, deserialize_into!".to_string();
    let et = binary_elem_type();
    let items = vec![Value::Bytes(original.clone().into_bytes())];
    let mut w = Writer::new();
    write_collection(&items, &mut w, true, &et);
    let serialized = w.into_vec();
    let mut target: Vec<Value> = Vec::new();

    // This is the main in-place API
    let mut r = Reader::new(serialized);
    read_collection_into(&mut r, &et, &mut target).unwrap();
    assert_eq!(target, items);

    // Test with i32
    let original_num = 42i32;
    let et_num = int32_elem_type();
    let items_num = vec![Value::I32(original_num)];
    let mut w = Writer::new();
    write_collection(&items_num, &mut w, true, &et_num);
    let serialized = w.into_vec();
    let mut target_num: Vec<Value> = Vec::new();
    let mut r = Reader::new(serialized);
    read_collection_into(&mut r, &et_num, &mut target_num).unwrap();
    assert_eq!(target_num, items_num);
}

#[test]
fn test_deserialize_into_vs_deserialize() {
    let original_vec = vec![1, 2, 3, 4, 5];
    let et = int32_elem_type();
    let items: Vec<Value> = original_vec.iter().map(|n| Value::I32(*n)).collect();
    let mut w = Writer::new();
    write_collection(&items, &mut w, true, &et);
    let serialized = w.into_vec();

    // Traditional allocating decode
    let mut r1 = Reader::new(serialized.clone());
    let result1: Vec<Value> = read_collection(&mut r1, &et).unwrap();

    // In-place decode into caller storage
    let mut result2: Vec<Value> = Vec::new();
    let mut r2 = Reader::new(serialized);
    read_collection_into(&mut r2, &et, &mut result2).unwrap();

    // Both should produce the same result
    assert_eq!(result1, result2);
    assert_eq!(result2, items);
}

#[test]
fn test_deserialize_into_memory_reuse() {
    // Pre-allocate a large HashMap
    let mut target_map: HashMap<String, i32> = HashMap::with_capacity(1000);
    target_map.insert("existing".to_string(), 999);
    let initial_capacity = target_map.capacity();

    // Serialize a smaller map, which travels as a collection of entries
    let mut original_map = HashMap::new();
    original_map.insert("key1".to_string(), 1);
    original_map.insert("key2".to_string(), 2);
    let et = entry_elem_type();
    let mut pairs: Vec<(String, i32)> = original_map.iter().map(|(k, v)| (k.clone(), *v)).collect();
    pairs.sort();
    let items: Vec<Value> =
        pairs.iter().map(|(k, v)| Value::Entry(k.clone().into_bytes(), *v)).collect();
    let mut w = Writer::new();
    write_collection(&items, &mut w, true, &et);
    let serialized = w.into_vec();

    // Deserialize into the existing map: clear it, keeping its storage, and
    // refill it from the decoded entries
    Clear::clear(&mut target_map);
    let mut decoded: Vec<Value> = Vec::new();
    let mut r = Reader::new(serialized);
    read_collection_into(&mut r, &et, &mut decoded).unwrap();
    for v in decoded {
        if let Value::Entry(k, x) = v {
            target_map.insert(String::from_utf8(k).unwrap(), x);
        }
    }

    assert_eq!(target_map, original_map);
    // Capacity should be preserved or reasonable
    assert!(target_map.capacity() >= initial_capacity || target_map.capacity() >= 2);
}

#[test]
fn test_deserialize_into_overwrite_existing() {
    // Test that existing content is properly overwritten
    let old_string = "old content that should be replaced".to_string();
    let mut target = vec![Value::Bytes(old_string.clone().into_bytes())];
    let original_string = "new content".to_string();
    let et = binary_elem_type();
    let items = vec![Value::Bytes(original_string.clone().into_bytes())];
    let mut w = Writer::new();
    write_collection(&items, &mut w, true, &et);
    let serialized = w.into_vec();

    let mut r = Reader::new(serialized);
    read_collection_into(&mut r, &et, &mut target).unwrap();
    assert_eq!(target, items);
    assert_ne!(target, vec![Value::Bytes(old_string.into_bytes())]);
}

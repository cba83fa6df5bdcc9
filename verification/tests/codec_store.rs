//! The transport codec and the in-memory store, on concrete values.

use mcache::codec::{CodecError, decode, encode};
use mcache::executor::{AfterRead, ReadOutcome, on_read};
use mcache::store::MemStore;
use mcache::value::{Field, Value};

fn rec(fields: Vec<(&str, Value)>) -> Value {
    Value::Record(
        fields
            .into_iter()
            .map(|(n, v)| Field { name: n.to_string(), value: v })
            .collect(),
    )
}

#[test]
fn encode_exact_forms() {
    assert_eq!(encode(&Value::Null), "n");
    assert_eq!(encode(&Value::UInt(7)), "u7;");
    assert_eq!(encode(&Value::UInt(0)), "u0;");
    assert_eq!(encode(&Value::Text("hi".to_string())), "t2:hi");
    assert_eq!(encode(&Value::Text(String::new())), "t0:");
    assert_eq!(encode(&rec(vec![])), "r0:");
    assert_eq!(encode(&rec(vec![("id", Value::UInt(1))])), "r1:2:idu1;");
    assert_eq!(
        encode(&rec(vec![("id", Value::UInt(1)), ("name", Value::Text("ab".to_string()))])),
        "r2:2:idu1;4:namet2:ab"
    );
}

#[test]
fn round_trip_every_shape() {
    let shapes = vec![
        Value::Null,
        Value::UInt(0),
        Value::UInt(1),
        Value::UInt(u64::MAX),
        Value::Text(String::new()),
        Value::Text("plain".to_string()),
        Value::Text("separators ;:{}\"\\ survive 10:".to_string()),
        rec(vec![]),
        rec(vec![("id", Value::UInt(1)), ("name", Value::Text("async_user1".to_string()))]),
        rec(vec![
            ("outer", rec(vec![("inner", Value::Text("deep".to_string()))])),
            ("n", Value::Null),
        ]),
        rec(vec![("", Value::UInt(3))]),
    ];
    for v in shapes {
        let blob = encode(&v);
        assert_eq!(decode(&blob), Ok(v), "round trip through {:?}", blob);
    }
}

#[test]
fn malformed_blobs_are_rejected() {
    for blob in [
        "", "x", "u", "u;", "u12", "nn", "t", "t5:abc", "t2ab", "r", "r1:", "r1:2:id",
        "r1:2:idu1", "n extra", "u1;;", "99", ";",
    ] {
        assert_eq!(decode(blob), Err(CodecError::Malformed), "blob {:?} must be rejected", blob);
    }
}

#[test]
fn decode_accepts_exactly_one_value() {
    assert_eq!(decode("n"), Ok(Value::Null));
    assert_eq!(decode("u42;"), Ok(Value::UInt(42)));
    assert_eq!(decode("t3:a:b"), Ok(Value::Text("a:b".to_string())));
}

#[test]
fn store_set_then_get() {
    let mut store = MemStore::new();
    let key = "item:1".to_string();
    assert_eq!(store.get(&key, 0), None);
    store.set(&key, &"u1;".to_string(), 100, 0);
    assert_eq!(store.get(&key, 0), Some("u1;".to_string()));
    assert_eq!(store.get(&key, 99), Some("u1;".to_string()));
    assert_eq!(store.get(&key, 100), None);
    assert_eq!(store.get(&key, 150), None);
}

#[test]
fn store_last_write_wins() {
    let mut store = MemStore::new();
    let key = "k".to_string();
    store.set(&key, &"u1;".to_string(), 1000, 0);
    store.set(&key, &"u2;".to_string(), 1000, 0);
    assert_eq!(store.get(&key, 10), Some("u2;".to_string()));
}

#[test]
fn store_distinct_keys_are_independent() {
    let mut store = MemStore::new();
    let k1 = "item:1".to_string();
    let k2 = "item:2".to_string();
    store.set(&k1, &"u1;".to_string(), 1000, 0);
    assert_eq!(store.get(&k2, 0), None);
    store.set(&k2, &"u2;".to_string(), 1000, 0);
    assert_eq!(store.get(&k1, 0), Some("u1;".to_string()));
    assert_eq!(store.get(&k2, 0), Some("u2;".to_string()));
}

#[test]
fn store_zero_ttl_never_serves() {
    let mut store = MemStore::new();
    let key = "k".to_string();
    store.set(&key, &"n".to_string(), 0, 5);
    assert_eq!(store.get(&key, 5), None);
}

#[test]
fn read_decisions() {
    assert_eq!(on_read(ReadOutcome::Miss), AfterRead::MustCompute);
    assert_eq!(on_read(ReadOutcome::StoreUnavailable), AfterRead::MustCompute);
    assert_eq!(on_read(ReadOutcome::Hit("u5;".to_string())), AfterRead::UseCached(Value::UInt(5)));
    assert!(matches!(
        on_read(ReadOutcome::Hit("garbage".to_string())),
        AfterRead::BadEntry(CodecError::Malformed)
    ));
}

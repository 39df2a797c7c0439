use keyvalue_store::error::KvError;
use keyvalue_store::kv::KeyValueStore;

fn bytes(text: &str) -> Vec<u8> {
    text.as_bytes().to_vec()
}

fn letters() -> KeyValueStore {
    let mut store = KeyValueStore::new();
    for text in ["a", "b", "c", "d", "e"] {
        store.lpush("l", bytes(text)).unwrap();
    }
    store
}

#[test]
fn lpush_returns_the_new_length() {
    let mut store = KeyValueStore::new();
    assert_eq!(store.lpush("l", bytes("x")), Ok(1));
    assert_eq!(store.lpush("l", bytes("x")), Ok(2));
    assert_eq!(store.lpush("l", vec![]), Ok(3));
    assert_eq!(store.lrange("l", 0, 3), Ok(vec![bytes("x"), bytes("x"), vec![]]));
}

#[test]
fn lpush_then_lrange_keeps_the_order() {
    let mut store = KeyValueStore::new();
    store.lpush("L", bytes("first")).unwrap();
    store.lpush("L", bytes("second")).unwrap();
    store.lpush("L", bytes("third")).unwrap();
    assert_eq!(
        store.lrange("L", 0, 100),
        Ok(vec![bytes("first"), bytes("second"), bytes("third")])
    );
}

#[test]
fn lpush_on_another_shape_is_refused_and_changes_nothing() {
    let mut store = KeyValueStore::new();
    store.set("s", bytes("blob")).unwrap();
    assert_eq!(store.lpush("s", bytes("x")), Err(KvError::TypeMismatch));
    assert_eq!(store.get("s"), Ok(bytes("blob")));
}

#[test]
fn lrange_of_an_absent_key_is_empty() {
    let store = KeyValueStore::new();
    assert_eq!(store.lrange("nothing", 0, 10), Ok(vec![]));
}

#[test]
fn lrange_takes_from_start_up_to_stop() {
    let store = letters();
    assert_eq!(store.lrange("l", 1, 3), Ok(vec![bytes("b"), bytes("c")]));
    assert_eq!(store.lrange("l", 0, 1), Ok(vec![bytes("a")]));
    assert_eq!(store.lrange("l", 4, 5), Ok(vec![bytes("e")]));
}

#[test]
fn lrange_raises_a_negative_start_to_zero() {
    let store = letters();
    assert_eq!(store.lrange("l", -3, 2), Ok(vec![bytes("a"), bytes("b")]));
    assert_eq!(store.lrange("l", i32::MIN, 1), Ok(vec![bytes("a")]));
}

#[test]
fn lrange_lowers_stop_to_the_length() {
    let store = letters();
    assert_eq!(store.lrange("l", 3, 99), Ok(vec![bytes("d"), bytes("e")]));
    assert_eq!(store.lrange("l", 3, i32::MAX), Ok(vec![bytes("d"), bytes("e")]));
}

#[test]
fn lrange_is_empty_where_start_is_not_below_stop() {
    let store = letters();
    assert_eq!(store.lrange("l", 2, 2), Ok(vec![]));
    assert_eq!(store.lrange("l", 3, 1), Ok(vec![]));
    assert_eq!(store.lrange("l", 5, 100), Ok(vec![]));
    assert_eq!(store.lrange("l", 9, 100), Ok(vec![]));
    assert_eq!(store.lrange("l", 0, 0), Ok(vec![]));
}

#[test]
fn lrange_is_empty_for_a_negative_stop() {
    let store = letters();
    assert_eq!(store.lrange("l", 0, -1), Ok(vec![]));
    assert_eq!(store.lrange("l", -5, -2), Ok(vec![]));
}

#[test]
fn lrange_of_another_shape_is_a_mismatch() {
    let mut store = KeyValueStore::new();
    store.sadd("s", bytes("x")).unwrap();
    assert_eq!(store.lrange("s", 0, 1), Err(KvError::TypeMismatch));
}

#[test]
fn lrem_takes_out_every_equal_blob() {
    let mut store = KeyValueStore::new();
    for text in ["x", "a", "x", "b", "x", "x"] {
        store.lpush("l", bytes(text)).unwrap();
    }
    assert_eq!(store.lrem("l", bytes("x")), Ok(2));
    assert_eq!(store.lrange("l", 0, 10), Ok(vec![bytes("a"), bytes("b")]));
}

#[test]
fn lrem_of_a_blob_that_is_not_there_keeps_the_list() {
    let mut store = letters();
    assert_eq!(store.lrem("l", bytes("z")), Ok(5));
    assert_eq!(store.lrem("l", bytes("ab")), Ok(5));
    assert_eq!(
        store.lrange("l", 0, 10),
        Ok(vec![bytes("a"), bytes("b"), bytes("c"), bytes("d"), bytes("e")])
    );
}

#[test]
fn lrem_can_empty_a_list_which_stays() {
    let mut store = KeyValueStore::new();
    store.lpush("l", bytes("x")).unwrap();
    assert_eq!(store.lrem("l", bytes("x")), Ok(0));
    assert_eq!(store.key_exists("l"), Ok(true));
    assert_eq!(store.lrange("l", 0, 10), Ok(vec![]));
    assert_eq!(store.lpush("l", bytes("y")), Ok(1));
}

#[test]
fn lrem_of_an_absent_key_is_zero_and_makes_nothing() {
    let mut store = KeyValueStore::new();
    assert_eq!(store.lrem("l", bytes("x")), Ok(0));
    assert_eq!(store.key_exists("l"), Ok(false));
}

#[test]
fn lrem_on_another_shape_is_refused_and_changes_nothing() {
    let mut store = KeyValueStore::new();
    store.sadd("s", bytes("x")).unwrap();
    assert_eq!(store.lrem("s", bytes("x")), Err(KvError::TypeMismatch));
    assert_eq!(store.smembers("s".to_string()), Ok(vec![bytes("x")]));
}

#[test]
fn list_clear_deletes_the_key() {
    let mut store = letters();
    assert_eq!(store.list_clear("l"), Ok(()));
    assert_eq!(store.key_exists("l"), Ok(false));
    assert_eq!(store.lrange("l", 0, 10), Ok(vec![]));
    assert_eq!(store.list_clear("l"), Ok(()));
    assert_eq!(store.sadd("l", bytes("now a set")), Ok(1));
}

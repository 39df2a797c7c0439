use keyvalue_store::error::KvError;
use keyvalue_store::kv::KeyValueStore;

fn bytes(text: &str) -> Vec<u8> {
    text.as_bytes().to_vec()
}

#[test]
fn new_store_holds_nothing() {
    let store = KeyValueStore::new();
    assert_eq!(store.key_exists("anything"), Ok(false));
    assert_eq!(store.get("anything"), Err(KvError::NoSuchKey));
}

#[test]
fn incr_creates_the_counter_with_the_delta() {
    let mut store = KeyValueStore::new();
    assert_eq!(store.incr("hits", 7), Ok(7));
    assert_eq!(store.key_exists("hits"), Ok(true));
}

#[test]
fn incr_sums_all_deltas_since_creation() {
    let mut store = KeyValueStore::new();
    let deltas = [3, -10, 0, 25, -1, 1000, -2000];
    let mut sum = 0;
    for d in deltas {
        sum += d;
        assert_eq!(store.incr("n", d), Ok(sum));
    }
    assert_eq!(store.incr("n", 0), Ok(-983));
}

#[test]
fn incr_counts_anew_after_del() {
    let mut store = KeyValueStore::new();
    store.incr("n", 40).unwrap();
    store.incr("n", 2).unwrap();
    store.del("n").unwrap();
    assert_eq!(store.incr("n", 5), Ok(5));
}

#[test]
fn incr_refuses_a_sum_above_the_range() {
    let mut store = KeyValueStore::new();
    assert_eq!(store.incr("n", i32::MAX), Ok(i32::MAX));
    assert_eq!(store.incr("n", 1), Err(KvError::Overflow));
    assert_eq!(store.incr("n", 0), Ok(i32::MAX));
    assert_eq!(store.incr("n", -1), Ok(i32::MAX - 1));
}

#[test]
fn incr_refuses_a_sum_below_the_range() {
    let mut store = KeyValueStore::new();
    assert_eq!(store.incr("n", i32::MIN), Ok(i32::MIN));
    assert_eq!(store.incr("n", -1), Err(KvError::Overflow));
    assert_eq!(store.incr("n", 1), Ok(i32::MIN + 1));
}

#[test]
fn incr_on_another_shape_is_refused_and_changes_nothing() {
    let mut store = KeyValueStore::new();
    store.set("s", bytes("blob")).unwrap();
    assert_eq!(store.incr("s", 1), Err(KvError::TypeMismatch));
    assert_eq!(store.get("s"), Ok(bytes("blob")));
}

#[test]
fn set_then_get_returns_the_bytes() {
    let mut store = KeyValueStore::new();
    assert_eq!(store.set("k", vec![0, 255, 7]), Ok(()));
    assert_eq!(store.get("k"), Ok(vec![0, 255, 7]));
}

#[test]
fn set_keeps_the_last_write() {
    let mut store = KeyValueStore::new();
    store.set("k", bytes("one")).unwrap();
    store.set("k", bytes("two")).unwrap();
    store.set("k", vec![]).unwrap();
    assert_eq!(store.get("k"), Ok(vec![]));
    store.set("k", bytes("three")).unwrap();
    assert_eq!(store.get("k"), Ok(bytes("three")));
}

#[test]
fn set_touches_no_other_key() {
    let mut store = KeyValueStore::new();
    store.set("a", bytes("1")).unwrap();
    store.set("b", bytes("2")).unwrap();
    assert_eq!(store.get("a"), Ok(bytes("1")));
    assert_eq!(store.get("b"), Ok(bytes("2")));
}

#[test]
fn get_of_an_absent_key_is_no_such_key() {
    let mut store = KeyValueStore::new();
    store.set("k", bytes("v")).unwrap();
    assert_eq!(store.get("other"), Err(KvError::NoSuchKey));
    assert_eq!(store.get(""), Err(KvError::NoSuchKey));
}

#[test]
fn get_of_another_shape_is_a_mismatch() {
    let mut store = KeyValueStore::new();
    store.incr("n", 1).unwrap();
    store.lpush("l", bytes("x")).unwrap();
    store.sadd("s", bytes("x")).unwrap();
    store.sv_insert("v", &(1, bytes("x")), false).unwrap();
    assert_eq!(store.get("n"), Err(KvError::TypeMismatch));
    assert_eq!(store.get("l"), Err(KvError::TypeMismatch));
    assert_eq!(store.get("s"), Err(KvError::TypeMismatch));
    assert_eq!(store.get("v"), Err(KvError::TypeMismatch));
}

#[test]
fn set_on_another_shape_is_refused_and_changes_nothing() {
    let mut store = KeyValueStore::new();
    store.incr("n", 4).unwrap();
    assert_eq!(store.set("n", bytes("v")), Err(KvError::TypeMismatch));
    assert_eq!(store.incr("n", 0), Ok(4));
}

#[test]
fn key_exists_whatever_the_shape() {
    let mut store = KeyValueStore::new();
    store.incr("n", 1).unwrap();
    store.set("b", bytes("x")).unwrap();
    store.lpush("l", bytes("x")).unwrap();
    store.sadd("s", bytes("x")).unwrap();
    store.sv_insert("v", &(1, bytes("x")), false).unwrap();
    for key in ["n", "b", "l", "s", "v"] {
        assert_eq!(store.key_exists(key), Ok(true));
    }
    assert_eq!(store.key_exists("N"), Ok(false));
}

#[test]
fn del_removes_any_shape_and_ignores_absent_keys() {
    let mut store = KeyValueStore::new();
    store.incr("n", 1).unwrap();
    store.lpush("l", bytes("x")).unwrap();
    store.sadd("s", bytes("x")).unwrap();
    store.sv_insert("v", &(1, bytes("x")), false).unwrap();
    for key in ["n", "l", "s", "v", "never"] {
        assert_eq!(store.del(key), Ok(()));
        assert_eq!(store.key_exists(key), Ok(false));
    }
}

#[test]
fn a_deleted_key_takes_any_new_shape() {
    let mut store = KeyValueStore::new();
    store.sadd("k", bytes("member")).unwrap();
    assert_eq!(store.lpush("k", bytes("x")), Err(KvError::TypeMismatch));
    store.del("k").unwrap();
    assert_eq!(store.lpush("k", bytes("x")), Ok(1));
    store.del("k").unwrap();
    assert_eq!(store.incr("k", 9), Ok(9));
    store.del("k").unwrap();
    assert_eq!(store.set("k", bytes("s")), Ok(()));
    store.del("k").unwrap();
    assert_eq!(store.sv_insert("k", &(3, bytes("p")), false), Ok(true));
    store.del("k").unwrap();
    assert_eq!(store.sadd("k", bytes("m")), Ok(1));
    assert_eq!(store.smembers("k".to_string()), Ok(vec![bytes("m")]));
}

#[test]
fn each_failure_has_its_message() {
    assert_eq!(KvError::NoSuchKey.message(), "no such key");
    assert_eq!(KvError::TypeMismatch.message(), "the key holds an item of another shape");
    assert_eq!(KvError::Overflow.message(), "the value does not fit in 32 bits");
    assert_eq!(KvError::IndexOutOfRange.message(), "none of the keys holds a set");
}

#[test]
fn get_or_absent_tells_whether_there_is_a_scalar() {
    let mut store = KeyValueStore::new();
    store.set("s", bytes("blob")).unwrap();
    store.set("empty", vec![]).unwrap();
    store.incr("n", 1).unwrap();
    assert_eq!(store.get_or_absent("s"), (bytes("blob"), true));
    assert_eq!(store.get_or_absent("empty"), (vec![], true));
    assert_eq!(store.get_or_absent("n"), (vec![], false));
    assert_eq!(store.get_or_absent("nothing"), (vec![], false));
}

use keyvalue_store::error::KvError;
use keyvalue_store::kv::KeyValueStore;

fn bytes(text: &str) -> Vec<u8> {
    text.as_bytes().to_vec()
}

fn sorted(mut blobs: Vec<Vec<u8>>) -> Vec<Vec<u8>> {
    blobs.sort();
    blobs
}

fn keys(names: &[&str]) -> Vec<String> {
    names.iter().map(|name| name.to_string()).collect()
}

fn two_sets() -> KeyValueStore {
    let mut store = KeyValueStore::new();
    store.sadd("A", bytes("x")).unwrap();
    store.sadd("A", bytes("y")).unwrap();
    store.sadd("B", bytes("y")).unwrap();
    store.sadd("B", bytes("z")).unwrap();
    store
}

#[test]
fn sadd_returns_the_cardinality() {
    let mut store = KeyValueStore::new();
    assert_eq!(store.sadd("s", bytes("a")), Ok(1));
    assert_eq!(store.sadd("s", bytes("b")), Ok(2));
    assert_eq!(store.sadd("s", bytes("a")), Ok(2));
    assert_eq!(store.sadd("s", vec![]), Ok(3));
    assert_eq!(store.sadd("s", vec![]), Ok(3));
    assert_eq!(
        sorted(store.smembers("s".to_string()).unwrap()),
        vec![vec![], bytes("a"), bytes("b")]
    );
}

#[test]
fn sadd_on_another_shape_is_refused_and_changes_nothing() {
    let mut store = KeyValueStore::new();
    store.lpush("l", bytes("x")).unwrap();
    assert_eq!(store.sadd("l", bytes("y")), Err(KvError::TypeMismatch));
    assert_eq!(store.lrange("l", 0, 10), Ok(vec![bytes("x")]));
}

#[test]
fn srem_returns_the_cardinality() {
    let mut store = two_sets();
    assert_eq!(store.srem("A", bytes("x")), Ok(1));
    assert_eq!(store.srem("A", bytes("x")), Ok(1));
    assert_eq!(store.srem("A", bytes("never")), Ok(1));
    assert_eq!(store.smembers("A".to_string()), Ok(vec![bytes("y")]));
    assert_eq!(store.srem("A", bytes("y")), Ok(0));
    assert_eq!(store.key_exists("A"), Ok(true));
    assert_eq!(store.smembers("A".to_string()), Ok(vec![]));
}

#[test]
fn srem_of_an_absent_key_is_zero_and_makes_nothing() {
    let mut store = KeyValueStore::new();
    assert_eq!(store.srem("s", bytes("x")), Ok(0));
    assert_eq!(store.key_exists("s"), Ok(false));
}

#[test]
fn srem_on_another_shape_is_refused_and_changes_nothing() {
    let mut store = KeyValueStore::new();
    store.lpush("l", bytes("x")).unwrap();
    assert_eq!(store.srem("l", bytes("x")), Err(KvError::TypeMismatch));
    assert_eq!(store.lrange("l", 0, 10), Ok(vec![bytes("x")]));
}

#[test]
fn smembers_of_an_absent_key_is_empty() {
    let store = KeyValueStore::new();
    assert_eq!(store.smembers("s".to_string()), Ok(vec![]));
}

#[test]
fn smembers_of_another_shape_is_a_mismatch() {
    let mut store = KeyValueStore::new();
    store.incr("n", 1).unwrap();
    assert_eq!(store.smembers("n".to_string()), Err(KvError::TypeMismatch));
}

#[test]
fn sunion_of_two_sets() {
    let store = two_sets();
    let union = store.sunion(keys(&["A", "B"])).unwrap();
    assert_eq!(sorted(union), vec![bytes("x"), bytes("y"), bytes("z")]);
}

#[test]
fn sinter_of_two_sets() {
    let store = two_sets();
    let inter = store.sinter(keys(&["A", "B"])).unwrap();
    assert_eq!(inter, vec![bytes("y")]);
}

#[test]
fn sunion_passes_over_absent_keys_and_other_shapes() {
    let mut store = two_sets();
    store.lpush("list", bytes("q")).unwrap();
    let union = store.sunion(keys(&["nothing", "A", "list"])).unwrap();
    assert_eq!(sorted(union), vec![bytes("x"), bytes("y")]);
    assert_eq!(store.sunion(keys(&["nothing", "list"])), Ok(vec![]));
    assert_eq!(store.sunion(vec![]), Ok(vec![]));
}

#[test]
fn sunion_lists_each_member_once() {
    let store = two_sets();
    let union = store.sunion(keys(&["A", "A", "B", "A"])).unwrap();
    assert_eq!(sorted(union), vec![bytes("x"), bytes("y"), bytes("z")]);
}

#[test]
fn sinter_passes_over_absent_keys_and_other_shapes() {
    let mut store = two_sets();
    store.lpush("list", bytes("q")).unwrap();
    let inter = store.sinter(keys(&["list", "nothing", "B", "A"])).unwrap();
    assert_eq!(inter, vec![bytes("y")]);
    let alone = store.sinter(keys(&["nothing", "A"])).unwrap();
    assert_eq!(sorted(alone), vec![bytes("x"), bytes("y")]);
}

#[test]
fn sinter_of_disjoint_sets_is_empty() {
    let mut store = two_sets();
    store.sadd("C", bytes("w")).unwrap();
    assert_eq!(store.sinter(keys(&["A", "B", "C"])), Ok(vec![]));
}

#[test]
fn sinter_without_any_set_is_out_of_range() {
    let mut store = KeyValueStore::new();
    store.lpush("list", bytes("q")).unwrap();
    assert_eq!(store.sinter(vec![]), Err(KvError::IndexOutOfRange));
    assert_eq!(store.sinter(keys(&["nothing"])), Err(KvError::IndexOutOfRange));
    assert_eq!(store.sinter(keys(&["list", "nothing"])), Err(KvError::IndexOutOfRange));
}

#[test]
fn members_differ_by_their_bytes() {
    let mut store = KeyValueStore::new();
    assert_eq!(store.sadd("s", vec![1, 2]), Ok(1));
    assert_eq!(store.sadd("s", vec![1, 2, 0]), Ok(2));
    assert_eq!(store.sadd("s", vec![2, 1]), Ok(3));
    assert_eq!(store.sadd("s", vec![1, 2]), Ok(3));
    assert_eq!(store.srem("s", vec![1]), Ok(3));
    assert_eq!(store.srem("s", vec![1, 2]), Ok(2));
}

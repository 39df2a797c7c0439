use keyvalue_store::kv::KeyValueStore;

fn gen_store() -> KeyValueStore {
    let mut store = KeyValueStore::new();
    store.sadd("test", "bob".to_owned().into_bytes()).unwrap();
    store.sadd("test", "alice".to_owned().into_bytes()).unwrap();
    store.sadd("test", "dave".to_owned().into_bytes()).unwrap();
    store.sadd("test2", "bob".to_owned().into_bytes()).unwrap();
    store.sadd("test2", "dave".to_owned().into_bytes()).unwrap();

    store.lpush("list1", "first".to_owned().into_bytes()).unwrap();
    store.lpush("list1", "second".to_owned().into_bytes()).unwrap();
    store.lpush("list1", "third".to_owned().into_bytes()).unwrap();

    store.incr("counter", 5).unwrap();

    store.set("setkey", "setval".to_owned().into_bytes()).unwrap();

    store
}

#[test]
fn test_intersect() {
    let store = gen_store();

    let inter = store
        .sinter(vec!["test".to_string(), "test2".to_string()])
        .unwrap();
    assert!(inter.contains(&"bob".to_owned().into_bytes()));
    assert!(inter.contains(&"dave".to_owned().into_bytes()));
    assert_eq!(false, inter.contains(&"alice".to_owned().into_bytes()));
}

#[test]
fn test_union() {
    let store = gen_store();

    let union = store
        .sunion(vec!["test".to_string(), "test2".to_string()])
        .unwrap();
    assert_eq!(3, union.len());
}

#[test]
fn test_get_set() {
    let store = gen_store();

    assert_eq!("setval".to_owned().into_bytes(), store.get("setkey").unwrap());
}

#[test]
fn test_list() {
    let store = gen_store();
    assert_eq!(
        vec![
            "first".to_owned().into_bytes(),
            "second".to_owned().into_bytes(),
            "third".to_owned().into_bytes()
        ],
        store.lrange("list1", 0, 100).unwrap()
    );
}

#[test]
fn test_incr() {
    let mut store = gen_store();

    let a = store.incr("counter", 1).unwrap();
    let b = store.incr("counter", 1).unwrap();
    let c = store.incr("counter", -3).unwrap();

    assert_eq!(a, 6);
    assert_eq!(b, 7);
    assert_eq!(c, 4);
}

#[test]
fn test_exists_and_del() {
    let mut store = gen_store();

    store.set("thenumber", "42".to_owned().into_bytes()).unwrap();
    assert!(store.key_exists("thenumber").unwrap());
    store.del("thenumber").unwrap();
    assert_eq!(false, store.key_exists("thenumber").unwrap());
    store.set("thenumber", "41".to_owned().into_bytes()).unwrap();
    assert!(store.key_exists("thenumber").unwrap());
}

#[test]
fn test_sorted_vec() {
    let mut store = gen_store();
    let tup0 = (0, "zero".to_owned().into_bytes());
    let tup1 = (1, "one".to_owned().into_bytes());
    let tup3 = (3, "three".to_owned().into_bytes());
    store.sv_insert("sorted", &tup1, false).unwrap();
    store.sv_insert("sorted", &tup0, false).unwrap();
    store.sv_insert("sorted", &tup3, false).unwrap();
    let r = store.sv_into_vec("sorted").unwrap();
    assert_eq!(r, vec![tup0.clone(), tup1.clone(), tup3.clone()]);
    let tup2 = (2, "two".to_owned().into_bytes());
    store.sv_insert("sorted", &tup2, false).unwrap();
    let r = store.sv_into_vec("sorted").unwrap();
    assert_eq!(r, vec![tup0.clone(), tup1.clone(), tup2.clone(), tup3.clone()]);
    store.sv_tail_off("sorted", 2).unwrap();
    let r = store.sv_into_vec("sorted").unwrap();
    assert_eq!(r, vec![tup0.clone(), tup1.clone()]);
}

use content_store::backend::hashmap::MemoryBackend;
use content_store::content::Content;
use content_store::hash::BlakeResultWrap;
use content_store::store::Store;

#[test]
fn put_u8() {
    let mut store: Store<i32, MemoryBackend> = Store::new();

    let mut a = 42;
    let mut b = 43;
    let hash = store.put(&mut a).unwrap();
    let hash2 = store.put(&mut b).unwrap();

    assert_eq!(store.get(&hash).unwrap(), 42);
    assert_eq!(store.get(&hash2).unwrap(), 43);
}

fn put_get<T: Content<MemoryBackend> + PartialEq + std::fmt::Debug>(t: T) {
    let mut store: Store<T, MemoryBackend> = Store::new();
    let mut v = t;
    let hash = store.put(&mut v).unwrap();
    assert_eq!(store.get(&hash).unwrap(), v);
}

#[test]
fn std_values() {
    put_get(Some(46u64));
    put_get(None as Option<u64>);
    put_get(38u64);
}

#[test]
fn hash_of_hash() {
    let mut store1: Store<u8, MemoryBackend> = Store::new();
    let mut store2: Store<BlakeResultWrap, MemoryBackend> = Store::new();

    let mut val = 42u8;
    let hash1 = store1.put(&mut val).unwrap();
    let mut hash1_copy = hash1.clone();
    let hash2 = store2.put(&mut hash1_copy).unwrap();

    let hash1_b = store2.get(&hash2).unwrap();
    let val_b = store1.get(&hash1_b).unwrap();

    assert!(hash1 == hash1_b);
    assert!(val == val_b);
}

#[test]
fn more_integers_round_trip() {
    put_get(0u16);
    put_get(65535u16);
    put_get(305419896u32);
    put_get(-2i16);
    put_get(-70000i32);
    put_get(-1i64);
    put_get(());
    put_get((7u8, 1000u16));
    put_get(Some(Box::new(8u8)));
}

#[test]
fn determinism_across_stores() {
    let mut store1: Store<u64, MemoryBackend> = Store::new();
    let mut store2: Store<u64, MemoryBackend> = Store::new();
    let mut a = 42u64;
    let mut b = 42u64;
    let d1 = store1.put(&mut a).unwrap();
    let d2 = store2.put(&mut b).unwrap();
    assert!(d1 == d2);
}

use content_store::backend::hashmap::MemoryBackend;
use content_store::backend::void::VoidBackend;
use content_store::backend::Backend;
use content_store::error::Error;
use content_store::lazy::Lazy;
use content_store::store::Store;

#[test]
fn lazy_byte() {
    let mut store: Store<Lazy<u8>, MemoryBackend> = Store::new();

    let mut lazy = Lazy::new(8u8);
    let hash = store.put(&mut lazy).unwrap();
    let mut restored = store.get(&hash).unwrap();

    assert!(lazy.hash() == restored.hash());
}

#[test]
fn equality() {
    let mut store: Store<Lazy<u8>, MemoryBackend> = Store::new();

    let mut lazy = Lazy::new(8u8);
    let mut unstored = Lazy::new(8u8);

    let hash = store.put(&mut lazy).unwrap();
    let mut restored = store.get(&hash).unwrap();

    assert!(lazy.hash() == unstored.hash());
    assert!(lazy.hash() == restored.hash());
}

type LazyFoo = (u8, (Lazy<u8>, Lazy<Lazy<u8>>));

fn lazy_foo() -> LazyFoo {
    (8u8, (Lazy::new(8u8), Lazy::new(Lazy::new(8u8))))
}

#[test]
fn lazyfoo() {
    let mut store: Store<LazyFoo, MemoryBackend> = Store::new();

    let mut lazy = lazy_foo();
    let mut unstored = lazy_foo();

    let hash = store.put(&mut lazy).unwrap();
    let mut restored = store.get(&hash).unwrap();

    assert_eq!(lazy.0, unstored.0);
    assert!((lazy.1).0.hash() == (unstored.1).0.hash());
    assert!((lazy.1).1.hash() == (unstored.1).1.hash());
    assert_eq!(lazy.0, restored.0);
    assert!((lazy.1).0.hash() == (restored.1).0.hash());
    assert!((lazy.1).1.hash() == (restored.1).1.hash());
}

#[test]
fn lazy_deref() {
    let mut store: Store<LazyFoo, MemoryBackend> = Store::new();

    let mut foo = lazy_foo();

    {
        assert_eq!(*(foo.1).0.as_ref(store.backend()).unwrap(), 8u8);
        let inner = (foo.1).1.try_value().unwrap();
        assert_eq!(*inner.try_value().unwrap(), 8u8);
    }

    let hash = store.put(&mut foo).unwrap();
    let restored = store.get(&hash).unwrap();

    let (_a, (b, c)) = restored;
    let mut b = b;
    assert_eq!(*b.as_ref(store.backend()).unwrap(), 8u8);
    let mut inner: Lazy<u8> = c.into_inner(store.backend()).unwrap();
    assert_eq!(*inner.as_ref(store.backend()).unwrap(), 8u8);
}

#[test]
fn equality_before_storage() {
    let mut a = Lazy::new(7u8);
    let mut b = Lazy::new(7u8);
    assert!(a.hash() == b.hash());
}

#[test]
fn cached_value_needs_no_backend() {
    let mut store: Store<Lazy<u8>, MemoryBackend> = Store::new();
    let mut lazy = Lazy::new(8u8);
    let outer = store.put(&mut lazy).unwrap();

    // The value is cached, so reading it again must not touch any
    // backend at all: a discard backend cannot serve reads.
    let void = VoidBackend;
    assert_eq!(*lazy.as_ref(&void).unwrap(), 8u8);

    let mut restored: Lazy<u8> = store.get(&outer).unwrap();
    assert_eq!(*restored.as_ref(store.backend()).unwrap(), 8u8);
    assert_eq!(*restored.as_ref(&void).unwrap(), 8u8);
}

#[test]
fn write_once_across_parents() {
    let mut store1: Store<Lazy<u8>, MemoryBackend> = Store::new();
    let mut store2: Store<Lazy<u8>, MemoryBackend> = Store::new();

    let mut lazy = Lazy::new(8u8);
    store1.put(&mut lazy).unwrap();
    let inner_digest = lazy.hash();

    // The wrapped value was persisted by the first put; serializing the
    // same instance into a second store writes only the digest, so the
    // inner blob exists in the first backend alone.
    store2.put(&mut lazy).unwrap();
    assert!(store1.backend().request(&inner_digest).is_ok());
    assert!(matches!(
        store2.backend().request(&inner_digest),
        Err(Error::NotFound)
    ));
}

#[test]
fn describe_states() {
    let mut lazy = Lazy::new(8u8);
    assert_eq!(lazy.describe(), "bare");
    let d = lazy.hash();
    assert_eq!(lazy.describe(), format!("hashed {}", d.to_hex()));

    let mut store: Store<Lazy<u8>, MemoryBackend> = Store::new();
    let outer = store.put(&mut lazy).unwrap();
    assert_eq!(lazy.describe(), format!("full {}", d.to_hex()));

    let restored: Lazy<u8> = store.get(&outer).unwrap();
    assert_eq!(restored.describe(), format!("lazy {}", d.to_hex()));
}

#[test]
fn hash_is_stable_and_cached() {
    let mut lazy = Lazy::new(46u64);
    let d1 = lazy.hash();
    let d2 = lazy.hash();
    assert!(d1 == d2);

    let mut store: Store<Lazy<u64>, MemoryBackend> = Store::new();
    store.put(&mut lazy).unwrap();
    let d3 = lazy.hash();
    assert!(d1 == d3);
}

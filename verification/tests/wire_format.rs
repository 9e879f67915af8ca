use content_store::backend::hashmap::MemoryBackend;
use content_store::backend::Backend;
use content_store::error::Error;
use content_store::hash::{BlakeResultWrap, BlakeWrap};
use content_store::store::{store_value, Store};

#[test]
fn primitive_round_trip() {
    let mut store: Store<u8, MemoryBackend> = Store::new();
    let mut v = 8u8;
    let hash = store.put(&mut v).unwrap();

    let blob = store.backend().request(&hash).unwrap();
    assert_eq!(blob.len(), 1);
    assert_eq!(store.get(&hash).unwrap(), 8u8);
}

#[test]
fn optional_encoding() {
    let mut store: Store<Option<u64>, MemoryBackend> = Store::new();

    let mut some = Some(46u64);
    let some_hash = store.put(&mut some).unwrap();
    let some_blob = store.backend().request(&some_hash).unwrap();
    assert_eq!(some_blob.len(), 1 + 8);
    assert_eq!(store.get(&some_hash).unwrap(), Some(46u64));

    let mut none: Option<u64> = None;
    let none_hash = store.put(&mut none).unwrap();
    let none_blob = store.backend().request(&none_hash).unwrap();
    assert_eq!(none_blob.len(), 1);
    assert_eq!(store.get(&none_hash).unwrap(), None);
}

#[test]
fn big_endian_encodings() {
    let mut backend = MemoryBackend::new();

    let d = store_value(&mut 46u64, &mut backend).unwrap();
    assert_eq!(backend.request(&d).unwrap(), vec![0, 0, 0, 0, 0, 0, 0, 46]);

    let d = store_value(&mut 0x0102u16, &mut backend).unwrap();
    assert_eq!(backend.request(&d).unwrap(), vec![1, 2]);

    let d = store_value(&mut (-1i64), &mut backend).unwrap();
    assert_eq!(backend.request(&d).unwrap(), vec![255; 8]);

    let d = store_value(&mut Some(46u64), &mut backend).unwrap();
    assert_eq!(
        backend.request(&d).unwrap(),
        vec![1, 0, 0, 0, 0, 0, 0, 0, 46]
    );

    let d = store_value(&mut (), &mut backend).unwrap();
    assert_eq!(backend.request(&d).unwrap(), Vec::<u8>::new());

    let d = store_value(&mut (7u8, 0x0102u16), &mut backend).unwrap();
    assert_eq!(backend.request(&d).unwrap(), vec![7, 1, 2]);
}

#[test]
fn digest_matches_reference_blake2b() {
    let mut store: Store<u8, MemoryBackend> = Store::new();
    let mut v = 8u8;
    let hash = store.put(&mut v).unwrap();

    let expected = blake2_rfc::blake2b::blake2b(32, &[], &[8u8]);
    assert_eq!(hash.as_ref(), expected.as_bytes());
}

#[test]
fn streaming_hasher_matches_one_shot() {
    let mut h = BlakeWrap::new();
    h.write(&[1, 2, 3]);
    h.write(&[]);
    h.write(&[4]);
    let d = h.fin();
    let expected = blake2_rfc::blake2b::blake2b(32, &[], &[1, 2, 3, 4]);
    assert_eq!(d.as_ref(), expected.as_bytes());
}

#[test]
fn not_found() {
    let mut filled: Store<u8, MemoryBackend> = Store::new();
    let mut v = 5u8;
    let d = filled.put(&mut v).unwrap();

    let mut empty: Store<u8, MemoryBackend> = Store::new();
    assert!(matches!(empty.get(&d), Err(Error::NotFound)));
}

#[test]
fn invalid_presence_tag() {
    let mut backend = MemoryBackend::new();
    let d = store_value(&mut 2u8, &mut backend).unwrap();
    let mut store: Store<Option<u8>, MemoryBackend> = Store::new_with_backend(backend);
    assert!(matches!(store.get(&d), Err(Error::InvalidEncoding)));
}

#[test]
fn trailing_bytes_rejected() {
    let mut backend = MemoryBackend::new();
    let d = store_value(&mut (1u8, 2u8), &mut backend).unwrap();
    let mut store: Store<u8, MemoryBackend> = Store::new_with_backend(backend);
    assert!(matches!(store.get(&d), Err(Error::InvalidEncoding)));
}

#[test]
fn truncated_stream_rejected() {
    let mut backend = MemoryBackend::new();
    let d = store_value(&mut 1u8, &mut backend).unwrap();
    let mut store: Store<Option<u64>, MemoryBackend> = Store::new_with_backend(backend);
    assert!(matches!(store.get(&d), Err(Error::InvalidEncoding)));
}

#[test]
fn memory_backend_deduplicates() {
    let mut backend = MemoryBackend::new();
    let d1 = store_value(&mut 5u8, &mut backend).unwrap();
    assert!(backend.contains_key(&d1));
    let d2 = store_value(&mut 5u8, &mut backend).unwrap();
    assert!(d1 == d2);
    assert_eq!(backend.request(&d1).unwrap(), vec![5]);
}

#[test]
fn content_length_consistency() {
    let mut backend = MemoryBackend::new();
    let d1 = store_value(&mut 46u64, &mut backend).unwrap();
    let first = backend.request(&d1).unwrap();
    let d2 = store_value(&mut 46u64, &mut backend).unwrap();
    let second = backend.request(&d2).unwrap();
    assert!(d1 == d2);
    assert_eq!(first.len(), 8);
    assert_eq!(first, second);
}

#[test]
fn hex_rendering() {
    let bytes: Vec<u8> = (0u8..32u8).collect();
    let digest = BlakeResultWrap::from_bytes(bytes);
    assert_eq!(
        digest.to_hex(),
        "000102030405060708090a0b0c0d0e0f101112131415161718191a1b1c1d1e1f"
    );
    let (first, second, rest) = digest.shard_components();
    assert_eq!(first, "00");
    assert_eq!(second, "01");
    assert_eq!(
        rest,
        "02030405060708090a0b0c0d0e0f101112131415161718191a1b1c1d1e1f"
    );
}

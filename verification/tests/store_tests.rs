//! Merkle-Mountain-Range storage unit tests

use arber::{Error, Hashable, Store, VecStore};

#[test]
fn append_works() {
    let elem = vec![0u8; 10];
    let h = elem.hash();

    let mut store = VecStore::<Vec<u8>>::new();
    let res = store.append(&elem, &[h]).unwrap();

    assert_eq!((), res);
    assert_eq!(elem, store.data.clone().unwrap()[0]);
    assert_eq!(h, store.hashes[0]);

    let elem = vec![1u8; 10];
    let h = elem.hash();

    let res = store.append(&elem, &[h]).unwrap();

    assert_eq!((), res);
    assert_eq!(elem, store.data.unwrap()[1]);
    assert_eq!(h, store.hashes[1]);
}

#[test]
fn peak_hash_works() {
    let mut store = VecStore::<Vec<u8>>::new();

    let elem = vec![0u8; 10];
    let h = elem.hash();
    let _ = store.append(&elem, &[h]);

    let elem = vec![1u8; 10];
    let h = elem.hash();
    let _ = store.append(&elem, &[h]);

    let peak = store.hash_at(1).unwrap();

    assert_eq!(h, peak);
}

#[test]
fn peak_hash_fails() {
    let want = Err(Error::MissingHashAtIndex(3));

    let store = VecStore::<Vec<u8>>::new();
    let got = store.hash_at(3);

    assert_eq!(want, got);
}

#[test]
fn hash_at_works() {
    let mut store = VecStore::<Vec<u8>>::new();

    let elem = vec![0u8; 10];
    let h = elem.hash();
    let _ = store.append(&elem, &[h]);

    let elem = vec![1u8; 10];
    let h = elem.hash();
    let _ = store.append(&elem, &[h]);

    let peak = store.hash_at(1).unwrap();

    assert_eq!(h, peak);
}

#[test]
fn hash_at_fails() {
    let want = Err(Error::MissingHashAtIndex(3));

    let store = VecStore::<Vec<u8>>::new();
    let got = store.hash_at(3);

    assert_eq!(want, got);
}

#[test]
fn store_without_data_keeps_hashes_only() {
    let mut store = VecStore::<Vec<u8>> {
        data: None,
        hashes: vec![],
    };
    let elem = vec![3u8; 4];
    let h1 = elem.hash();
    let h2 = (h1, h1).hash();
    store.append(&elem, &[h1, h2]).unwrap();

    assert!(store.data.is_none());
    assert_eq!(store.hashes, vec![h1, h2]);
    assert_eq!(store.hash_at(1), Ok(h2));
    assert_eq!(store.hash_at(2), Err(Error::MissingHashAtIndex(2)));
}

#[test]
fn default_store_is_empty() {
    let store = VecStore::<Vec<u8>>::default();
    assert_eq!(store.data, Some(vec![]));
    assert!(store.hashes.is_empty());
    assert_eq!(store.hash_at(0), Err(Error::MissingHashAtIndex(0)));
}

use beacon_core::validator_store::{MemoryDB, PublicKey, StoreError, ValidatorStore, VALIDATOR_DB_COLUMN};

fn key_bytes(seed: u8) -> Vec<u8> {
    (0..48u8).map(|k| k.wrapping_mul(31).wrapping_add(seed)).collect()
}

#[test]
fn test_validator_store_put_get() {
    let mut store = ValidatorStore::new(MemoryDB::open());

    let keys: Vec<PublicKey> = (0..5u8).map(|s| PublicKey::from_bytes(&key_bytes(s)).unwrap()).collect();

    for i in 0..keys.len() {
        store.put_public_key_by_index(i, &keys[i]).unwrap();
    }

    for i in 0..keys.len() {
        let retrieved = store.get_public_key_by_index(i).unwrap().unwrap();
        assert_eq!(retrieved, keys[i]);
    }

    assert!(store.get_public_key_by_index(keys.len() + 1).unwrap().is_none());
}

#[test]
fn test_validator_store_bad_key() {
    let mut db = MemoryDB::open();
    let store = ValidatorStore::new(MemoryDB::open());
    let key = store.get_db_key_for_index(42);
    db.put(VALIDATOR_DB_COLUMN, &key[..], "cats".as_bytes()).unwrap();
    let store = ValidatorStore::new(db);

    assert_eq!(store.get_public_key_by_index(42), Err(StoreError::DecodeError));
}

#[test]
fn db_key_is_prefix_then_big_endian_index() {
    let store = ValidatorStore::new(MemoryDB::open());
    let key = store.get_db_key_for_index(258);
    assert_eq!(key, vec![b'p', b'u', b'b', b'k', b'e', b'y', 0, 0, 0, 0, 0, 0, 1, 2]);
}

#[test]
fn public_key_needs_48_bytes() {
    assert_eq!(PublicKey::from_bytes(&[1, 2, 3]), Err(StoreError::DecodeError));
    let k = PublicKey::from_bytes(&key_bytes(9)).unwrap();
    assert_eq!(k.as_bytes(), key_bytes(9));
}

#[test]
fn later_put_overwrites() {
    let mut db = MemoryDB::open();
    db.put(1, b"a", b"x").unwrap();
    db.put(1, b"a", b"y").unwrap();
    db.put(2, b"a", b"z").unwrap();
    assert_eq!(db.get(1, b"a").unwrap(), Some(b"y".to_vec()));
    assert_eq!(db.get(2, b"a").unwrap(), Some(b"z".to_vec()));
    assert_eq!(db.get(3, b"a").unwrap(), None);
}

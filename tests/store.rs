use task_maker_core::store::{BlobState, FileStore, FileStoreError, FileStoreKey, StoreAction};

fn key_of(content: &str) -> FileStoreKey {
    FileStoreKey::from_content(content.as_bytes())
}

fn fake_key() -> FileStoreKey {
    let mut hash = vec![0u8; 64];
    hash[0] = 0x01;
    hash[1] = 0xab;
    hash[63] = 0xff;
    FileStoreKey::from_hash(hash).unwrap()
}

#[test]
fn test_file_store_key_from_file() {
    let key1a = key_of("ciao");
    let key1b = key_of("ciao");
    let key2 = key_of("ciaone");
    assert_eq!(key1a, key1b);
    assert_ne!(key1a, key2);
    assert_ne!(key1b, key2);
}

#[test]
fn key_has_sixty_four_bytes_and_hex_text() {
    let key = key_of("hello\n");
    assert_eq!(key.hash().len(), 64);
    let text = key.to_string();
    assert_eq!(text.len(), 128);
    assert!(text.chars().all(|c| c.is_ascii_hexdigit() && !c.is_ascii_uppercase()));
}

#[test]
fn hex_text_of_known_key() {
    let text = fake_key().to_string();
    assert!(text.starts_with("01ab00"));
    assert!(text.ends_with("00ff"));
}

#[test]
fn from_hash_rejects_wrong_length() {
    assert!(FileStoreKey::from_hash(vec![1, 2, 3]).is_none());
}

#[test]
fn test_key_to_path() {
    let store = FileStore::new("/tmp/store".to_string());
    let key = fake_key();
    let path = store.key_to_path(&key);
    assert!(path.starts_with("/tmp/store/"));
    assert!(path.ends_with(&key.to_string()));
    assert_eq!(path, format!("/tmp/store/01/ab/{}", key.to_string()));
}

#[test]
fn test_store() {
    let mut store = FileStore::new("/s".to_string());
    let key = key_of("test");
    assert_eq!(store.store(&key, false, false, 1000), StoreAction::Write);
    assert!(store.contains(&key));
    assert_eq!(store.items()[0].persistent, 1600);
}

#[test]
fn store_twice_consumes_only() {
    let mut store = FileStore::new("/s".to_string());
    let key = key_of("test");
    assert_eq!(store.store(&key, false, false, 1000), StoreAction::Write);
    assert_eq!(store.store(&key, true, true, 1010), StoreAction::ConsumeOnly);
    assert_eq!(store.items().len(), 1);
    assert_eq!(store.items()[0].persistent, 1610);
}

#[test]
fn test_get() {
    let mut store = FileStore::new("/s".to_string());
    let key = key_of("ciao");
    store.store(&key, false, false, 0);
    let handle = store.get(&key, true, true, 5).unwrap();
    assert_eq!(handle.path, store.key_to_path(&key));
    assert_eq!(handle.key, key);
    assert_eq!(store.items()[0].persistent, 605);
}

#[test]
fn test_get_removed() {
    let mut store = FileStore::new("/s".to_string());
    let key = key_of("ciao");
    store.store(&key, false, false, 0);
    assert!(store.get(&key, false, false, 5).is_none());
    assert!(!store.contains(&key));
}

#[test]
fn test_get_not_known() {
    let mut store = FileStore::new("/s".to_string());
    let key = key_of("ciao");
    assert!(store.get(&key, false, false, 5).is_none());
}

#[test]
fn test_corrupted_file() {
    let mut store = FileStore::new("/s".to_string());
    let key = key_of("ciao");
    store.store(&key, false, false, 0);
    let rehashed = key_of("lol");
    let intact = task_maker_core::store::check_integrity(&key, false, Some(&rehashed));
    assert!(!intact);
    assert!(store.get(&key, true, intact, 5).is_none());
    assert!(!store.contains(&key));
    assert!(!store.has_key(&key, false, false));
}

#[test]
fn test_has_key() {
    let mut store = FileStore::new("/s".to_string());
    let key = key_of("ciao");
    store.store(&key, false, false, 0);
    assert!(store.has_key(&key, true, true));
}

#[test]
fn test_has_key_not_present() {
    let mut store = FileStore::new("/s".to_string());
    let key = key_of("ciaone");
    assert!(!store.has_key(&key, false, false));
}

#[test]
fn test_has_key_corrupted() {
    let mut store = FileStore::new("/s".to_string());
    let key = key_of("ciaone");
    store.store(&key, false, false, 0);
    assert_eq!(store.check(&key, true, false), BlobState::Corrupted);
    assert!(!store.contains(&key));
}

#[test]
fn test_check_integrity() {
    let key = key_of("ciaone");
    assert!(task_maker_core::store::check_integrity(&key, true, None));
    assert!(task_maker_core::store::check_integrity(&key, false, Some(&key_of("ciaone"))));
    assert!(!task_maker_core::store::check_integrity(&key, false, None));
}

#[test]
fn test_file_store_data_remove() {
    let mut store = FileStore::new("/s".to_string());
    let key = fake_key();
    store.touch(&key, 0);
    store.remove(&key);
    assert!(!store.contains(&key));
}

#[test]
fn persist_missing_is_not_found() {
    let mut store = FileStore::new("/s".to_string());
    let key = fake_key();
    assert_eq!(store.persist(&key, false, 0), Err(FileStoreError::NotFound));
    assert_eq!(store.persist(&key, true, 0), Ok(()));
    assert!(store.contains(&key));
}

fn store_with_deadlines(deadlines: &[i64]) -> (FileStore, Vec<FileStoreKey>) {
    let mut store = FileStore::new("/s".to_string());
    let mut keys = vec![];
    for (i, d) in deadlines.iter().enumerate() {
        let key = key_of(&format!("blob {}", i));
        store.set_deadline(&key, *d);
        keys.push(key);
    }
    (store, keys)
}

#[test]
fn eviction_oldest_first_down_to_floor() {
    let (store, _) = store_with_deadlines(&[10, 5, 20]);
    let plan = store.eviction_plan(&vec![10, 10, 10], &vec![false, false, false], 30, 25, 15);
    assert_eq!(plan, vec![true, true, false]);
}

#[test]
fn eviction_skips_held_and_persistent_blobs() {
    let (store, _) = store_with_deadlines(&[10, 5, 40]);
    let plan = store.eviction_plan(&vec![10, 10, 10], &vec![false, true, false], 30, 25, 1);
    assert_eq!(plan, vec![true, false, false]);
}

#[test]
fn no_eviction_under_the_cap() {
    let (store, _) = store_with_deadlines(&[10, 5, 20]);
    let plan = store.eviction_plan(&vec![10, 10, 10], &vec![false, false, false], 30, 30, 0);
    assert_eq!(plan, vec![false, false, false]);
}
